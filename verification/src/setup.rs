//! What the dashboard reports as wrong with the setup: missing paths, overlapping folders,
//! and mods installed one folder too deep.
use vstd::prelude::*;
use crate::text::{
    chars_of, string_from, trim, trim_seq, lower_seq, ascii_lower, cat, is_ascii_digit,
    is_ascii_digit_exec, starts_with, ends_with, match_at, seq_eq,
};
use crate::paths::{file_name_spec, file_name_exec, parent_spec, parent_chars};
use crate::settings::{AppConfig, UiSettingsDto};
use crate::roots::{game_disabled_dir, game_disabled_dir_spec};

verus! {

broadcast use vstd::string::group_string_axioms;

/// A problem with the setup, tied to the settings field that can fix it.
pub struct SetupIssueDto {
    pub field: String,
    pub message: String,
    pub blocking: bool,
}

pub open spec fn issue_view(i: SetupIssueDto) -> (Seq<char>, Seq<char>, bool) {
    (i.field@, i.message@, i.blocking)
}

pub open spec fn issues_view(v: Seq<SetupIssueDto>) -> Seq<(Seq<char>, Seq<char>, bool)> {
    Seq::new(v.len(), |i: int| issue_view(v[i]))
}

/// What the file system says of the configured paths.
pub struct SetupPathFacts {
    pub game_exe_is_file: bool,
    pub save_dir_is_dir: bool,
    pub save_backup_exists: bool,
    pub save_backup_is_dir: bool,
    pub work_dir_exists: bool,
    pub work_dir_is_dir: bool,
}

/// A configured folder, with the settings field and the label that name it.
pub struct CheckedPath {
    pub field: &'static str,
    pub label: &'static str,
    pub path: String,
}

pub open spec fn checked_view(c: CheckedPath) -> (Seq<char>, Seq<char>, Seq<char>) {
    (c.field@, c.label@, c.path@)
}

pub open spec fn checked_views(v: Seq<CheckedPath>) -> Seq<(Seq<char>, Seq<char>, Seq<char>)> {
    Seq::new(v.len(), |i: int| checked_view(v[i]))
}

pub open spec fn push_setting_spec(
    paths: Seq<(Seq<char>, Seq<char>, Seq<char>)>,
    field: Seq<char>,
    label: Seq<char>,
    value: Seq<char>,
) -> Seq<(Seq<char>, Seq<char>, Seq<char>)> {
    if value.len() == 0 {
        paths
    } else {
        paths.push((field, label, value))
    }
}

/// Adds a configured folder unless its setting is empty.
pub fn push_checked_setting_path(
    paths: &mut Vec<CheckedPath>,
    field: &'static str,
    label: &'static str,
    value: &str,
)
    ensures
        checked_views(final(paths)@) == push_setting_spec(
            checked_views(old(paths)@),
            field@,
            label@,
            value@,
        ),
{
    if value.is_empty() {
        return ;
    }
    let ghost before = paths@;
    paths.push(CheckedPath { field, label, path: value.to_string() });
    assert(checked_views(paths@) =~= checked_views(before).push((field@, label@, value@)));
}

/// The folders whose overlap the setup check looks for, in this order: the game's mods
/// folder, the disabled mods folder, and the save, backup and work folders where set.
pub open spec fn checked_paths_spec(config: &AppConfig, settings: &UiSettingsDto) -> Seq<
    (Seq<char>, Seq<char>, Seq<char>),
> {
    push_setting_spec(
        push_setting_spec(
            push_setting_spec(
                seq![
                    ("game_mods_dir"@, "게임 모드 폴더"@, config.game_mods_dir@),
                    (
                        "disabled_mods_dir"@,
                        "비활성 모드 저장소"@,
                        game_disabled_dir_spec(config.game_mods_dir@),
                    ),
                ],
                "save_dir"@,
                "세이브 폴더"@,
                trim_seq(settings.save_dir@),
            ),
            "save_backup_dir"@,
            "세이브 백업 경로"@,
            trim_seq(settings.save_backup_dir@),
        ),
        "translation_work_dir"@,
        "번역/추출 작업 경로"@,
        trim_seq(settings.translation_work_dir@),
    )
}

fn trimmed(s: &str) -> (r: String)
    ensures
        r@ == trim_seq(s@),
{
    let c = chars_of(s);
    let t = trim(c.as_slice());
    string_from(t.as_slice())
}

pub fn checked_paths(config: &AppConfig, settings: &UiSettingsDto) -> (r: Vec<CheckedPath>)
    ensures
        checked_views(r@) == checked_paths_spec(config, settings),
{
    let mut paths: Vec<CheckedPath> = Vec::new();
    paths.push(
        CheckedPath {
            field: "game_mods_dir",
            label: "게임 모드 폴더",
            path: config.game_mods_dir.clone(),
        },
    );
    paths.push(
        CheckedPath {
            field: "disabled_mods_dir",
            label: "비활성 모드 저장소",
            path: game_disabled_dir(config.game_mods_dir.as_str()),
        },
    );
    assert(checked_views(paths@) =~= seq![
        ("game_mods_dir"@, "게임 모드 폴더"@, config.game_mods_dir@),
        ("disabled_mods_dir"@, "비활성 모드 저장소"@, game_disabled_dir_spec(config.game_mods_dir@)),
    ]);
    let v = trimmed(settings.save_dir.as_str());
    push_checked_setting_path(&mut paths, "save_dir", "세이브 폴더", v.as_str());
    let v = trimmed(settings.save_backup_dir.as_str());
    push_checked_setting_path(&mut paths, "save_backup_dir", "세이브 백업 경로", v.as_str());
    let v = trimmed(settings.translation_work_dir.as_str());
    push_checked_setting_path(&mut paths, "translation_work_dir", "번역/추출 작업 경로", v.as_str());
    paths
}

/// Count of `c` at the end of `s`.
pub open spec fn trailing_count(s: Seq<char>, c: char) -> nat
    decreases s.len(),
{
    if s.len() > 0 && s.last() == c {
        1 + trailing_count(s.drop_last(), c)
    } else {
        0
    }
}

pub open spec fn slashes(p: Seq<char>) -> Seq<char> {
    p.map_values(|c: char| if c == '\\' { '/' } else { c })
}

/// A path as the overlap check compares it: `/` for `\`, no trailing `/`, ASCII lower case.
pub open spec fn comparable_spec(p: Seq<char>) -> Seq<char> {
    let s = slashes(p);
    lower_seq(s.take(s.len() - trailing_count(s, '/')))
}

proof fn lemma_trailing_count(s: Seq<char>, c: char, k: int)
    requires
        0 <= k <= s.len(),
        forall|j: int| s.len() - k <= j < s.len() ==> #[trigger] s[j] == c,
        k == s.len() || s[s.len() - k - 1] != c,
    ensures
        trailing_count(s, c) == k,
    decreases k,
{
    if k > 0 {
        let t = s.drop_last();
        assert forall|j: int| t.len() - (k - 1) <= j < t.len() implies #[trigger] t[j] == c by {
            assert(t[j] == s[j]);
        }
        if k < s.len() {
            assert(t[t.len() - (k - 1) - 1] == s[s.len() - k - 1]);
        }
        lemma_trailing_count(t, c, k - 1);
    }
}

pub fn comparable_path(path: &str) -> (r: String)
    ensures
        r@ == comparable_spec(path@),
{
    let p = chars_of(path);
    let mut s: Vec<char> = Vec::new();
    let mut i: usize = 0;
    while i < p.len()
        invariant
            i <= p@.len(),
            s@ == slashes(p@).take(i as int),
        decreases p.len() - i,
    {
        let c = p[i];
        s.push(if c == '\\' { '/' } else { c });
        i += 1;
        assert(s@ =~= slashes(p@).take(i as int));
    }
    assert(slashes(p@).take(p@.len() as int) =~= slashes(p@));
    let mut end: usize = s.len();
    while end > 0 && s[end - 1] == '/'
        invariant
            end <= s@.len(),
            forall|j: int| end <= j < s@.len() ==> #[trigger] s@[j] == '/',
        decreases end,
    {
        end -= 1;
    }
    proof {
        lemma_trailing_count(s@, '/', s@.len() - end);
    }
    let mut kept: Vec<char> = Vec::new();
    let mut k: usize = 0;
    while k < end
        invariant
            end <= s@.len(),
            k <= end,
            kept@ == s@.take(k as int),
        decreases end - k,
    {
        kept.push(s[k]);
        k += 1;
        assert(kept@ =~= s@.take(k as int));
    }
    let low = ascii_lower(kept.as_slice());
    string_from(low.as_slice())
}

/// `child` lies inside `parent`: it is `parent`, a `/`, and more.
pub open spec fn ancestor_spec(parent: Seq<char>, child: Seq<char>) -> bool {
    child.len() > parent.len() && child.take(parent.len() as int) == parent && child[parent.len() as int]
        == '/'
}

pub fn is_path_ancestor(parent: &str, child: &str) -> (r: bool)
    ensures
        r == ancestor_spec(parent@, child@),
{
    let p = chars_of(parent);
    let c = chars_of(child);
    if c.len() <= p.len() {
        return false;
    }
    let lead = starts_with(c.as_slice(), p.as_slice());
    proof {
        if lead {
            assert(match_at(c@, p@, 0));
            assert(c@.subrange(0, p@.len() as int) =~= c@.take(p@.len() as int));
        } else if c@.take(p@.len() as int) == p@ {
            assert(c@.subrange(0, p@.len() as int) =~= c@.take(p@.len() as int));
        }
    }
    lead && c[p.len()] == '/'
}

pub open spec fn overlap_kind_spec(left: Seq<char>, right: Seq<char>) -> Option<Seq<char>> {
    let l = comparable_spec(left);
    let r = comparable_spec(right);
    if l.len() == 0 || r.len() == 0 {
        None
    } else if l == r {
        Some("같습니다"@)
    } else if ancestor_spec(l, r) || ancestor_spec(r, l) {
        Some("포함 관계입니다"@)
    } else {
        None
    }
}

/// Whether two folders are the same or one holds the other.
pub fn path_overlap_kind(left: &str, right: &str) -> (r: Option<&'static str>)
    ensures
        match r {
            Some(k) => overlap_kind_spec(left@, right@) == Some(k@),
            None => overlap_kind_spec(left@, right@) is None,
        },
{
    let l = comparable_path(left);
    let r = comparable_path(right);
    if l.as_str().is_empty() || r.as_str().is_empty() {
        return None;
    }
    let lc = chars_of(l.as_str());
    let rc = chars_of(r.as_str());
    if seq_eq(lc.as_slice(), rc.as_slice()) {
        return Some("같습니다");
    }
    if is_path_ancestor(l.as_str(), r.as_str()) || is_path_ancestor(r.as_str(), l.as_str()) {
        return Some("포함 관계입니다");
    }
    None
}

pub open spec fn overlap_message(
    left: (Seq<char>, Seq<char>, Seq<char>),
    right: (Seq<char>, Seq<char>, Seq<char>),
    kind: Seq<char>,
) -> Seq<char> {
    left.1 + "와 "@ + right.1 + " 경로가 "@ + kind
        + ". 정리/복구 작업이 다른 데이터를 건드릴 수 있으니 분리하는 것을 권장합니다. ("@
        + left.2 + " / "@ + right.2 + ")"@
}

/// The issues for one folder against those after it.
pub open spec fn row_issues(
    left: (Seq<char>, Seq<char>, Seq<char>),
    rights: Seq<(Seq<char>, Seq<char>, Seq<char>)>,
) -> Seq<(Seq<char>, Seq<char>, bool)>
    decreases rights.len(),
{
    if rights.len() == 0 {
        Seq::empty()
    } else {
        let prev = row_issues(left, rights.drop_last());
        match overlap_kind_spec(left.2, rights.last().2) {
            Some(k) => prev.push((left.0, overlap_message(left, rights.last(), k), false)),
            None => prev,
        }
    }
}

/// The issues for every pair of folders, the earlier one first, in the order of the list.
pub open spec fn overlap_issues_upto(paths: Seq<(Seq<char>, Seq<char>, Seq<char>)>, n: int) -> Seq<
    (Seq<char>, Seq<char>, bool),
>
    decreases n,
{
    if n <= 0 {
        Seq::empty()
    } else {
        overlap_issues_upto(paths, n - 1) + row_issues(paths[n - 1], paths.skip(n))
    }
}

pub open spec fn overlap_issues_spec(config: &AppConfig, settings: &UiSettingsDto) -> Seq<
    (Seq<char>, Seq<char>, bool),
> {
    let p = checked_paths_spec(config, settings);
    overlap_issues_upto(p, p.len() as int)
}

fn overlap_issue(left: &CheckedPath, right: &CheckedPath, kind: &str) -> (r: SetupIssueDto)
    ensures
        issue_view(r) == (left.field@, overlap_message(checked_view(*left), checked_view(*right), kind@), false),
{
    let m = cat(left.label, "와 ");
    let m = cat(m.as_str(), right.label);
    let m = cat(m.as_str(), " 경로가 ");
    let m = cat(m.as_str(), kind);
    let m = cat(
        m.as_str(),
        ". 정리/복구 작업이 다른 데이터를 건드릴 수 있으니 분리하는 것을 권장합니다. (",
    );
    let m = cat(m.as_str(), left.path.as_str());
    let m = cat(m.as_str(), " / ");
    let m = cat(m.as_str(), right.path.as_str());
    let m = cat(m.as_str(), ")");
    SetupIssueDto { field: left.field.to_string(), message: m, blocking: false }
}

/// An advisory issue for each pair of configured folders that are the same or nested.
pub fn path_overlap_issues(config: &AppConfig, settings: &UiSettingsDto) -> (r: Vec<SetupIssueDto>)
    ensures
        issues_view(r@) == overlap_issues_spec(config, settings),
{
    let paths = checked_paths(config, settings);
    let ghost pv = checked_views(paths@);
    let mut issues: Vec<SetupIssueDto> = Vec::new();
    let mut i: usize = 0;
    while i < paths.len()
        invariant
            i <= paths@.len(),
            pv == checked_views(paths@),
            issues_view(issues@) == overlap_issues_upto(pv, i as int),
        decreases paths.len() - i,
    {
        let mut j: usize = i + 1;
        let ghost base = issues_view(issues@);
        assert(pv.subrange(i + 1, j as int) =~= Seq::<(Seq<char>, Seq<char>, Seq<char>)>::empty());
        while j < paths.len()
            invariant
                i < paths@.len(),
                i + 1 <= j <= paths@.len(),
                pv == checked_views(paths@),
                base == overlap_issues_upto(pv, i as int),
                issues_view(issues@) == base + row_issues(pv[i as int], pv.subrange(i + 1, j as int)),
            decreases paths.len() - j,
        {
            let ghost before = issues@;
            let kind = path_overlap_kind(paths[i].path.as_str(), paths[j].path.as_str());
            proof {
                let rs = pv.subrange(i + 1, j + 1);
                assert(rs.drop_last() =~= pv.subrange(i + 1, j as int));
                assert(rs.last() == pv[j as int]);
                assert(pv[j as int] == checked_view(paths@[j as int]));
                assert(pv[i as int] == checked_view(paths@[i as int]));
            }
            match kind {
                Some(k) => {
                    let issue = overlap_issue(&paths[i], &paths[j], k);
                    issues.push(issue);
                    assert(issues_view(issues@) =~= issues_view(before).push(issue_view(issue)));
                },
                None => {},
            }
            j += 1;
        }
        proof {
            assert(pv.subrange(i + 1, j as int) =~= pv.skip(i + 1));
        }
        i += 1;
    }
    issues
}

pub open spec fn issue(field: Seq<char>, message: Seq<char>, blocking: bool) -> Seq<
    (Seq<char>, Seq<char>, bool),
> {
    seq![(field, message, blocking)]
}

/// The issues found before the overlap check, in the order they are checked.
pub open spec fn base_issues_spec(
    config: &AppConfig,
    settings: &UiSettingsDto,
    launch_ready: bool,
    facts: SetupPathFacts,
) -> Seq<(Seq<char>, Seq<char>, bool)> {
    let exe = if !launch_ready {
        issue("game_exe_path"@, "게임 실행 파일 또는 Steam 실행 경로를 자동 탐지하지 못했습니다."@, true)
    } else if trim_seq(settings.game_exe_path@).len() > 0 && !facts.game_exe_is_file {
        issue("game_exe_path"@, "설정된 게임 실행 파일을 찾을 수 없습니다."@, true)
    } else {
        Seq::empty()
    };
    let save = if trim_seq(settings.save_dir@).len() == 0 {
        issue("save_dir"@, "세이브 폴더를 자동 탐지하지 못했습니다."@, true)
    } else if !facts.save_dir_is_dir {
        issue("save_dir"@, "세이브 폴더 경로가 존재하지 않습니다."@, true)
    } else {
        Seq::empty()
    };
    let backup = if trim_seq(settings.save_backup_dir@).len() == 0 {
        issue("save_backup_dir"@, "세이브 백업 경로가 비어 있습니다."@, true)
    } else if facts.save_backup_exists && !facts.save_backup_is_dir {
        issue("save_backup_dir"@, "세이브 백업 경로가 폴더가 아닙니다."@, true)
    } else {
        Seq::empty()
    };
    let work = if trim_seq(settings.translation_work_dir@).len() == 0 {
        issue("translation_work_dir"@, "번역/추출 작업 경로가 비어 있습니다."@, false)
    } else if facts.work_dir_exists && !facts.work_dir_is_dir {
        issue("translation_work_dir"@, "번역/추출 작업 경로가 폴더가 아닙니다."@, false)
    } else {
        Seq::empty()
    };
    let limit = if config.save_backup_max_entries == 0 {
        issue("save_backup_max_entries"@, "세이브 백업 최대 개수는 1개 이상이어야 합니다."@, true)
    } else {
        Seq::empty()
    };
    exe + save + backup + work + limit
}

pub open spec fn setup_issues_spec(
    config: &AppConfig,
    settings: &UiSettingsDto,
    launch_ready: bool,
    facts: SetupPathFacts,
) -> Seq<(Seq<char>, Seq<char>, bool)> {
    base_issues_spec(config, settings, launch_ready, facts) + overlap_issues_spec(config, settings)
}

fn push_issue(issues: &mut Vec<SetupIssueDto>, field: &str, message: &str, blocking: bool)
    ensures
        issues_view(final(issues)@) == issues_view(old(issues)@) + issue(field@, message@, blocking),
{
    let ghost before = issues@;
    issues.push(SetupIssueDto { field: field.to_string(), message: message.to_string(), blocking });
    assert(issues_view(issues@) =~= issues_view(before) + issue(field@, message@, blocking));
}

/// The setup problems that the dashboard lists: a missing game or save folder, a backup or
/// work path that is not a folder, a zero backup limit, then overlapping folders.
/// `launch_ready` says whether a launch target was found; `facts` what the disk says.
pub fn setup_issues(
    config: &AppConfig,
    settings: &UiSettingsDto,
    launch_ready: bool,
    facts: SetupPathFacts,
) -> (r: Vec<SetupIssueDto>)
    ensures
        issues_view(r@) == setup_issues_spec(config, settings, launch_ready, facts),
{
    let mut issues: Vec<SetupIssueDto> = Vec::new();
    let ghost e = Seq::<(Seq<char>, Seq<char>, bool)>::empty();
    assert(issues_view(issues@) =~= e);
    let exe_set = !trimmed(settings.game_exe_path.as_str()).as_str().is_empty();
    if !launch_ready {
        push_issue(
            &mut issues,
            "game_exe_path",
            "게임 실행 파일 또는 Steam 실행 경로를 자동 탐지하지 못했습니다.",
            true,
        );
    } else if exe_set && !facts.game_exe_is_file {
        push_issue(&mut issues, "game_exe_path", "설정된 게임 실행 파일을 찾을 수 없습니다.", true);
    }
    let ghost a = issues_view(issues@);
    if trimmed(settings.save_dir.as_str()).as_str().is_empty() {
        push_issue(&mut issues, "save_dir", "세이브 폴더를 자동 탐지하지 못했습니다.", true);
    } else if !facts.save_dir_is_dir {
        push_issue(&mut issues, "save_dir", "세이브 폴더 경로가 존재하지 않습니다.", true);
    }
    let ghost b = issues_view(issues@);
    if trimmed(settings.save_backup_dir.as_str()).as_str().is_empty() {
        push_issue(&mut issues, "save_backup_dir", "세이브 백업 경로가 비어 있습니다.", true);
    } else if facts.save_backup_exists && !facts.save_backup_is_dir {
        push_issue(&mut issues, "save_backup_dir", "세이브 백업 경로가 폴더가 아닙니다.", true);
    }
    let ghost c = issues_view(issues@);
    if trimmed(settings.translation_work_dir.as_str()).as_str().is_empty() {
        push_issue(&mut issues, "translation_work_dir", "번역/추출 작업 경로가 비어 있습니다.", false);
    } else if facts.work_dir_exists && !facts.work_dir_is_dir {
        push_issue(
            &mut issues,
            "translation_work_dir",
            "번역/추출 작업 경로가 폴더가 아닙니다.",
            false,
        );
    }
    if config.save_backup_max_entries == 0 {
        push_issue(
            &mut issues,
            "save_backup_max_entries",
            "세이브 백업 최대 개수는 1개 이상이어야 합니다.",
            true,
        );
    }
    assert(issues_view(issues@) =~= base_issues_spec(config, settings, launch_ready, facts));
    let mut overlap = path_overlap_issues(config, settings);
    let ghost before = issues@;
    let ghost ov = overlap@;
    issues.append(&mut overlap);
    assert(issues_view(issues@) =~= issues_view(before) + issues_view(ov));
    issues
}

/// Mod safety warnings: none are raised from a manifest today.
pub fn mod_safety_warnings(manifest: &crate::model::ModManifestInfo) -> (r: Vec<String>)
    ensures
        r@.len() == 0,
{
    Vec::new()
}

/// A Vortex download folder name: the part after the last `-` is eight or more digits.
pub open spec fn vortex_download_spec(name: Seq<char>) -> bool {
    exists|i: int|
        0 <= i < name.len() && name[i] == '-' && (forall|j: int| i < j < name.len() ==> name[j] != '-')
            && name.len() - i - 1 >= 8 && (forall|j: int|
            i < j < name.len() ==> is_ascii_digit(#[trigger] name[j]))
}

pub fn looks_like_vortex_download_folder(name: &str) -> (r: bool)
    ensures
        r == vortex_download_spec(name@),
{
    let n = chars_of(name);
    let mut i: usize = n.len();
    while i > 0 && n[i - 1] != '-'
        invariant
            n@ == name@,
            i <= n@.len(),
            forall|j: int| i <= j < n@.len() ==> n@[j] != '-',
        decreases i,
    {
        i -= 1;
    }
    if i == 0 {
        proof {
            assert forall|k: int| 0 <= k < n@.len() && n@[k] == '-' implies false by {
                assert(n@[k] != '-');
            }
        }
        return false;
    }
    let dash = i - 1;
    if n.len() - dash - 1 < 8 {
        proof {
            assert forall|k: int|
                0 <= k < n@.len() && n@[k] == '-' && (forall|j: int| k < j < n@.len() ==> n@[j] != '-')
                implies k == dash by {
                if k < dash {
                    assert(n@[dash as int] == '-');
                } else if k > dash {
                    assert(n@[k] != '-');
                }
            }
        }
        return false;
    }
    let mut j: usize = dash + 1;
    while j < n.len()
        invariant
            n@ == name@,
            dash < j <= n@.len(),
            n@[dash as int] == '-',
            forall|m: int| dash < m < n@.len() ==> n@[m] != '-',
            forall|m: int| dash < m < j ==> is_ascii_digit(#[trigger] n@[m]),
        decreases n.len() - j,
    {
        if !is_ascii_digit_exec(n[j]) {
            proof {
                assert forall|k: int|
                    0 <= k < n@.len() && n@[k] == '-' && (forall|m: int| k < m < n@.len() ==> n@[m] != '-')
                    implies k == dash by {
                    if k < dash {
                        assert(n@[dash as int] == '-');
                    } else if k > dash {
                        assert(n@[k] != '-');
                    }
                }
                assert(!is_ascii_digit(n@[j as int]));
            }
            return false;
        }
        j += 1;
    }
    proof {
        assert(n@[dash as int] == '-');
    }
    true
}

pub open spec fn vortex_marker_name(name: Seq<char>) -> bool {
    let l = lower_seq(name);
    l.len() >= "vortex.deployment."@.len() && l.take("vortex.deployment."@.len() as int)
        == "vortex.deployment."@ && ((l.len() >= 5 && l.skip(l.len() - 5) == ".json"@) || (l.len() >= 8
        && l.skip(l.len() - 8) == ".msgpack"@))
}

fn vortex_marker_name_exec(name: &str) -> (r: bool)
    ensures
        r == vortex_marker_name(name@),
{
    let l = ascii_lower(chars_of(name).as_slice());
    let p = chars_of("vortex.deployment.");
    let j = chars_of(".json");
    let m = chars_of(".msgpack");
    let a = starts_with(l.as_slice(), p.as_slice());
    let b = ends_with(l.as_slice(), j.as_slice());
    let c = ends_with(l.as_slice(), m.as_slice());
    proof {
        assert(a == (l@.len() >= p@.len() && l@.take(p@.len() as int) == p@)) by {
            if l@.len() >= p@.len() {
                assert(l@.subrange(0, p@.len() as int) =~= l@.take(p@.len() as int));
            }
        }
        assert(b == (l@.len() >= 5 && l@.skip(l@.len() - 5) == ".json"@)) by {
            reveal_strlit(".json");
            if l@.len() >= 5 {
                assert(l@.subrange(l@.len() - 5, l@.len() as int) =~= l@.skip(l@.len() - 5));
            }
        }
        assert(c == (l@.len() >= 8 && l@.skip(l@.len() - 8) == ".msgpack"@)) by {
            reveal_strlit(".msgpack");
            if l@.len() >= 8 {
                assert(l@.subrange(l@.len() - 8, l@.len() as int) =~= l@.skip(l@.len() - 8));
            }
        }
    }
    a && (b || c)
}

/// Whether a folder holds a Vortex deployment manifest, given the names of its entries.
pub fn vortex_deployment_marker_exists(entry_names: &Vec<String>) -> (r: bool)
    ensures
        r == exists|i: int| 0 <= i < entry_names@.len() && vortex_marker_name(#[trigger] entry_names@[i]@),
{
    let mut i: usize = 0;
    while i < entry_names.len()
        invariant
            i <= entry_names@.len(),
            forall|j: int| 0 <= j < i ==> !vortex_marker_name(#[trigger] entry_names@[j]@),
        decreases entry_names.len() - i,
    {
        if vortex_marker_name_exec(entry_names[i].as_str()) {
            return true;
        }
        i += 1;
    }
    false
}


/// An entry of a folder as the file system reports it. `looks_like_payload` says whether a
/// folder holds a mod: a package or archive to extract, or a manifest.
pub struct DirEntryFacts {
    pub path: String,
    pub name: String,
    pub is_dir: bool,
    pub is_file: bool,
    pub looks_like_payload: bool,
}

pub open spec fn hidden_name(name: Seq<char>) -> bool {
    name.len() > 0 && name[0] == '.'
}

pub open spec fn visible_dir(e: DirEntryFacts) -> bool {
    !hidden_name(e.name@) && e.is_dir
}

pub open spec fn visible_file(e: DirEntryFacts) -> bool {
    !hidden_name(e.name@) && e.is_file
}

pub open spec fn sole_dir(c: Seq<DirEntryFacts>, i: int) -> bool {
    0 <= i < c.len() && visible_dir(c[i]) && forall|j: int| 0 <= j < c.len() && j != i ==> !visible_dir(#[trigger] c[j])
}

/// The folder inside a mod folder that holds the mod itself: the one visible folder, where
/// there is no visible file beside it and the folder looks like a mod.
pub open spec fn nested_payload_spec(c: Seq<DirEntryFacts>) -> Option<Seq<char>> {
    if (forall|j: int| 0 <= j < c.len() ==> !visible_file(#[trigger] c[j])) && exists|i: int| sole_dir(c, i) {
        let i = choose|i: int| sole_dir(c, i);
        if c[i].looks_like_payload {
            Some(c[i].path@)
        } else {
            None
        }
    } else {
        None
    }
}

fn is_hidden(name: &str) -> (r: bool)
    ensures
        r == hidden_name(name@),
{
    let n = chars_of(name);
    n.len() > 0 && n[0] == '.'
}

/// Given the entries of a mod folder, the nested folder that holds the mod, if any.
pub fn nested_mod_payload_dir(children: &Vec<DirEntryFacts>) -> (r: Option<String>)
    ensures
        match r {
            Some(p) => nested_payload_spec(children@) == Some(p@),
            None => nested_payload_spec(children@) is None,
        },
{
    let mut found: Option<usize> = None;
    let mut dirs: usize = 0;
    let mut i: usize = 0;
    while i < children.len()
        invariant
            i <= children@.len(),
            dirs <= i,
            forall|j: int| 0 <= j < i ==> !visible_file(#[trigger] children@[j]),
            dirs == 0 ==> found is None && forall|j: int| 0 <= j < i ==> !visible_dir(#[trigger] children@[j]),
            dirs == 1 ==> (found matches Some(f) && f < i && visible_dir(children@[f as int]) && forall|j: int|
                0 <= j < i && j != f ==> !visible_dir(#[trigger] children@[j])),
            dirs >= 2 ==> exists|a: int, b: int|
                0 <= a < b < i && visible_dir(#[trigger] children@[a]) && visible_dir(#[trigger] children@[b]),
        decreases children.len() - i,
    {
        let e = &children[i];
        let hidden = is_hidden(e.name.as_str());
        if !hidden && e.is_file {
            proof {
                assert(visible_file(children@[i as int]));
            }
            return None;
        }
        if !hidden && e.is_dir {
            if dirs == 0 {
                found = Some(i);
                dirs = 1;
            } else {
                proof {
                    if dirs == 1 {
                        let f = found->0;
                        assert(visible_dir(children@[f as int]) && visible_dir(children@[i as int]));
                    }
                }
                dirs = 2;
            }
        }
        i += 1;
    }
    if dirs != 1 {
        proof {
            if dirs >= 2 {
                let (a, b) = choose|a: int, b: int|
                    0 <= a < b < i && visible_dir(#[trigger] children@[a]) && visible_dir(#[trigger] children@[b]);
                assert forall|k: int| !sole_dir(children@, k) by {
                    if sole_dir(children@, k) {
                        if k == a {
                            assert(!visible_dir(children@[b]));
                        } else {
                            assert(!visible_dir(children@[a]));
                        }
                    }
                }
            } else {
                assert forall|k: int| !sole_dir(children@, k) by {
                    if 0 <= k < children@.len() {
                        assert(!visible_dir(children@[k]));
                    }
                }
            }
        }
        return None;
    }
    let f = match found {
        Some(f) => f,
        None => 0,
    };
    proof {
        assert(sole_dir(children@, f as int));
        let k = choose|k: int| sole_dir(children@, k);
        if k != f {
            assert(!visible_dir(children@[k]));
        }
    }
    if children[f].looks_like_payload {
        Some(children[f].path.clone())
    } else {
        None
    }
}

pub open spec fn lower_file_name(p: Seq<char>) -> Seq<char> {
    match file_name_spec(p) {
        Some(n) => lower_seq(n),
        None => Seq::empty(),
    }
}

/// A mod folder that Vortex deploys with the mod one level down: the parent holds a Vortex
/// deployment manifest, the folder holds a nested mod, and the inner folder has the outer
/// one's name or the outer one is named like a Vortex download.
pub open spec fn vortex_nested_spec(
    path: Seq<char>,
    parent_entry_names: Seq<String>,
    children: Seq<DirEntryFacts>,
) -> bool {
    &&& parent_spec(path) is Some
    &&& exists|i: int| 0 <= i < parent_entry_names.len() && vortex_marker_name(#[trigger] parent_entry_names[i]@)
    &&& nested_payload_spec(children) matches Some(inner) && (lower_file_name(path) == lower_file_name(
        inner,
    ) || vortex_download_spec(lower_file_name(path)))
}

fn lower_file_name_exec(p: &str) -> (r: Vec<char>)
    ensures
        r@ == lower_file_name(p@),
{
    let c = chars_of(p);
    match file_name_exec(c.as_slice()) {
        Some(n) => ascii_lower(n.as_slice()),
        None => Vec::new(),
    }
}

/// Whether a mod folder is a Vortex deployment with the mod one level down. The entries of
/// the folder's parent are given by name, those of the folder itself in full.
pub fn is_vortex_nested_mod_layout(
    path: &str,
    parent_entry_names: &Vec<String>,
    children: &Vec<DirEntryFacts>,
) -> (r: bool)
    ensures
        r == vortex_nested_spec(path@, parent_entry_names@, children@),
{
    let pc = chars_of(path);
    if parent_chars(pc.as_slice()).is_none() {
        return false;
    }
    if !vortex_deployment_marker_exists(parent_entry_names) {
        return false;
    }
    let inner = match nested_mod_payload_dir(children) {
        Some(i) => i,
        None => return false,
    };
    let outer_name = lower_file_name_exec(path);
    let inner_name = lower_file_name_exec(inner.as_str());
    if seq_eq(outer_name.as_slice(), inner_name.as_slice()) {
        return true;
    }
    let o = string_from(outer_name.as_slice());
    looks_like_vortex_download_folder(o.as_str())
}

/// Whether two folders overlap does not depend on which is named first.
pub proof fn lemma_overlap_kind_symmetric(left: Seq<char>, right: Seq<char>)
    ensures
        overlap_kind_spec(left, right) == overlap_kind_spec(right, left),
{
}

/// A folder never lies inside itself.
pub proof fn lemma_not_own_ancestor(p: Seq<char>)
    ensures
        !ancestor_spec(p, p),
{
}

} // verus!
