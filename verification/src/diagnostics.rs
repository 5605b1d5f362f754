//! The troubleshooting list: setup issues, install problems, missing dependencies, stale
//! mods and translations, and log findings, most severe first.
use vstd::prelude::*;
use crate::text::{chars_of, string_from, cat, seq_eq, lower_seq, contains_seq, ascii_lower, contains, push_all};
use crate::logs::{classify_spec, classify_game_log_line};
use crate::dashboard::{fnv_spec, hex_spec, stable_hash, hex_digits};
use crate::model::{ModRecord, ModKind};
use crate::paths::ext_is;
use crate::setup::SetupIssueDto;
use crate::rows::{ModRowDto, ModDependencyDto};
use crate::roots::opt_view;
use crate::logs::{diagnostic_sort_key, diagnostic_sort_key_spec, severity_rank};
use crate::order::{lex_lt, lex_lt_exec, lemma_lex_total, lemma_lex_transitive, lemma_lex_asymmetric, lemma_lex_irreflexive};

verus! {

broadcast use vstd::string::group_string_axioms;

/// One finding of the troubleshooting list.
pub struct TroubleshootDiagnosticDto {
    pub id: String,
    pub category: String,
    pub severity: String,
    pub title: String,
    pub detail: String,
    pub action_label: String,
    pub related_path: String,
    pub mod_key: Option<String>,
    pub can_auto_fix: bool,
}

pub struct DiagView {
    pub id: Seq<char>,
    pub category: Seq<char>,
    pub severity: Seq<char>,
    pub title: Seq<char>,
    pub detail: Seq<char>,
    pub action_label: Seq<char>,
    pub related_path: Seq<char>,
    pub mod_key: Option<Seq<char>>,
    pub can_auto_fix: bool,
}

impl View for TroubleshootDiagnosticDto {
    type V = DiagView;

    open spec fn view(&self) -> DiagView {
        DiagView {
            id: self.id@,
            category: self.category@,
            severity: self.severity@,
            title: self.title@,
            detail: self.detail@,
            action_label: self.action_label@,
            related_path: self.related_path@,
            mod_key: opt_view(self.mod_key),
            can_auto_fix: self.can_auto_fix,
        }
    }
}

pub open spec fn diags_view(v: Seq<TroubleshootDiagnosticDto>) -> Seq<DiagView> {
    Seq::new(v.len(), |i: int| v[i]@)
}

pub open spec fn dv(
    id: Seq<char>,
    category: Seq<char>,
    severity: Seq<char>,
    title: Seq<char>,
    detail: Seq<char>,
    action_label: Seq<char>,
    related_path: Seq<char>,
    mod_key: Option<Seq<char>>,
    can_auto_fix: bool,
) -> DiagView {
    DiagView { id, category, severity, title, detail, action_label, related_path, mod_key, can_auto_fix }
}

fn diag(
    id: String,
    category: &str,
    severity: &str,
    title: &str,
    detail: String,
    action_label: &str,
    related_path: String,
    mod_key: Option<String>,
    can_auto_fix: bool,
) -> (r: TroubleshootDiagnosticDto)
    ensures
        r@ == dv(id@, category@, severity@, title@, detail@, action_label@, related_path@, opt_view(mod_key), can_auto_fix),
{
    TroubleshootDiagnosticDto {
        id,
        category: category.to_string(),
        severity: severity.to_string(),
        title: title.to_string(),
        detail,
        action_label: action_label.to_string(),
        related_path,
        mod_key,
        can_auto_fix,
    }
}

pub open spec fn setup_diag(i: SetupIssueDto) -> DiagView {
    dv(
        "setup-"@ + i.field@,
        "setup"@,
        if i.blocking { "error"@ } else { "warn"@ },
        if i.blocking { "필수 경로 확인 필요"@ } else { "권장 설정 확인 필요"@ },
        i.message@,
        "설정에서 경로 지정"@,
        Seq::empty(),
        None,
        false,
    )
}

pub open spec fn missing_dir_diag(game_dir: Seq<char>) -> DiagView {
    dv(
        "setup-missing-mods-dir"@,
        "setup"@,
        "warn"@,
        "mods 폴더가 아직 없습니다"@,
        "게임 설치는 감지했지만 활성 모드 폴더가 없어 첫 설치 전 상태로 보입니다."@,
        "게임 폴더 열기"@,
        game_dir,
        None,
        false,
    )
}

pub open spec fn is_archive_record(r: ModRecord) -> bool {
    r.kind == ModKind::Archive && (ext_is(r.path@, "zip"@) || ext_is(r.path@, "7z"@) || ext_is(r.path@, "rar"@))
}

pub open spec fn archive_diag(r: ModRecord) -> DiagView {
    dv(
        "install-archive-"@ + r.key@,
        "install"@,
        "warn"@,
        "압축 파일이 mods 폴더에 그대로 있습니다"@,
        r.name@ + "은(는) 게임이 바로 읽기 어려운 압축 파일입니다. 폴더로 풀고 원본 압축은 백업해야 합니다."@,
        "설치 자동 정리"@,
        r.path@,
        Some(r.key@),
        true,
    )
}

pub open spec fn nested_diag(r: ModRecord) -> DiagView {
    dv(
        "install-nested-"@ + r.key@,
        "install"@,
        "warn"@,
        "모드 폴더가 한 단계 더 중첩되어 있습니다"@,
        r.name@ + " 폴더 안에 실제 모드 폴더가 한 번 더 들어 있습니다. 로더가 모드를 놓칠 수 있습니다."@,
        "설치 자동 정리"@,
        r.path@,
        Some(r.key@),
        true,
    )
}

/// The install findings of one mod in the game folder. `nested` says whether it is a
/// folder with the mod one level down that is not a Vortex deployment.
pub open spec fn install_diags(r: ModRecord, nested: bool) -> Seq<DiagView> {
    (if is_archive_record(r) { seq![archive_diag(r)] } else { Seq::empty() }) + (if r.kind
        == ModKind::Directory && nested {
        seq![nested_diag(r)]
    } else {
        Seq::empty()
    })
}

pub open spec fn or_dash(o: Option<String>) -> Seq<char> {
    match o {
        Some(s) => s@,
        None => "-"@,
    }
}

pub open spec fn missing_dep_diag(row: ModRowDto, d: ModDependencyDto) -> DiagView {
    dv(
        "dependency-"@ + row.key@ + "-"@ + d.id@,
        "dependency"@,
        "error"@,
        "선행 모드가 없습니다"@,
        row.name@ + " 모드는 "@ + d.id@ + " 선행 모드가 필요합니다."@,
        "모드 경로 열기"@,
        row.path@,
        Some(row.key@),
        false,
    )
}

pub open spec fn version_dep_diag(row: ModRowDto, d: ModDependencyDto) -> DiagView {
    dv(
        "dependency-version-"@ + row.key@ + "-"@ + d.id@,
        "dependency"@,
        "warn"@,
        "선행 모드 버전이 다릅니다"@,
        row.name@ + " 모드는 "@ + d.name@ + " "@ + or_dash(d.version_required)
            + " 버전을 기준으로 만들어졌지만 현재 버전은 "@ + or_dash(d.version_current) + "입니다."@,
        "모드 경로 열기"@,
        row.path@,
        Some(row.key@),
        false,
    )
}

pub open spec fn dep_diags(row: ModRowDto, d: ModDependencyDto) -> Seq<DiagView> {
    (if !d.available { seq![missing_dep_diag(row, d)] } else { Seq::empty() }) + (if d.version_matches
        == Some(false) {
        seq![version_dep_diag(row, d)]
    } else {
        Seq::empty()
    })
}

pub open spec fn deps_diags(row: ModRowDto, ds: Seq<ModDependencyDto>) -> Seq<DiagView>
    decreases ds.len(),
{
    if ds.len() == 0 {
        Seq::empty()
    } else {
        deps_diags(row, ds.drop_last()) + dep_diags(row, ds.last())
    }
}

pub open spec fn recheck_diag(row: ModRowDto) -> DiagView {
    dv(
        "game-recheck-"@ + row.key@,
        "update"@,
        "warn"@,
        "게임 업데이트 후 재검증 필요"@,
        row.name@ + "은(는) 게임 실행 파일보다 오래된 모드 상태입니다. 업데이트 이후 정상 실행을 한 번 확인하세요."@,
        "모드 경로 열기"@,
        row.path@,
        Some(row.key@),
        false,
    )
}

pub open spec fn review_diag(row: ModRowDto) -> DiagView {
    dv(
        "translation-review-"@ + row.key@,
        "translation"@,
        "warn"@,
        "번역 적용본 재검토 필요"@,
        row.name@ + "의 번역 적용 시점보다 게임 파일이 더 최근입니다."@,
        "번역 도구에서 확인"@,
        row.extraction_source_path@,
        Some(row.key@),
        false,
    )
}

/// The findings of one mod row: its dependencies, then whether it needs a recheck after a
/// game update, then whether its applied translation needs review.
pub open spec fn row_diags(row: ModRowDto) -> Seq<DiagView> {
    deps_diags(row, row.dependencies@) + (if row.needs_recheck { seq![recheck_diag(row)] } else {
        Seq::empty()
    }) + (if row.translation_review_required { seq![review_diag(row)] } else { Seq::empty() })
}

pub open spec fn setup_diags(issues: Seq<SetupIssueDto>) -> Seq<DiagView>
    decreases issues.len(),
{
    if issues.len() == 0 {
        Seq::empty()
    } else {
        setup_diags(issues.drop_last()).push(setup_diag(issues.last()))
    }
}

pub open spec fn all_install_diags(records: Seq<ModRecord>, nested: Seq<bool>) -> Seq<DiagView>
    decreases records.len(),
{
    if records.len() == 0 {
        Seq::empty()
    } else {
        all_install_diags(records.drop_last(), nested) + install_diags(records.last(), nested[records.len() - 1])
    }
}

pub open spec fn all_row_diags(rows: Seq<ModRowDto>) -> Seq<DiagView>
    decreases rows.len(),
{
    if rows.len() == 0 {
        Seq::empty()
    } else {
        all_row_diags(rows.drop_last()) + row_diags(rows.last())
    }
}

pub open spec fn healthy_diag() -> DiagView {
    dv(
        "healthy-ready"@,
        "setup"@,
        "good"@,
        "기본 진단 통과"@,
        "설치 경로, 실행 대상, 세이브 백업 설정에서 즉시 막히는 문제를 찾지 못했습니다."@,
        "새로고침"@,
        Seq::empty(),
        None,
        false,
    )
}

/// The findings in the order they are gathered, before sorting.
pub open spec fn gathered_spec(
    issues: Seq<SetupIssueDto>,
    mods_dir_exists: bool,
    game_dir: Seq<char>,
    game_mods: Seq<ModRecord>,
    nested: Seq<bool>,
    rows: Seq<ModRowDto>,
    logs: Seq<DiagView>,
    launch_ready: bool,
) -> Seq<DiagView> {
    let found = setup_diags(issues) + (if !mods_dir_exists { seq![missing_dir_diag(game_dir)] } else {
        Seq::empty()
    }) + all_install_diags(game_mods, nested) + all_row_diags(rows) + logs;
    if found.len() == 0 && launch_ready {
        seq![healthy_diag()]
    } else {
        found
    }
}

pub open spec fn sort_key(d: DiagView) -> Seq<char> {
    diagnostic_sort_key_spec(d.severity, d.category)
}

/// Number of leading findings whose key is not after `k`.
pub open spec fn lead_not_after(t: Seq<DiagView>, k: Seq<char>) -> nat
    decreases t.len(),
{
    if t.len() > 0 && !lex_lt(k, sort_key(t[0])) {
        1 + lead_not_after(t.skip(1), k)
    } else {
        0
    }
}

/// Findings sorted by key, those with equal keys in the order they came.
pub open spec fn stable_sorted(s: Seq<DiagView>) -> Seq<DiagView>
    decreases s.len(),
{
    if s.len() == 0 {
        Seq::empty()
    } else {
        let t = stable_sorted(s.drop_last());
        t.insert(lead_not_after(t, sort_key(s.last())) as int, s.last())
    }
}

/// Findings without those that repeat the id of the one kept just before them.
pub open spec fn dedup_ids(s: Seq<DiagView>) -> Seq<DiagView>
    decreases s.len(),
{
    if s.len() == 0 {
        Seq::empty()
    } else {
        let p = dedup_ids(s.drop_last());
        if p.len() > 0 && p.last().id == s.last().id {
            p
        } else {
            p.push(s.last())
        }
    }
}

pub open spec fn first_24(s: Seq<DiagView>) -> Seq<DiagView> {
    if s.len() <= 24 {
        s
    } else {
        s.take(24)
    }
}

pub open spec fn diagnostics_spec(
    issues: Seq<SetupIssueDto>,
    mods_dir_exists: bool,
    game_dir: Seq<char>,
    game_mods: Seq<ModRecord>,
    nested: Seq<bool>,
    rows: Seq<ModRowDto>,
    logs: Seq<DiagView>,
    launch_ready: bool,
) -> Seq<DiagView> {
    first_24(
        dedup_ids(
            stable_sorted(gathered_spec(issues, mods_dir_exists, game_dir, game_mods, nested, rows, logs, launch_ready)),
        ),
    )
}

fn push_diag(out: &mut Vec<TroubleshootDiagnosticDto>, d: TroubleshootDiagnosticDto)
    ensures
        diags_view(final(out)@) == diags_view(old(out)@).push(d@),
{
    let ghost before = out@;
    let ghost v = d@;
    out.push(d);
    assert(diags_view(out@) =~= diags_view(before).push(v));
}

fn or_dash_exec(o: &Option<String>) -> (r: String)
    ensures
        r@ == or_dash(*o),
{
    match o {
        Some(s) => s.clone(),
        None => "-".to_string(),
    }
}

fn cat3(a: &str, b: &str, c: &str) -> (r: String)
    ensures
        r@ == a@ + b@ + c@,
{
    let x = cat(a, b);
    cat(x.as_str(), c)
}

fn add_row_diags(out: &mut Vec<TroubleshootDiagnosticDto>, row: &ModRowDto)
    ensures
        diags_view(final(out)@) == diags_view(old(out)@) + row_diags(*row),
{
    let ghost start = diags_view(out@);
    let mut j: usize = 0;
    while j < row.dependencies.len()
        invariant
            j <= row.dependencies@.len(),
            diags_view(out@) == start + deps_diags(*row, row.dependencies@.take(j as int)),
        decreases row.dependencies.len() - j,
    {
        let d = &row.dependencies[j];
        let ghost b0 = diags_view(out@);
        if !d.available {
            let id = cat3("dependency-", row.key.as_str(), "-");
            let id = cat(id.as_str(), d.id.as_str());
            let detail = cat3(row.name.as_str(), " 모드는 ", d.id.as_str());
            let detail = cat(detail.as_str(), " 선행 모드가 필요합니다.");
            push_diag(
                out,
                diag(
                    id,
                    "dependency",
                    "error",
                    "선행 모드가 없습니다",
                    detail,
                    "모드 경로 열기",
                    row.path.clone(),
                    Some(row.key.clone()),
                    false,
                ),
            );
        }
        let ghost b1 = diags_view(out@);
        if d.version_matches == Some(false) {
            let id = cat3("dependency-version-", row.key.as_str(), "-");
            let id = cat(id.as_str(), d.id.as_str());
            let detail = cat3(row.name.as_str(), " 모드는 ", d.name.as_str());
            let detail = cat3(detail.as_str(), " ", or_dash_exec(&d.version_required).as_str());
            let detail = cat3(
                detail.as_str(),
                " 버전을 기준으로 만들어졌지만 현재 버전은 ",
                or_dash_exec(&d.version_current).as_str(),
            );
            let detail = cat(detail.as_str(), "입니다.");
            push_diag(
                out,
                diag(
                    id,
                    "dependency",
                    "warn",
                    "선행 모드 버전이 다릅니다",
                    detail,
                    "모드 경로 열기",
                    row.path.clone(),
                    Some(row.key.clone()),
                    false,
                ),
            );
        }
        proof {
            let t = row.dependencies@.take(j + 1);
            assert(t.drop_last() =~= row.dependencies@.take(j as int));
            assert(t.last() == row.dependencies@[j as int]);
            assert(diags_view(out@) =~= start + deps_diags(*row, t));
        }
        j += 1;
    }
    assert(row.dependencies@.take(j as int) =~= row.dependencies@);
    let ghost b2 = diags_view(out@);
    if row.needs_recheck {
        let detail = cat(
            row.name.as_str(),
            "은(는) 게임 실행 파일보다 오래된 모드 상태입니다. 업데이트 이후 정상 실행을 한 번 확인하세요.",
        );
        push_diag(
            out,
            diag(
                cat("game-recheck-", row.key.as_str()),
                "update",
                "warn",
                "게임 업데이트 후 재검증 필요",
                detail,
                "모드 경로 열기",
                row.path.clone(),
                Some(row.key.clone()),
                false,
            ),
        );
    }
    let ghost b3 = diags_view(out@);
    if row.translation_review_required {
        let detail = cat(row.name.as_str(), "의 번역 적용 시점보다 게임 파일이 더 최근입니다.");
        push_diag(
            out,
            diag(
                cat("translation-review-", row.key.as_str()),
                "translation",
                "warn",
                "번역 적용본 재검토 필요",
                detail,
                "번역 도구에서 확인",
                row.extraction_source_path.clone(),
                Some(row.key.clone()),
                false,
            ),
        );
    }
    assert(diags_view(out@) =~= start + row_diags(*row));
}

fn add_install_diags(out: &mut Vec<TroubleshootDiagnosticDto>, r: &ModRecord, nested: bool)
    ensures
        diags_view(final(out)@) == diags_view(old(out)@) + install_diags(*r, nested),
{
    let ghost start = diags_view(out@);
    if r.kind == ModKind::Archive && crate::model::is_supported_archive_path(r.path.as_str()) {
        let detail = cat(
            r.name.as_str(),
            "은(는) 게임이 바로 읽기 어려운 압축 파일입니다. 폴더로 풀고 원본 압축은 백업해야 합니다.",
        );
        push_diag(
            out,
            diag(
                cat("install-archive-", r.key.as_str()),
                "install",
                "warn",
                "압축 파일이 mods 폴더에 그대로 있습니다",
                detail,
                "설치 자동 정리",
                r.path.clone(),
                Some(r.key.clone()),
                true,
            ),
        );
    }
    if r.kind == ModKind::Directory && nested {
        let detail = cat(
            r.name.as_str(),
            " 폴더 안에 실제 모드 폴더가 한 번 더 들어 있습니다. 로더가 모드를 놓칠 수 있습니다.",
        );
        push_diag(
            out,
            diag(
                cat("install-nested-", r.key.as_str()),
                "install",
                "warn",
                "모드 폴더가 한 단계 더 중첩되어 있습니다",
                detail,
                "설치 자동 정리",
                r.path.clone(),
                Some(r.key.clone()),
                true,
            ),
        );
    }
    assert(diags_view(out@) =~= start + install_diags(*r, nested));
}

fn copy_diag(d: &TroubleshootDiagnosticDto) -> (r: TroubleshootDiagnosticDto)
    ensures
        r@ == d@,
{
    TroubleshootDiagnosticDto {
        id: d.id.clone(),
        category: d.category.clone(),
        severity: d.severity.clone(),
        title: d.title.clone(),
        detail: d.detail.clone(),
        action_label: d.action_label.clone(),
        related_path: d.related_path.clone(),
        mod_key: crate::model::copy_opt(&d.mod_key),
        can_auto_fix: d.can_auto_fix,
    }
}

fn gather(
    setup_issues: &Vec<SetupIssueDto>,
    mods_dir_exists: bool,
    game_dir: &str,
    game_mods: &Vec<ModRecord>,
    nested: &Vec<bool>,
    mods: &Vec<ModRowDto>,
    log_findings: &Vec<TroubleshootDiagnosticDto>,
    launch_ready: bool,
) -> (r: Vec<TroubleshootDiagnosticDto>)
    requires
        nested@.len() == game_mods@.len(),
    ensures
        diags_view(r@) == gathered_spec(
            setup_issues@,
            mods_dir_exists,
            game_dir@,
            game_mods@,
            nested@,
            mods@,
            diags_view(log_findings@),
            launch_ready,
        ),
{
    let mut out: Vec<TroubleshootDiagnosticDto> = Vec::new();
    let mut i: usize = 0;
    assert(diags_view(out@) =~= setup_diags(setup_issues@.take(0)));
    while i < setup_issues.len()
        invariant
            i <= setup_issues@.len(),
            diags_view(out@) == setup_diags(setup_issues@.take(i as int)),
        decreases setup_issues.len() - i,
    {
        let it = &setup_issues[i];
        let severity = if it.blocking { "error" } else { "warn" };
        let title = if it.blocking { "필수 경로 확인 필요" } else { "권장 설정 확인 필요" };
        push_diag(
            &mut out,
            diag(
                cat("setup-", it.field.as_str()),
                "setup",
                severity,
                title,
                it.message.clone(),
                "설정에서 경로 지정",
                String::new(),
                None,
                false,
            ),
        );
        proof {
            let t = setup_issues@.take(i + 1);
            assert(t.drop_last() =~= setup_issues@.take(i as int));
            assert(t.last() == setup_issues@[i as int]);
        }
        i += 1;
    }
    assert(setup_issues@.take(i as int) =~= setup_issues@);
    let ghost a = diags_view(out@);
    if !mods_dir_exists {
        push_diag(
            &mut out,
            diag(
                "setup-missing-mods-dir".to_string(),
                "setup",
                "warn",
                "mods 폴더가 아직 없습니다",
                "게임 설치는 감지했지만 활성 모드 폴더가 없어 첫 설치 전 상태로 보입니다.".to_string(),
                "게임 폴더 열기",
                game_dir.to_string(),
                None,
                false,
            ),
        );
    }
    let ghost b = diags_view(out@);
    let mut k: usize = 0;
    while k < game_mods.len()
        invariant
            k <= game_mods@.len(),
            nested@.len() == game_mods@.len(),
            diags_view(out@) == b + all_install_diags(game_mods@.take(k as int), nested@),
        decreases game_mods.len() - k,
    {
        add_install_diags(&mut out, &game_mods[k], nested[k]);
        proof {
            let t = game_mods@.take(k + 1);
            assert(t.drop_last() =~= game_mods@.take(k as int));
            assert(t.last() == game_mods@[k as int]);
            assert(diags_view(out@) =~= b + all_install_diags(t, nested@));
        }
        k += 1;
    }
    assert(game_mods@.take(k as int) =~= game_mods@);
    let ghost c = diags_view(out@);
    let mut m: usize = 0;
    while m < mods.len()
        invariant
            m <= mods@.len(),
            diags_view(out@) == c + all_row_diags(mods@.take(m as int)),
        decreases mods.len() - m,
    {
        add_row_diags(&mut out, &mods[m]);
        proof {
            let t = mods@.take(m + 1);
            assert(t.drop_last() =~= mods@.take(m as int));
            assert(t.last() == mods@[m as int]);
            assert(diags_view(out@) =~= c + all_row_diags(t));
        }
        m += 1;
    }
    assert(mods@.take(m as int) =~= mods@);
    let ghost d = diags_view(out@);
    let mut q: usize = 0;
    while q < log_findings.len()
        invariant
            q <= log_findings@.len(),
            diags_view(out@) == d + diags_view(log_findings@).take(q as int),
        decreases log_findings.len() - q,
    {
        push_diag(&mut out, copy_diag(&log_findings[q]));
        proof {
            assert(diags_view(log_findings@).take(q + 1) =~= diags_view(log_findings@).take(q as int).push(
                log_findings@[q as int]@,
            ));
        }
        q += 1;
    }
    assert(diags_view(log_findings@).take(q as int) =~= diags_view(log_findings@));
    if out.len() == 0 && launch_ready {
        push_diag(
            &mut out,
            diag(
                "healthy-ready".to_string(),
                "setup",
                "good",
                "기본 진단 통과",
                "설치 경로, 실행 대상, 세이브 백업 설정에서 즉시 막히는 문제를 찾지 못했습니다.".to_string(),
                "새로고침",
                String::new(),
                None,
                false,
            ),
        );
        assert(diags_view(out@) =~= seq![healthy_diag()]);
    }
    out
}

proof fn lemma_lead_not_after(t: Seq<DiagView>, k: Seq<char>, n: int)
    requires
        0 <= n <= t.len(),
        forall|j: int| 0 <= j < n ==> !lex_lt(k, sort_key(#[trigger] t[j])),
        n == t.len() || lex_lt(k, sort_key(t[n])),
    ensures
        lead_not_after(t, k) == n,
    decreases n,
{
    if n > 0 {
        let u = t.skip(1);
        assert forall|j: int| 0 <= j < n - 1 implies !lex_lt(k, sort_key(#[trigger] u[j])) by {
            assert(u[j] == t[j + 1]);
        }
        if n < t.len() {
            assert(u[n - 1] == t[n]);
        }
        lemma_lead_not_after(u, k, n - 1);
    }
}

fn sort_diagnostics(v: Vec<TroubleshootDiagnosticDto>) -> (r: Vec<TroubleshootDiagnosticDto>)
    ensures
        diags_view(r@) == stable_sorted(diags_view(v@)),
{
    let ghost src = diags_view(v@);
    let mut keys: Vec<Vec<char>> = Vec::new();
    let mut out: Vec<TroubleshootDiagnosticDto> = Vec::new();
    let mut i: usize = 0;
    while i < v.len()
        invariant
            i <= v@.len(),
            src == diags_view(v@),
            diags_view(out@) == stable_sorted(src.take(i as int)),
            keys@.len() == out@.len(),
            forall|j: int| 0 <= j < keys@.len() ==> (#[trigger] keys@[j])@ == sort_key(out@[j]@),
        decreases v.len() - i,
    {
        let kx = chars_of(diagnostic_sort_key(v[i].severity.as_str(), v[i].category.as_str()).as_str());
        let mut k: usize = 0;
        while k < out.len() && !lex_lt_exec(kx.as_slice(), keys[k].as_slice())
            invariant
                k <= out@.len(),
                keys@.len() == out@.len(),
                forall|j: int| 0 <= j < keys@.len() ==> (#[trigger] keys@[j])@ == sort_key(out@[j]@),
                forall|j: int| 0 <= j < k ==> !lex_lt(kx@, sort_key(#[trigger] diags_view(out@)[j])),
            decreases out.len() - k,
        {
            assert(diags_view(out@)[k as int] == out@[k as int]@);
            k += 1;
        }
        proof {
            let t = diags_view(out@);
            if k < out@.len() {
                assert(t[k as int] == out@[k as int]@);
            }
            assert(kx@ == sort_key(v@[i as int]@));
            lemma_lead_not_after(t, kx@, k as int);
        }
        let ghost before = out@;
        let ghost bk = keys@;
        let d = copy_diag(&v[i]);
        out.insert(k, d);
        keys.insert(k, kx);
        proof {
            let s2 = src.take(i + 1);
            assert(s2.drop_last() =~= src.take(i as int));
            assert(s2.last() == v@[i as int]@);
            assert(diags_view(out@) =~= diags_view(before).insert(k as int, v@[i as int]@));
            assert forall|j: int| 0 <= j < keys@.len() implies (#[trigger] keys@[j])@ == sort_key(out@[j]@) by {
                if j < k {
                    assert(keys@[j] == bk[j] && out@[j] == before[j]);
                } else if j > k {
                    assert(keys@[j] == bk[j - 1] && out@[j] == before[j - 1]);
                }
            }
        }
        i += 1;
    }
    assert(src.take(i as int) =~= src);
    out
}

fn dedup_diagnostics(v: Vec<TroubleshootDiagnosticDto>) -> (r: Vec<TroubleshootDiagnosticDto>)
    ensures
        diags_view(r@) == dedup_ids(diags_view(v@)),
{
    let ghost src = diags_view(v@);
    let mut out: Vec<TroubleshootDiagnosticDto> = Vec::new();
    let mut i: usize = 0;
    while i < v.len()
        invariant
            i <= v@.len(),
            src == diags_view(v@),
            diags_view(out@) == dedup_ids(src.take(i as int)),
        decreases v.len() - i,
    {
        let ghost before = out@;
        let repeat = out.len() > 0 && seq_eq(
            chars_of(out[out.len() - 1].id.as_str()).as_slice(),
            chars_of(v[i].id.as_str()).as_slice(),
        );
        if !repeat {
            push_diag(&mut out, copy_diag(&v[i]));
        }
        proof {
            let s2 = src.take(i + 1);
            assert(s2.drop_last() =~= src.take(i as int));
            assert(s2.last() == v@[i as int]@);
            if before.len() > 0 {
                assert(diags_view(before).last() == before[before.len() - 1]@);
            }
        }
        i += 1;
    }
    assert(src.take(i as int) =~= src);
    out
}

/// The troubleshooting list. `nested` tells, mod by mod of the game folder, whether it is
/// a folder with the mod one level down that Vortex did not lay out so; `log_findings` are
/// the findings read from the game log. The findings are sorted by severity and category,
/// keeping their order within each; a finding with the id of the one kept before it is
/// dropped; at most 24 are kept. Where nothing was found and the game can be launched,
/// the list holds one all-clear.
pub fn troubleshoot_diagnostics(
    setup_issues: &Vec<SetupIssueDto>,
    mods_dir_exists: bool,
    game_dir: &str,
    game_mods: &Vec<ModRecord>,
    nested: &Vec<bool>,
    mods: &Vec<ModRowDto>,
    log_findings: &Vec<TroubleshootDiagnosticDto>,
    launch_ready: bool,
) -> (r: Vec<TroubleshootDiagnosticDto>)
    requires
        nested@.len() == game_mods@.len(),
    ensures
        diags_view(r@) == diagnostics_spec(
            setup_issues@,
            mods_dir_exists,
            game_dir@,
            game_mods@,
            nested@,
            mods@,
            diags_view(log_findings@),
            launch_ready,
        ),
        r@.len() <= 24,
{
    let all = gather(setup_issues, mods_dir_exists, game_dir, game_mods, nested, mods, log_findings, launch_ready);
    let sorted = sort_diagnostics(all);
    let mut kept = dedup_diagnostics(sorted);
    if kept.len() > 24 {
        kept.truncate(24);
    }
    proof {
        let d = dedup_ids(stable_sorted(diags_view(all@)));
        if d.len() > 24 {
            assert(diags_view(kept@) =~= d.take(24));
        }
    }
    kept
}


/// Next to each other, no two findings of the list share an id.
pub proof fn lemma_dedup_no_repeats(s: Seq<DiagView>)
    ensures
        forall|i: int| 0 <= i < dedup_ids(s).len() - 1 ==> (#[trigger] dedup_ids(s)[i]).id != dedup_ids(s)[i + 1].id,
        dedup_ids(s).len() <= s.len(),
    decreases s.len(),
{
    if s.len() > 0 {
        lemma_dedup_no_repeats(s.drop_last());
        let p = dedup_ids(s.drop_last());
        let d = dedup_ids(s);
        assert forall|i: int| 0 <= i < d.len() - 1 implies (#[trigger] d[i]).id != d[i + 1].id by {
            if i + 1 < p.len() {
                assert(d[i] == p[i] && d[i + 1] == p[i + 1]);
            } else {
                assert(d[i] == p[i]);
                assert(p.last() == p[i]);
            }
        }
    }
}

proof fn lemma_lead_facts(t: Seq<DiagView>, k: Seq<char>)
    ensures
        lead_not_after(t, k) <= t.len(),
        forall|j: int| 0 <= j < lead_not_after(t, k) ==> !lex_lt(k, sort_key(#[trigger] t[j])),
        lead_not_after(t, k) < t.len() ==> lex_lt(k, sort_key(t[lead_not_after(t, k) as int])),
    decreases t.len(),
{
    if t.len() > 0 && !lex_lt(k, sort_key(t[0])) {
        let u = t.skip(1);
        lemma_lead_facts(u, k);
        assert forall|j: int| 0 <= j < lead_not_after(t, k) implies !lex_lt(k, sort_key(#[trigger] t[j])) by {
            if j > 0 {
                assert(t[j] == u[j - 1]);
            }
        }
        if lead_not_after(t, k) < t.len() {
            assert(t[lead_not_after(t, k) as int] == u[lead_not_after(u, k) as int]);
        }
    }
}

pub open spec fn key_sorted(t: Seq<DiagView>) -> bool {
    forall|i: int, j: int| 0 <= i < j < t.len() ==> !lex_lt(sort_key(t[j]), sort_key(t[i]))
}

/// The findings come errors first, then warnings, others, and good news last, by
/// category within each.
pub proof fn lemma_stable_sorted_ordered(s: Seq<DiagView>)
    ensures
        key_sorted(stable_sorted(s)),
        stable_sorted(s).len() == s.len(),
    decreases s.len(),
{
    if s.len() > 0 {
        let t = stable_sorted(s.drop_last());
        lemma_stable_sorted_ordered(s.drop_last());
        let e = s.last();
        let k = lead_not_after(t, sort_key(e));
        lemma_lead_facts(t, sort_key(e));
        let r = t.insert(k as int, e);
        assert forall|i: int, j: int| 0 <= i < j < r.len() implies !lex_lt(sort_key(r[j]), sort_key(r[i])) by {
            if j < k {
                assert(r[i] == t[i] && r[j] == t[j]);
            } else if j == k {
                assert(r[j] == e && r[i] == t[i]);
                lemma_lex_asymmetric(sort_key(e), sort_key(t[i]));
                lemma_lex_total(sort_key(e), sort_key(t[i]));
            } else if i < k {
                assert(r[i] == t[i] && r[j] == t[j - 1]);
            } else if i == k {
                assert(r[i] == e && r[j] == t[j - 1]);
                assert(lex_lt(sort_key(e), sort_key(t[k as int])));
                if j - 1 > k {
                    assert(!lex_lt(sort_key(t[j - 1]), sort_key(t[k as int])));
                    lemma_lex_total(sort_key(t[j - 1]), sort_key(t[k as int]));
                    if lex_lt(sort_key(t[j - 1]), sort_key(e)) {
                        if sort_key(t[j - 1]) == sort_key(t[k as int]) {
                            lemma_lex_asymmetric(sort_key(e), sort_key(t[k as int]));
                        } else {
                            lemma_lex_transitive(sort_key(t[k as int]), sort_key(t[j - 1]), sort_key(e));
                            lemma_lex_asymmetric(sort_key(e), sort_key(t[k as int]));
                        }
                    }
                } else {
                    lemma_lex_asymmetric(sort_key(e), sort_key(t[k as int]));
                }
            } else {
                assert(r[i] == t[i - 1] && r[j] == t[j - 1]);
            }
        }
    }
}


/// No finding of `s` carries the all-clear's id.
pub open spec fn none_all_clear(s: Seq<DiagView>) -> bool {
    forall|i: int| 0 <= i < s.len() ==> (#[trigger] s[i]).id != healthy_diag().id
}

proof fn lemma_prefixed_id(p: Seq<char>, x: Seq<char>)
    requires
        p.len() > 0,
        p[0] != 'h',
    ensures
        p + x != healthy_diag().id,
{
    reveal_strlit("healthy-ready");
    assert((p + x)[0] == p[0]);
}

proof fn lemma_setup_ids(issues: Seq<SetupIssueDto>)
    ensures
        none_all_clear(setup_diags(issues)),
    decreases issues.len(),
{
    if issues.len() > 0 {
        lemma_setup_ids(issues.drop_last());
        reveal_strlit("setup-");
        lemma_prefixed_id("setup-"@, issues.last().field@);
        let s = setup_diags(issues);
        assert forall|i: int| 0 <= i < s.len() implies (#[trigger] s[i]).id != healthy_diag().id by {
            if i < s.len() - 1 {
                assert(s[i] == setup_diags(issues.drop_last())[i]);
            }
        }
    }
}

proof fn lemma_concat_ids(a: Seq<DiagView>, b: Seq<DiagView>)
    requires
        none_all_clear(a),
        none_all_clear(b),
    ensures
        none_all_clear(a + b),
{
    assert forall|i: int| 0 <= i < (a + b).len() implies (#[trigger] (a + b)[i]).id != healthy_diag().id by {
        if i < a.len() {
            assert((a + b)[i] == a[i]);
        } else {
            assert((a + b)[i] == b[i - a.len()]);
        }
    }
}

proof fn lemma_install_ids(records: Seq<ModRecord>, nested: Seq<bool>)
    ensures
        none_all_clear(all_install_diags(records, nested)),
    decreases records.len(),
{
    if records.len() > 0 {
        lemma_install_ids(records.drop_last(), nested);
        let r = records.last();
        reveal_strlit("install-archive-");
        reveal_strlit("install-nested-");
        lemma_prefixed_id("install-archive-"@, r.key@);
        lemma_prefixed_id("install-nested-"@, r.key@);
        let a: Seq<DiagView> = if is_archive_record(r) { seq![archive_diag(r)] } else { Seq::empty() };
        let b: Seq<DiagView> = if r.kind == ModKind::Directory && nested[records.len() - 1] {
            seq![nested_diag(r)]
        } else {
            Seq::empty()
        };
        lemma_concat_ids(a, b);
        lemma_concat_ids(all_install_diags(records.drop_last(), nested), install_diags(r, nested[records.len() - 1]));
    }
}

proof fn lemma_deps_ids(row: ModRowDto, ds: Seq<ModDependencyDto>)
    ensures
        none_all_clear(deps_diags(row, ds)),
    decreases ds.len(),
{
    if ds.len() > 0 {
        lemma_deps_ids(row, ds.drop_last());
        let d = ds.last();
        reveal_strlit("dependency-");
        reveal_strlit("dependency-version-");
        let p1 = "dependency-"@ + row.key@;
        let p2 = "dependency-version-"@ + row.key@;
        assert(p1[0] == 'd');
        assert(p2[0] == 'd');
        let q1 = p1 + "-"@;
        let q2 = p2 + "-"@;
        assert(q1[0] == 'd');
        assert(q2[0] == 'd');
        lemma_prefixed_id(q1, d.id@);
        lemma_prefixed_id(q2, d.id@);
        let a: Seq<DiagView> = if !d.available { seq![missing_dep_diag(row, d)] } else { Seq::empty() };
        let b: Seq<DiagView> = if d.version_matches == Some(false) { seq![version_dep_diag(row, d)] } else { Seq::empty() };
        lemma_concat_ids(a, b);
        lemma_concat_ids(deps_diags(row, ds.drop_last()), dep_diags(row, d));
    }
}

proof fn lemma_rows_ids(rows: Seq<ModRowDto>)
    ensures
        none_all_clear(all_row_diags(rows)),
    decreases rows.len(),
{
    if rows.len() > 0 {
        lemma_rows_ids(rows.drop_last());
        let row = rows.last();
        lemma_deps_ids(row, row.dependencies@);
        reveal_strlit("game-recheck-");
        reveal_strlit("translation-review-");
        lemma_prefixed_id("game-recheck-"@, row.key@);
        lemma_prefixed_id("translation-review-"@, row.key@);
        let a: Seq<DiagView> = if row.needs_recheck { seq![recheck_diag(row)] } else { Seq::empty() };
        let b: Seq<DiagView> = if row.translation_review_required { seq![review_diag(row)] } else { Seq::empty() };
        lemma_concat_ids(deps_diags(row, row.dependencies@), a);
        lemma_concat_ids(deps_diags(row, row.dependencies@) + a, b);
        lemma_concat_ids(all_row_diags(rows.drop_last()), row_diags(row));
    }
}

proof fn lemma_sorted_from(s: Seq<DiagView>)
    ensures
        forall|i: int| 0 <= i < stable_sorted(s).len() ==> s.contains(#[trigger] stable_sorted(s)[i]),
    decreases s.len(),
{
    if s.len() > 0 {
        lemma_sorted_from(s.drop_last());
        lemma_stable_sorted_ordered(s.drop_last());
        let t = stable_sorted(s.drop_last());
        let k = lead_not_after(t, sort_key(s.last()));
        lemma_lead_facts(t, sort_key(s.last()));
        let r = stable_sorted(s);
        assert forall|i: int| 0 <= i < r.len() implies s.contains(#[trigger] r[i]) by {
            if i < k {
                assert(r[i] == t[i]);
                let j = choose|j: int| 0 <= j < s.drop_last().len() && s.drop_last()[j] == t[i];
                assert(s[j] == t[i]);
            } else if i == k {
                assert(r[i] == s[s.len() - 1]);
            } else {
                assert(r[i] == t[i - 1]);
                let j = choose|j: int| 0 <= j < s.drop_last().len() && s.drop_last()[j] == t[i - 1];
                assert(s[j] == t[i - 1]);
            }
        }
    }
}

proof fn lemma_dedup_from(s: Seq<DiagView>)
    ensures
        forall|i: int| 0 <= i < dedup_ids(s).len() ==> exists|j: int| 0 <= j < s.len() && #[trigger] dedup_ids(s)[i] == s[j],
    decreases s.len(),
{
    if s.len() > 0 {
        lemma_dedup_from(s.drop_last());
        let p = dedup_ids(s.drop_last());
        let d = dedup_ids(s);
        assert forall|i: int| 0 <= i < d.len() implies exists|j: int| 0 <= j < s.len() && #[trigger] d[i] == s[j] by {
            if i < p.len() {
                assert(d[i] == p[i]);
                let j = choose|j: int| 0 <= j < s.drop_last().len() && p[i] == s.drop_last()[j];
                assert(d[i] == s[j]);
            } else {
                assert(d[i] == s[s.len() - 1]);
            }
        }
    }
}

proof fn lemma_dedup_sorted(s: Seq<DiagView>)
    requires
        key_sorted(s),
    ensures
        key_sorted(dedup_ids(s)),
    decreases s.len(),
{
    if s.len() > 0 {
        let p = dedup_ids(s.drop_last());
        assert(key_sorted(s.drop_last()));
        lemma_dedup_sorted(s.drop_last());
        lemma_dedup_from(s.drop_last());
        let d = dedup_ids(s);
        assert forall|i: int, j: int| 0 <= i < j < d.len() implies !lex_lt(sort_key(d[j]), sort_key(d[i])) by {
            if j < p.len() {
                assert(d[i] == p[i] && d[j] == p[j]);
            } else {
                assert(d[j] == s[s.len() - 1]);
                assert(d[i] == p[i]);
                let k = choose|k: int| 0 <= k < s.drop_last().len() && #[trigger] p[i] == s.drop_last()[k];
                assert(s[k] == p[i]);
            }
        }
    }
}

proof fn lemma_setup_diags_index(issues: Seq<SetupIssueDto>, k: int)
    requires
        0 <= k < issues.len(),
    ensures
        setup_diags(issues).len() == issues.len(),
        setup_diags(issues)[k] == setup_diag(issues[k]),
    decreases issues.len(),
{
    lemma_setup_len(issues);
    if k < issues.len() - 1 {
        lemma_setup_diags_index(issues.drop_last(), k);
    }
}

proof fn lemma_setup_len(issues: Seq<SetupIssueDto>)
    ensures
        setup_diags(issues).len() == issues.len(),
    decreases issues.len(),
{
    if issues.len() > 0 {
        lemma_setup_len(issues.drop_last());
    }
}

proof fn lemma_sorted_keeps(s: Seq<DiagView>)
    ensures
        forall|i: int| 0 <= i < s.len() ==> stable_sorted(s).contains(#[trigger] s[i]),
    decreases s.len(),
{
    if s.len() > 0 {
        lemma_sorted_keeps(s.drop_last());
        let t = stable_sorted(s.drop_last());
        let k = lead_not_after(t, sort_key(s.last()));
        lemma_lead_facts(t, sort_key(s.last()));
        let r = stable_sorted(s);
        assert forall|i: int| 0 <= i < s.len() implies r.contains(#[trigger] s[i]) by {
            if i == s.len() - 1 {
                assert(r[k as int] == s[i]);
            } else {
                assert(s.drop_last()[i] == s[i]);
                let j = choose|j: int| 0 <= j < t.len() && t[j] == s[i];
                if j < k {
                    assert(r[j] == t[j]);
                } else {
                    assert(r[j + 1] == t[j]);
                }
            }
        }
    }
}

proof fn lemma_dedup_first(s: Seq<DiagView>)
    requires
        s.len() > 0,
    ensures
        dedup_ids(s).len() > 0,
        dedup_ids(s)[0] == s[0],
    decreases s.len(),
{
    if s.len() > 1 {
        lemma_dedup_first(s.drop_last());
        let p = dedup_ids(s.drop_last());
        assert(s.drop_last()[0] == s[0]);
        if !(p.len() > 0 && p.last().id == s.last().id) {
            assert(p.push(s.last())[0] == p[0]);
        }
    } else {
        assert(s.drop_last().len() == 0);
        assert(dedup_ids(s.drop_last()).len() == 0);
        assert(dedup_ids(s) == Seq::<DiagView>::empty().push(s.last()));
    }
}

/// Where a setup issue blocks, the troubleshooting list starts with an error.
pub proof fn lemma_blocking_issue_first(
    issues: Seq<SetupIssueDto>,
    mods_dir_exists: bool,
    game_dir: Seq<char>,
    game_mods: Seq<ModRecord>,
    nested: Seq<bool>,
    rows: Seq<ModRowDto>,
    logs: Seq<DiagView>,
    launch_ready: bool,
)
    ensures
        (exists|k: int| 0 <= k < issues.len() && (#[trigger] issues[k]).blocking) ==> ({
            let r = diagnostics_spec(issues, mods_dir_exists, game_dir, game_mods, nested, rows, logs, launch_ready);
            r.len() > 0 && r[0].severity == "error"@
        }),
{
    if exists|k: int| 0 <= k < issues.len() && (#[trigger] issues[k]).blocking {
        let k = choose|k: int| 0 <= k < issues.len() && (#[trigger] issues[k]).blocking;
        lemma_setup_diags_index(issues, k);
        let e = setup_diag(issues[k]);
        let md: Seq<DiagView> = if !mods_dir_exists { seq![missing_dir_diag(game_dir)] } else { Seq::empty() };
        let found = setup_diags(issues) + md + all_install_diags(game_mods, nested) + all_row_diags(rows) + logs;
        assert(found[k] == e);
        let g = gathered_spec(issues, mods_dir_exists, game_dir, game_mods, nested, rows, logs, launch_ready);
        assert(g == found);
        let st = stable_sorted(g);
        lemma_sorted_keeps(g);
        lemma_stable_sorted_ordered(g);
        assert(st.contains(e));
        let j = choose|j: int| 0 <= j < st.len() && st[j] == e;
        let a = st[0];
        if a.severity != "error"@ {
            assert(e.severity == "error"@);
            assert(sort_key(e)[0] == '0');
            assert(sort_key(a)[0] == severity_rank(a.severity));
            assert(severity_rank(a.severity) != '0');
            assert(lex_lt(sort_key(e), sort_key(a)));
            if j > 0 {
                assert(!lex_lt(sort_key(st[j]), sort_key(st[0])));
            } else {
                lemma_lex_irreflexive(sort_key(e));
            }
            assert(false);
        }
        lemma_dedup_first(st);
        let dd = dedup_ids(st);
        let r = diagnostics_spec(issues, mods_dir_exists, game_dir, game_mods, nested, rows, logs, launch_ready);
        assert(r[0] == dd[0]);
    }
}

/// What the troubleshooting list keeps: its findings come most severe first, by category
/// within each severity; no finding has the id of the one right before it; it holds at
/// most 24; the all-clear stands alone, only where nothing was found and the game can be
/// launched; and where a setup issue blocks, the first finding is an error. (Log findings
/// are taken not to use the all-clear's own id.)
pub proof fn lemma_troubleshoot_list(
    issues: Seq<SetupIssueDto>,
    mods_dir_exists: bool,
    game_dir: Seq<char>,
    game_mods: Seq<ModRecord>,
    nested: Seq<bool>,
    rows: Seq<ModRowDto>,
    logs: Seq<DiagView>,
    launch_ready: bool,
)
    requires
        none_all_clear(logs),
    ensures
        ({
            let r = diagnostics_spec(issues, mods_dir_exists, game_dir, game_mods, nested, rows, logs, launch_ready);
            &&& key_sorted(r)
            &&& forall|i: int| 0 <= i < r.len() - 1 ==> (#[trigger] r[i]).id != r[i + 1].id
            &&& r.len() <= 24
            &&& (exists|i: int| 0 <= i < r.len() && (#[trigger] r[i]).id == healthy_diag().id) ==> (r == seq![healthy_diag()]
                && launch_ready)
            &&& (exists|k: int| 0 <= k < issues.len() && (#[trigger] issues[k]).blocking) ==> (r.len() > 0
                && r[0].severity == "error"@)
        }),
{
    let g = gathered_spec(issues, mods_dir_exists, game_dir, game_mods, nested, rows, logs, launch_ready);
    let st = stable_sorted(g);
    let dd = dedup_ids(st);
    let r = diagnostics_spec(issues, mods_dir_exists, game_dir, game_mods, nested, rows, logs, launch_ready);
    lemma_blocking_issue_first(issues, mods_dir_exists, game_dir, game_mods, nested, rows, logs, launch_ready);
    lemma_stable_sorted_ordered(g);
    lemma_dedup_sorted(st);
    lemma_dedup_no_repeats(st);
    assert(key_sorted(r)) by {
        if dd.len() > 24 {
            assert forall|i: int, j: int| 0 <= i < j < r.len() implies !lex_lt(sort_key(r[j]), sort_key(r[i])) by {
                assert(r[i] == dd[i] && r[j] == dd[j]);
            }
        }
    }
    assert forall|i: int| 0 <= i < r.len() - 1 implies (#[trigger] r[i]).id != r[i + 1].id by {
        assert(r[i] == dd[i] && r[i + 1] == dd[i + 1]);
    }
    if exists|i: int| 0 <= i < r.len() && (#[trigger] r[i]).id == healthy_diag().id {
        let i = choose|i: int| 0 <= i < r.len() && (#[trigger] r[i]).id == healthy_diag().id;
        let found = setup_diags(issues) + (if !mods_dir_exists { seq![missing_dir_diag(game_dir)] } else {
            Seq::empty()
        }) + all_install_diags(game_mods, nested) + all_row_diags(rows) + logs;
        let md: Seq<DiagView> = if !mods_dir_exists { seq![missing_dir_diag(game_dir)] } else { Seq::empty() };
        lemma_setup_ids(issues);
        reveal_strlit("setup-missing-mods-dir");
        lemma_prefixed_id("setup-missing-mods-dir"@, Seq::empty());
        assert("setup-missing-mods-dir"@ + Seq::<char>::empty() =~= "setup-missing-mods-dir"@);
        lemma_install_ids(game_mods, nested);
        lemma_rows_ids(rows);
        lemma_concat_ids(setup_diags(issues), md);
        lemma_concat_ids(setup_diags(issues) + md, all_install_diags(game_mods, nested));
        lemma_concat_ids(setup_diags(issues) + md + all_install_diags(game_mods, nested), all_row_diags(rows));
        lemma_concat_ids(setup_diags(issues) + md + all_install_diags(game_mods, nested) + all_row_diags(rows), logs);
        lemma_sorted_from(g);
        lemma_dedup_from(st);
        assert(r[i] == dd[i]);
        let j = choose|j: int| 0 <= j < st.len() && #[trigger] dd[i] == st[j];
        assert(g.contains(st[j]));
        if !(found.len() == 0 && launch_ready) {
            assert(g == found);
            let k = choose|k: int| 0 <= k < g.len() && g[k] == st[j];
            assert(found[k].id != healthy_diag().id);
            assert(false);
        }
        assert(g == seq![healthy_diag()]);
        assert(g.drop_last() =~= Seq::<DiagView>::empty());
        assert(st =~= seq![healthy_diag()]);
        assert(dd.len() == 1) by {
            assert(st.drop_last() =~= Seq::<DiagView>::empty());
        }
        assert(dd =~= seq![healthy_diag()]);
        assert(r =~= seq![healthy_diag()]);
    }
}

/// The lines read newest first, at most 180 of them.
pub open spec fn recent_lines(lines: Seq<String>) -> Seq<Seq<char>> {
    let n = if lines.len() < 180 { lines.len() } else { 180 };
    Seq::new(n, |i: int| lines[lines.len() - 1 - i]@)
}

pub open spec fn mentions(line: Seq<char>, row: ModRowDto) -> bool {
    contains_seq(lower_seq(line), lower_seq(row.key@)) || contains_seq(lower_seq(line), lower_seq(row.name@))
}

/// The key of the first mod row that a log line mentions by key or name, ignoring ASCII case.
pub open spec fn mentioned_key(line: Seq<char>, rows: Seq<ModRowDto>) -> Option<Seq<char>> {
    if exists|i: int| 0 <= i < rows.len() && mentions(line, #[trigger] rows[i]) {
        let i = choose|i: int|
            0 <= i < rows.len() && mentions(line, rows[i]) && forall|j: int| 0 <= j < i ==> !mentions(line, #[trigger] rows[j]);
        Some(rows[i].key@)
    } else {
        None
    }
}

/// The finding of one log line, where it has one. A line about the run in progress counts
/// only where a run in progress was found, and then names its first file.
pub open spec fn log_finding(
    line: Seq<char>,
    run_paths: Seq<String>,
    rows: Seq<ModRowDto>,
    log_path: Seq<char>,
) -> Option<DiagView> {
    match classify_spec(line) {
        None => None,
        Some((category, title, detail)) => {
            let save_fix = category == "current-run"@;
            if save_fix && run_paths.len() == 0 {
                None
            } else {
                Some(
                    dv(
                        "log-"@ + category + seq!['-'] + hex_spec(fnv_spec(vstd::utf8::encode_utf8(line)) as nat, 16),
                        if save_fix { "safety"@ } else { "log"@ },
                        "error"@,
                        title,
                        if save_fix { "남은 진행 런: "@ + run_paths[0]@ } else { detail },
                        if save_fix { "current_run 정리"@ } else { "로그 위치 열기"@ },
                        log_path,
                        mentioned_key(line, rows),
                        save_fix,
                    ),
                )
            }
        },
    }
}

pub open spec fn log_findings_upto(
    lines: Seq<Seq<char>>,
    run_paths: Seq<String>,
    rows: Seq<ModRowDto>,
    log_path: Seq<char>,
) -> Seq<DiagView>
    decreases lines.len(),
{
    if lines.len() == 0 {
        Seq::empty()
    } else {
        let prev = log_findings_upto(lines.drop_last(), run_paths, rows, log_path);
        match log_finding(lines.last(), run_paths, rows, log_path) {
            Some(d) => prev.push(d),
            None => prev,
        }
    }
}

fn mentioned_key_exec(line: &str, rows: &Vec<ModRowDto>) -> (r: Option<String>)
    ensures
        opt_view(r) == mentioned_key(line@, rows@),
{
    let l = ascii_lower(chars_of(line).as_slice());
    let mut i: usize = 0;
    while i < rows.len()
        invariant
            i <= rows@.len(),
            l@ == lower_seq(line@),
            forall|j: int| 0 <= j < i ==> !mentions(line@, #[trigger] rows@[j]),
        decreases rows.len() - i,
    {
        let k = ascii_lower(chars_of(rows[i].key.as_str()).as_slice());
        let n = ascii_lower(chars_of(rows[i].name.as_str()).as_slice());
        if contains(l.as_slice(), k.as_slice()) || contains(l.as_slice(), n.as_slice()) {
            proof {
                assert(mentions(line@, rows@[i as int]));
                let c = choose|c: int|
                    0 <= c < rows@.len() && mentions(line@, rows@[c]) && forall|j: int| 0 <= j < c ==> !mentions(line@, #[trigger] rows@[j]);
                if c < i {
                    assert(!mentions(line@, rows@[c]));
                } else if c > i {
                    assert(!mentions(line@, rows@[i as int]));
                }
            }
            return Some(rows[i].key.clone());
        }
        i += 1;
    }
    None
}

fn log_finding_exec(line: &str, run_paths: &Vec<String>, mods: &Vec<ModRowDto>, log_path: &str) -> (r: Option<
    TroubleshootDiagnosticDto,
>)
    ensures
        match r {
            Some(d) => log_finding(line@, run_paths@, mods@, log_path@) == Some(d@),
            None => log_finding(line@, run_paths@, mods@, log_path@) is None,
        },
{
    match classify_game_log_line(line) {
        Some((category, title, detail)) => {
            let save_fix = crate::language::is_text(chars_of(category).as_slice(), "current-run");
            if save_fix && run_paths.len() == 0 {
                return None;
            }
            let detail = if save_fix {
                cat("남은 진행 런: ", run_paths[0].as_str())
            } else {
                detail
            };
            let mut id = chars_of("log-");
            push_all(&mut id, chars_of(category).as_slice());
            id.push('-');
            push_all(&mut id, hex_digits(stable_hash(line), 16).as_slice());
            let id = string_from(id.as_slice());
            assert(id@ =~= "log-"@ + category@ + seq!['-'] + hex_spec(fnv_spec(vstd::utf8::encode_utf8(line@)) as nat, 16));
            Some(
                diag(
                    id,
                    if save_fix { "safety" } else { "log" },
                    "error",
                    title.as_str(),
                    detail,
                    if save_fix { "current_run 정리" } else { "로그 위치 열기" },
                    log_path.to_string(),
                    mentioned_key_exec(line, mods),
                    save_fix,
                ),
            )
        },
        None => None,
    }
}

/// The findings of the game log's last lines, newest first, at most six. `run_paths` are
/// the files of a run in progress, `log_path` the log that the lines come from.
pub fn log_diagnostics(
    lines: &Vec<String>,
    run_paths: &Vec<String>,
    mods: &Vec<ModRowDto>,
    log_path: &str,
) -> (r: Vec<TroubleshootDiagnosticDto>)
    ensures
        diags_view(r@) == first_6(log_findings_upto(recent_lines(lines@), run_paths@, mods@, log_path@)),
{
    let ghost rl = recent_lines(lines@);
    let n: usize = if lines.len() < 180 { lines.len() } else { 180 };
    let mut out: Vec<TroubleshootDiagnosticDto> = Vec::new();
    let mut i: usize = 0;
    while i < n
        invariant
            i <= n,
            n == rl.len(),
            n <= lines@.len(),
            rl == recent_lines(lines@),
            diags_view(out@) == log_findings_upto(rl.take(i as int), run_paths@, mods@, log_path@),
        decreases n - i,
    {
        let line = lines[lines.len() - 1 - i].as_str();
        proof {
            let t = rl.take(i + 1);
            assert(t.drop_last() =~= rl.take(i as int));
            assert(t.last() == line@);
        }
        match log_finding_exec(line, run_paths, mods, log_path) {
            Some(d) => push_diag(&mut out, d),
            None => {},
        }
        i += 1;
    }
    assert(rl.take(i as int) =~= rl);
    if out.len() > 6 {
        let ghost full = diags_view(out@);
        out.truncate(6);
        assert(diags_view(out@) =~= full.take(6));
    }
    out
}

pub open spec fn first_6(s: Seq<DiagView>) -> Seq<DiagView> {
    if s.len() <= 6 {
        s
    } else {
        s.take(6)
    }
}

/// Law of the troubleshooting findings: every mod row whose applied translation needs review
/// gives a `warn` finding of category `translation`, titled as needing a review of the
/// applied translation, with the id `translation-review-` and its key and naming the mod,
/// among the findings gathered and still among them once sorted.
pub proof fn lemma_review_rows_reported(
    issues: Seq<SetupIssueDto>,
    mods_dir_exists: bool,
    game_dir: Seq<char>,
    game_mods: Seq<ModRecord>,
    nested: Seq<bool>,
    rows: Seq<ModRowDto>,
    logs: Seq<DiagView>,
    launch_ready: bool,
    k: int,
)
    requires
        0 <= k < rows.len(),
        rows[k].translation_review_required,
    ensures
        ({
            let g = gathered_spec(issues, mods_dir_exists, game_dir, game_mods, nested, rows, logs, launch_ready);
            exists|d: DiagView|
                #![trigger g.contains(d)]
                g.contains(d) && stable_sorted(g).contains(d) && d.id == "translation-review-"@ + rows[k].key@
                    && d.category == "translation"@ && d.severity == "warn"@ && d.title == "번역 적용본 재검토 필요"@
                    && d.mod_key == Some(rows[k].key@)
        }),
{
    reveal_strlit("translation");
    reveal_strlit("warn");
    lemma_review_in_rows(rows, k);
    let d = review_diag(rows[k]);
    let md: Seq<DiagView> = if !mods_dir_exists { seq![missing_dir_diag(game_dir)] } else { Seq::empty() };
    let a = setup_diags(issues) + md + all_install_diags(game_mods, nested);
    let ar = all_row_diags(rows);
    let found = a + ar + logs;
    let j = choose|j: int| 0 <= j < ar.len() && ar[j] == d;
    assert(found[(a.len() + j) as int] == d);
    assert(found.len() > 0);
    let g = gathered_spec(issues, mods_dir_exists, game_dir, game_mods, nested, rows, logs, launch_ready);
    assert(g == found);
    assert(g.contains(d));
    lemma_sorted_keeps(g);
    assert(stable_sorted(g).contains(g[(a.len() + j) as int]));
}

proof fn lemma_review_in_rows(rows: Seq<ModRowDto>, k: int)
    requires
        0 <= k < rows.len(),
        rows[k].translation_review_required,
    ensures
        all_row_diags(rows).contains(review_diag(rows[k])),
        review_diag(rows[k]).id == "translation-review-"@ + rows[k].key@,
        review_diag(rows[k]).category == "translation"@,
        review_diag(rows[k]).severity == "warn"@,
    decreases rows.len(),
{
    let init = rows.drop_last();
    let rd = row_diags(rows.last());
    if k == rows.len() - 1 {
        let a = deps_diags(rows.last(), rows.last().dependencies@) + (if rows.last().needs_recheck {
            seq![recheck_diag(rows.last())]
        } else {
            Seq::empty()
        });
        assert(rd == a + seq![review_diag(rows.last())]);
        assert(rd[a.len() as int] == review_diag(rows[k]));
        assert((all_row_diags(init) + rd)[(all_row_diags(init).len() + a.len()) as int] == review_diag(rows[k]));
    } else {
        assert(init[k] == rows[k]);
        lemma_review_in_rows(init, k);
        let p = all_row_diags(init);
        let j = choose|j: int| 0 <= j < p.len() && p[j] == review_diag(rows[k]);
        assert((p + rd)[j] == p[j]);
    }
}

} // verus!
