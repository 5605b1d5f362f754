//! Reading the game's log: which lines point at a problem, and where the log may lie.
use vstd::prelude::*;
use crate::text::{ascii_lower, chars_of, contains, contains_seq, lower_seq, trim, trim_seq, string_from};
use crate::paths::{components, rooted, join_name_spec, join_name_str};

verus! {

broadcast use vstd::string::group_string_axioms;

/// Whether `text` holds one of the keywords.
pub fn any_keyword(text: &str, keywords: &[&str]) -> (r: bool)
    ensures
        r == exists|i: int| 0 <= i < keywords@.len() && contains_seq(text@, (#[trigger] keywords@[i])@),
{
    let t = chars_of(text);
    let mut i: usize = 0;
    while i < keywords.len()
        invariant
            i <= keywords@.len(),
            t@ == text@,
            forall|j: int| 0 <= j < i ==> !contains_seq(text@, (#[trigger] keywords@[j])@),
        decreases keywords.len() - i,
    {
        let k = chars_of(keywords[i]);
        if contains(t.as_slice(), k.as_slice()) {
            return true;
        }
        i += 1;
    }
    false
}

pub open spec fn has(l: Seq<char>, k: &str) -> bool {
    contains_seq(l, k@)
}

/// The category, title and detail that a log line is reported under, if any.
pub open spec fn classify_spec(line: Seq<char>) -> Option<(Seq<char>, Seq<char>, Seq<char>)> {
    let l = lower_seq(line);
    let detail = trim_seq(line);
    if has(l, "modelnotfoundexception") || (has(l, "model id=") && has(l, " not found")) {
        Some(("current-run"@, "진행 중 런이 현재 모드 구성과 충돌할 수 있습니다"@, detail))
    } else if has(l, "pck") && (has(l, "error") || has(l, "failed") || has(l, "invalid") || has(
        l,
        "corrupt",
    )) {
        Some(("pck"@, "PCK 로딩 오류가 감지되었습니다"@, detail))
    } else if has(l, "missing dependency") || has(l, "dependency missing") || has(
        l,
        "could not find dependency",
    ) || has(l, "requires") {
        Some(("dependency"@, "누락된 선행 모드 로그가 있습니다"@, detail))
    } else if has(l, "access is denied") || has(l, "being used by another process") || has(
        l,
        "sharing violation",
    ) || has(l, "permission denied") {
        Some(("locked"@, "파일 잠금 또는 권한 문제가 감지되었습니다"@, detail))
    } else if (has(l, "mod") || has(l, "workshop") || has(l, "loader")) && (has(l, "error") || has(
        l,
        "failed",
    ) || has(l, "exception")) {
        Some(("mod"@, "모드 로딩 실패 로그가 있습니다"@, detail))
    } else {
        None
    }
}

fn holds(l: &[char], k: &str) -> (r: bool)
    ensures
        r == has(l@, k),
{
    let kc = chars_of(k);
    contains(l, kc.as_slice())
}

/// Sorts a game log line into a problem category, with a title and the trimmed line.
pub fn classify_game_log_line(line: &str) -> (r: Option<(&'static str, String, String)>)
    ensures
        match r {
            Some((c, t, d)) => classify_spec(line@) == Some((c@, t@, d@)),
            None => classify_spec(line@) is None,
        },
{
    let raw = chars_of(line);
    let lc = ascii_lower(raw.as_slice());
    let l = lc.as_slice();
    let detail_chars = trim(raw.as_slice());
    let detail = string_from(detail_chars.as_slice());
    if holds(l, "modelnotfoundexception") || (holds(l, "model id=") && holds(l, " not found")) {
        Some(("current-run", "진행 중 런이 현재 모드 구성과 충돌할 수 있습니다".to_string(), detail))
    } else if holds(l, "pck") && (holds(l, "error") || holds(l, "failed") || holds(l, "invalid")
        || holds(l, "corrupt")) {
        Some(("pck", "PCK 로딩 오류가 감지되었습니다".to_string(), detail))
    } else if holds(l, "missing dependency") || holds(l, "dependency missing") || holds(
        l,
        "could not find dependency",
    ) || holds(l, "requires") {
        Some(("dependency", "누락된 선행 모드 로그가 있습니다".to_string(), detail))
    } else if holds(l, "access is denied") || holds(l, "being used by another process") || holds(
        l,
        "sharing violation",
    ) || holds(l, "permission denied") {
        Some(("locked", "파일 잠금 또는 권한 문제가 감지되었습니다".to_string(), detail))
    } else if (holds(l, "mod") || holds(l, "workshop") || holds(l, "loader")) && (holds(l, "error")
        || holds(l, "failed") || holds(l, "exception")) {
        Some(("mod", "모드 로딩 실패 로그가 있습니다".to_string(), detail))
    } else {
        None
    }
}

pub open spec fn severity_rank(severity: Seq<char>) -> char {
    if severity == "error"@ {
        '0'
    } else if severity == "warn"@ {
        '1'
    } else if severity == "good"@ {
        '3'
    } else {
        '2'
    }
}

/// The key that orders diagnostics: errors first, then warnings, others, good news last.
pub open spec fn diagnostic_sort_key_spec(severity: Seq<char>, category: Seq<char>) -> Seq<char> {
    seq![severity_rank(severity), '-'] + category
}

pub fn diagnostic_sort_key(severity: &str, category: &str) -> (r: String)
    ensures
        r@ == diagnostic_sort_key_spec(severity@, category@),
{
    let s = chars_of(severity);
    let rank = if crate::language::is_text(s.as_slice(), "error") {
        '0'
    } else if crate::language::is_text(s.as_slice(), "warn") {
        '1'
    } else if crate::language::is_text(s.as_slice(), "good") {
        '3'
    } else {
        '2'
    };
    let mut out: Vec<char> = Vec::new();
    out.push(rank);
    out.push('-');
    let c = chars_of(category);
    crate::text::push_all(&mut out, c.as_slice());
    assert(out@ =~= diagnostic_sort_key_spec(severity@, category@));
    string_from(out.as_slice())
}

/// Two paths with the same components, as `PathBuf` equality sees them.
pub open spec fn same_components(a: Seq<char>, b: Seq<char>) -> bool {
    rooted(a) == rooted(b) && components(a) == components(b)
}

pub open spec fn push_unique_spec(paths: Seq<Seq<char>>, p: Seq<char>) -> Seq<Seq<char>> {
    if exists|i: int| 0 <= i < paths.len() && same_components(#[trigger] paths[i], p) {
        paths
    } else {
        paths.push(p)
    }
}

pub open spec fn strings_view(v: Seq<String>) -> Seq<Seq<char>> {
    Seq::new(v.len(), |i: int| v[i]@)
}

pub fn same_components_exec(a: &str, b: &str) -> (r: bool)
    ensures
        r == same_components(a@, b@),
{
    let ac = chars_of(a);
    let bc = chars_of(b);
    let ca = crate::paths::comps_of(ac.as_slice());
    let cb = crate::paths::comps_of(bc.as_slice());
    if crate::paths::is_rooted_exec(ac.as_slice()) != crate::paths::is_rooted_exec(bc.as_slice()) {
        return false;
    }
    if ca.len() != cb.len() {
        assert(crate::paths::vv(ca@).len() == ca@.len());
        assert(crate::paths::vv(cb@).len() == cb@.len());
        return false;
    }
    let same = crate::paths::comps_prefix(ca.as_slice(), cb.as_slice());
    proof {
        let x = crate::paths::vv(ca@);
        let y = crate::paths::vv(cb@);
        assert(x.len() == y.len());
        assert(y.take(x.len() as int) =~= y);
    }
    same
}

/// Adds a path to a list unless an equal path is already there.
pub fn push_unique_path(paths: &mut Vec<String>, path: String)
    ensures
        strings_view(final(paths)@) == push_unique_spec(strings_view(old(paths)@), path@),
{
    let mut i: usize = 0;
    while i < paths.len()
        invariant
            i <= paths@.len(),
            forall|j: int| 0 <= j < i ==> !same_components((#[trigger] paths@[j])@, path@),
        decreases paths.len() - i,
    {
        if same_components_exec(paths[i].as_str(), path.as_str()) {
            proof {
                assert(same_components(strings_view(paths@)[i as int], path@));
            }
            return;
        }
        i += 1;
    }
    let ghost before = paths@;
    paths.push(path);
    proof {
        assert forall|k: int| 0 <= k < before.len() implies !same_components(
            #[trigger] strings_view(before)[k],
            path@,
        ) by {
            assert(strings_view(before)[k] == before[k]@);
        }
        assert(strings_view(paths@) =~= strings_view(before).push(path@));
    }
}

/// Where the game's log may be: the configured file, the default under `%APPDATA%`, and two
/// places in the game folder, each once.
pub open spec fn game_log_candidates_spec(
    configured: Seq<char>,
    appdata: Option<Seq<char>>,
    game_dir: Seq<char>,
) -> Seq<Seq<char>> {
    let a = if configured.len() > 0 {
        push_unique_spec(Seq::empty(), configured)
    } else {
        Seq::empty()
    };
    let b = match appdata {
        Some(d) => push_unique_spec(a, default_log_spec(d)),
        None => a,
    };
    let c = push_unique_spec(b, join_name_spec(join_name_spec(game_dir, "logs"@), "godot.log"@));
    push_unique_spec(c, join_name_spec(game_dir, "godot.log"@))
}

pub open spec fn default_log_spec(appdata: Seq<char>) -> Seq<char> {
    join_name_spec(join_name_spec(join_name_spec(appdata, "SlayTheSpire2"@), "logs"@), "godot.log"@)
}

/// The game's default log file under `%APPDATA%`.
pub fn default_sts2_game_log_path(appdata: Option<&str>) -> (r: Option<String>)
    ensures
        match appdata {
            Some(d) => r matches Some(p) && p@ == default_log_spec(d@),
            None => r is None,
        },
{
    match appdata {
        Some(d) => {
            let a = join_name_str(d, "SlayTheSpire2");
            let b = join_name_str(a.as_str(), "logs");
            Some(join_name_str(b.as_str(), "godot.log"))
        },
        None => None,
    }
}

pub fn game_log_candidates(configured_log_path: &str, appdata: Option<&str>, game_dir: &str) -> (r:
    Vec<String>)
    ensures
        strings_view(r@) == game_log_candidates_spec(
            configured_log_path@,
            match appdata {
                Some(d) => Some(d@),
                None => None,
            },
            game_dir@,
        ),
{
    let mut candidates: Vec<String> = Vec::new();
    assert(strings_view(candidates@) =~= Seq::<Seq<char>>::empty());
    let configured = chars_of(configured_log_path);
    if configured.len() > 0 {
        push_unique_path(&mut candidates, configured_log_path.to_string());
    }
    if let Some(default_log) = default_sts2_game_log_path(appdata) {
        push_unique_path(&mut candidates, default_log);
    }
    let logs = join_name_str(game_dir, "logs");
    push_unique_path(&mut candidates, join_name_str(logs.as_str(), "godot.log"));
    push_unique_path(&mut candidates, join_name_str(game_dir, "godot.log"));
    candidates
}

/// How much of the end of a log is read: 256 KiB.
pub const TAIL_BYTES: u64 = 262144;

/// How many lines at the end of a log are looked at.
pub const MAX_TAIL_LINES: usize = 260;

/// Where reading the end of a log of `len` bytes starts.
pub fn tail_start(len: u64) -> (r: u64)
    ensures
        r == if len > TAIL_BYTES {
            len - TAIL_BYTES
        } else {
            0
        },
{
    len.saturating_sub(TAIL_BYTES)
}

/// The last lines of the text read from a log's end, oldest first.
pub open spec fn tail_lines_spec(text: Seq<char>) -> Seq<Seq<char>> {
    let ls = crate::text::lines_seq(text);
    if ls.len() > MAX_TAIL_LINES {
        ls.skip(ls.len() - MAX_TAIL_LINES)
    } else {
        ls
    }
}

pub fn tail_lines(text: &str) -> (r: Vec<String>)
    ensures
        strings_view(r@) == tail_lines_spec(text@),
{
    let ls = crate::text::lines(chars_of(text).as_slice());
    let ghost lsq = crate::text::lines_seq(text@);
    let start: usize = if ls.len() > MAX_TAIL_LINES { ls.len() - MAX_TAIL_LINES } else { 0 };
    let mut out: Vec<String> = Vec::new();
    let mut i: usize = start;
    while i < ls.len()
        invariant
            start <= i <= ls@.len(),
            ls@.len() == lsq.len(),
            forall|k: int| 0 <= k < ls@.len() ==> #[trigger] ls@[k]@ == lsq[k],
            strings_view(out@) == lsq.subrange(start as int, i as int),
        decreases ls.len() - i,
    {
        assert(ls@[i as int]@ == lsq[i as int]);
        let ghost before = out@;
        out.push(string_from(ls[i].as_slice()));
        assert(strings_view(out@) =~= strings_view(before).push(lsq[i as int]));
        i += 1;
        assert(strings_view(out@) =~= lsq.subrange(start as int, i as int));
    }
    assert(lsq.subrange(start as int, lsq.len() as int) =~= tail_lines_spec(text@));
    out
}

} // verus!
