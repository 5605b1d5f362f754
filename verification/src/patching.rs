//! Building a translated pck: reading the pck tool's version line, and where the inserted
//! files and the built pck go.
use vstd::prelude::*;
use crate::text::{
    chars_of, string_from, push_all, trim, trim_seq, is_ws, is_ws_exec, is_ascii_digit, is_ascii_digit_exec,
    match_at, contains_seq, find, lines_seq, lines, eq_ignore_case, lower_seq,
};
use crate::paths::{
    extension_spec, path_extension, file_name_spec, file_name_exec, join_name_spec, join_name_str, parent_spec,
    parent_chars,
};
use crate::settings::AppConfig;
use crate::roots::{path_starts_with, path_starts_with_exec};
use crate::paths::{ext_is, ext_is_exec, res_prefix, language_output_relative_spec, language_output_relative_to_pck, adjust_target_spec, adjust_pck_target_for_language_output};
use crate::text::starts_with;
use crate::apply::TranslationContext;
use crate::model::{is_pck_path, is_supported_archive_path};
use crate::deleted::{install_dir_spec, active_mod_install_dir};
use crate::logs::{same_components, same_components_exec};
use crate::paths::{stem_of, stem_exec, components, is_pck_contents_name, after_named_spec, selected_name, path_inside_pck_contents, mod_key_from_selected_source};
use crate::model::is_supported_extractable_path;

verus! {

broadcast use vstd::string::group_string_axioms;

pub open spec fn version_marker_long() -> Seq<char> {
    "Version string for this program:"@
}

pub open spec fn version_marker_short() -> Seq<char> {
    "Version:"@
}

pub open spec fn first_match(h: Seq<char>, n: Seq<char>, i: int) -> bool {
    match_at(h, n, i) && forall|j: int| 0 <= j < i ==> !match_at(h, n, j)
}

/// The text before the first whitespace.
pub open spec fn first_token(s: Seq<char>) -> Seq<char>
    decreases s.len(),
{
    if s.len() == 0 || is_ws(s[0]) {
        Seq::empty()
    } else {
        seq![s[0]] + first_token(s.skip(1))
    }
}

pub open spec fn version_char(c: char) -> bool {
    is_ascii_digit(c) || c == '.'
}

pub open spec fn lead_other(s: Seq<char>) -> nat
    decreases s.len(),
{
    if s.len() > 0 && !version_char(s[0]) {
        1 + lead_other(s.skip(1))
    } else {
        0
    }
}

pub open spec fn trail_other(s: Seq<char>) -> nat
    decreases s.len(),
{
    if s.len() > 0 && !version_char(s.last()) {
        1 + trail_other(s.drop_last())
    } else {
        0
    }
}

/// The token with everything but digits and dots trimmed from both ends.
pub open spec fn trim_version(s: Seq<char>) -> Seq<char> {
    let t = s.skip(lead_other(s) as int);
    t.take(t.len() - trail_other(t))
}

pub open spec fn count_dots(s: Seq<char>) -> nat
    decreases s.len(),
{
    if s.len() == 0 {
        0
    } else {
        count_dots(s.drop_last()) + if s.last() == '.' {
            1nat
        } else {
            0nat
        }
    }
}

/// The version after `marker` on a line: the first word after the marker's first place in
/// the trimmed line, trimmed to its digits and dots, where it has three dots.
pub open spec fn marker_version(line: Seq<char>, marker: Seq<char>) -> Option<Seq<char>> {
    let l = trim_seq(line);
    if contains_seq(l, marker) {
        let i = choose|i: int| first_match(l, marker, i);
        let v = trim_version(first_token(trim_seq(l.skip(i + marker.len()))));
        if count_dots(v) == 3 {
            Some(v)
        } else {
            None
        }
    } else {
        None
    }
}

pub open spec fn line_version(line: Seq<char>) -> Option<Seq<char>> {
    match marker_version(line, version_marker_long()) {
        Some(v) => Some(v),
        None => marker_version(line, version_marker_short()),
    }
}

pub open spec fn first_line_version(ls: Seq<Seq<char>>) -> Option<Seq<char>>
    decreases ls.len(),
{
    if ls.len() == 0 {
        None
    } else {
        match line_version(ls[0]) {
            Some(v) => Some(v),
            None => first_line_version(ls.skip(1)),
        }
    }
}

/// The pck format version that the pck tool's listing reports: the first line that gives one.
pub open spec fn pck_version_spec(output: Seq<char>) -> Option<Seq<char>> {
    first_line_version(lines_seq(output))
}

proof fn lemma_first_match_unique(h: Seq<char>, n: Seq<char>, i: int, j: int)
    requires
        first_match(h, n, i),
        first_match(h, n, j),
    ensures
        i == j,
{
}

fn first_token_exec(s: &[char]) -> (r: Vec<char>)
    ensures
        r@ == first_token(s@),
{
    let mut k: usize = 0;
    while k < s.len() && !is_ws_exec(s[k])
        invariant
            k <= s.len(),
            forall|j: int| 0 <= j < k ==> !is_ws(#[trigger] s@[j]),
        decreases s.len() - k,
    {
        k += 1;
    }
    proof {
        lemma_first_token(s@, k as int);
    }
    let mut out: Vec<char> = Vec::new();
    let mut i: usize = 0;
    while i < k
        invariant
            k <= s.len(),
            i <= k,
            out@ == s@.take(i as int),
        decreases k - i,
    {
        out.push(s[i]);
        i += 1;
        assert(out@ =~= s@.take(i as int));
    }
    out
}

proof fn lemma_first_token(s: Seq<char>, k: int)
    requires
        0 <= k <= s.len(),
        forall|j: int| 0 <= j < k ==> !is_ws(#[trigger] s[j]),
        k == s.len() || is_ws(s[k]),
    ensures
        first_token(s) == s.take(k),
    decreases k,
{
    if k == 0 {
        assert(s.take(0) =~= Seq::<char>::empty());
    } else {
        let t = s.skip(1);
        assert forall|j: int| 0 <= j < k - 1 implies !is_ws(#[trigger] t[j]) by {
            assert(t[j] == s[j + 1]);
        }
        if k < s.len() {
            assert(t[k - 1] == s[k]);
        }
        lemma_first_token(t, k - 1);
        assert(!is_ws(s[0]));
        assert(seq![s[0]] + t.take(k - 1) =~= s.take(k));
    }
}

proof fn lemma_lead_other(s: Seq<char>, k: int)
    requires
        0 <= k <= s.len(),
        forall|j: int| 0 <= j < k ==> !version_char(#[trigger] s[j]),
        k == s.len() || version_char(s[k]),
    ensures
        lead_other(s) == k,
    decreases k,
{
    if k > 0 {
        let t = s.skip(1);
        assert forall|j: int| 0 <= j < k - 1 implies !version_char(#[trigger] t[j]) by {
            assert(t[j] == s[j + 1]);
        }
        if k < s.len() {
            assert(t[k - 1] == s[k]);
        }
        lemma_lead_other(t, k - 1);
    }
}

proof fn lemma_trail_other(s: Seq<char>, k: int)
    requires
        0 <= k <= s.len(),
        forall|j: int| s.len() - k <= j < s.len() ==> !version_char(#[trigger] s[j]),
        k == s.len() || version_char(s[s.len() - k - 1]),
    ensures
        trail_other(s) == k,
    decreases k,
{
    if k > 0 {
        let t = s.drop_last();
        assert forall|j: int| t.len() - (k - 1) <= j < t.len() implies !version_char(#[trigger] t[j]) by {
            assert(t[j] == s[j]);
        }
        if k < s.len() {
            assert(t[t.len() - (k - 1) - 1] == s[s.len() - k - 1]);
        }
        lemma_trail_other(t, k - 1);
    }
}

fn version_char_exec(c: char) -> (r: bool)
    ensures
        r == version_char(c),
{
    is_ascii_digit_exec(c) || c == '.'
}

fn trim_version_exec(s: &[char]) -> (r: Vec<char>)
    ensures
        r@ == trim_version(s@),
{
    let mut start: usize = 0;
    while start < s.len() && !version_char_exec(s[start])
        invariant
            start <= s.len(),
            forall|j: int| 0 <= j < start ==> !version_char(#[trigger] s@[j]),
        decreases s.len() - start,
    {
        start += 1;
    }
    proof {
        lemma_lead_other(s@, start as int);
    }
    let ghost t = s@.skip(start as int);
    let mut end: usize = s.len();
    while end > start && !version_char_exec(s[end - 1])
        invariant
            start <= end <= s.len(),
            t == s@.skip(start as int),
            forall|j: int| end <= j < s.len() ==> !version_char(#[trigger] s@[j]),
        decreases end - start,
    {
        end -= 1;
    }
    proof {
        let k = s.len() - end;
        assert forall|j: int| t.len() - k <= j < t.len() implies !version_char(#[trigger] t[j]) by {
            assert(t[j] == s@[j + start]);
        }
        if k < t.len() {
            assert(t[t.len() - k - 1] == s@[end - 1]);
        }
        lemma_trail_other(t, k);
    }
    let mut out: Vec<char> = Vec::new();
    let mut i: usize = start;
    while i < end
        invariant
            start <= i <= end <= s.len(),
            out@ == s@.subrange(start as int, i as int),
        decreases end - i,
    {
        out.push(s[i]);
        i += 1;
        assert(out@ =~= s@.subrange(start as int, i as int));
    }
    assert(out@ =~= trim_version(s@));
    out
}

fn count_dots_exec(s: &[char]) -> (r: usize)
    ensures
        r == count_dots(s@),
{
    let mut n: usize = 0;
    let mut i: usize = 0;
    while i < s.len()
        invariant
            i <= s.len(),
            n == count_dots(s@.take(i as int)),
            n <= i,
        decreases s.len() - i,
    {
        proof {
            assert(s@.take(i + 1).drop_last() =~= s@.take(i as int));
        }
        if s[i] == '.' {
            n += 1;
        }
        i += 1;
    }
    assert(s@.take(i as int) =~= s@);
    n
}

fn marker_version_exec(line: &[char], marker: &[char]) -> (r: Option<Vec<char>>)
    ensures
        match r {
            Some(v) => marker_version(line@, marker@) == Some(v@),
            None => marker_version(line@, marker@) is None,
        },
{
    let l = trim(line);
    match find(l.as_slice(), marker) {
        None => None,
        Some(i) => {
            proof {
                assert(first_match(l@, marker@, i as int));
                let k = choose|k: int| first_match(l@, marker@, k);
                lemma_first_match_unique(l@, marker@, i as int, k);
            }
            let mut rest: Vec<char> = Vec::new();
            assert(i + marker@.len() <= l@.len());
            assert(l@.len() == l.len());
            let mut k: usize = i + marker.len();
            while k < l.len()
                invariant
                    i + marker@.len() <= k <= l@.len(),
                    rest@ == l@.subrange(i + marker@.len(), k as int),
                decreases l.len() - k,
            {
                rest.push(l[k]);
                k += 1;
                assert(rest@ =~= l@.subrange(i + marker@.len(), k as int));
            }
            assert(rest@ =~= l@.skip(i + marker@.len()));
            let rt = trim(rest.as_slice());
            let tok = first_token_exec(rt.as_slice());
            let v = trim_version_exec(tok.as_slice());
            if count_dots_exec(v.as_slice()) == 3 {
                Some(v)
            } else {
                None
            }
        },
    }
}

/// The pck format version in the pck tool's listing of a pck, where a line gives one.
pub fn pck_version_from_listing(output: &str) -> (r: Result<String, String>)
    ensures
        match r {
            Ok(v) => pck_version_spec(output@) == Some(v@),
            Err(m) => pck_version_spec(output@) is None && m@ == "PCK 버전을 읽지 못했습니다."@,
        },
{
    let ls = lines(chars_of(output).as_slice());
    let ghost all = lines_seq(output@);
    let long = chars_of("Version string for this program:");
    let short = chars_of("Version:");
    let mut i: usize = 0;
    assert(all.skip(0) =~= all);
    while i < ls.len()
        invariant
            i <= ls@.len(),
            ls@.len() == all.len(),
            forall|j: int| 0 <= j < ls@.len() ==> #[trigger] ls@[j]@ == all[j],
            all == lines_seq(output@),
            long@ == version_marker_long(),
            short@ == version_marker_short(),
            first_line_version(all) == first_line_version(all.skip(i as int)),
        decreases ls.len() - i,
    {
        proof {
            assert(all.skip(i as int)[0] == ls@[i as int]@);
            assert(all.skip(i as int).skip(1) =~= all.skip(i + 1));
        }
        if let Some(v) = marker_version_exec(ls[i].as_slice(), long.as_slice()) {
            assert(line_version(all.skip(i as int)[0]) == Some(v@));
            assert(first_line_version(all.skip(i as int)) == Some(v@));
            assert(pck_version_spec(output@) == Some(v@));
            return Ok(string_from(v.as_slice()));
        }
        if let Some(v) = marker_version_exec(ls[i].as_slice(), short.as_slice()) {
            assert(line_version(all.skip(i as int)[0]) == Some(v@));
            assert(first_line_version(all.skip(i as int)) == Some(v@));
            assert(pck_version_spec(output@) == Some(v@));
            return Ok(string_from(v.as_slice()));
        }
        i += 1;
    }
    assert(all.skip(i as int) =~= Seq::<Seq<char>>::empty());
    Err("PCK 버전을 읽지 못했습니다.".to_string())
}

pub open spec fn bad_target_message() -> Seq<char> {
    "PCK 내부 삽입 경로가 올바르지 않습니다."@
}

pub open spec fn leading_slashes(s: Seq<char>) -> nat
    decreases s.len(),
{
    if s.len() > 0 && s[0] == '/' {
        1 + leading_slashes(s.skip(1))
    } else {
        0
    }
}

/// A place inside the pck as the user wrote it, made relative: backslashes as slashes, a
/// leading `res://` dropped, whitespace trimmed, leading slashes dropped.
pub open spec fn target_text_spec(path: Seq<char>) -> Seq<char> {
    let text = path.map_values(|c: char| if c == '\\' { '/' } else { c });
    let rest = if text.len() >= 6 && text.take(6) == res_prefix() {
        text.skip(6)
    } else {
        text
    };
    let t = trim_seq(rest);
    t.skip(leading_slashes(t) as int)
}

/// The relative place is refused where it is empty or holds `..`.
pub open spec fn normalize_target_spec(path: Seq<char>) -> Result<Seq<char>, Seq<char>> {
    let t = target_text_spec(path);
    if t.len() == 0 || contains_seq(t, ".."@) {
        Err(bad_target_message())
    } else {
        Ok(t)
    }
}

proof fn lemma_leading_slashes(s: Seq<char>, k: int)
    requires
        0 <= k <= s.len(),
        forall|j: int| 0 <= j < k ==> #[trigger] s[j] == '/',
        k == s.len() || s[k] != '/',
    ensures
        leading_slashes(s) == k,
    decreases k,
{
    if k > 0 {
        let t = s.skip(1);
        assert forall|j: int| 0 <= j < k - 1 implies #[trigger] t[j] == '/' by {
            assert(t[j] == s[j + 1]);
        }
        if k < s.len() {
            assert(t[k - 1] == s[k]);
        }
        lemma_leading_slashes(t, k - 1);
    }
}

/// A place inside the pck that the user asked for, as a relative path.
pub fn normalize_pck_target_path(path: &str) -> (r: Result<String, String>)
    ensures
        match r {
            Ok(t) => normalize_target_spec(path@) == Ok::<Seq<char>, Seq<char>>(t@),
            Err(m) => normalize_target_spec(path@) == Err::<Seq<char>, Seq<char>>(m@),
        },
{
    let v = chars_of(path);
    let mut text: Vec<char> = Vec::new();
    let mut i: usize = 0;
    while i < v.len()
        invariant
            i <= v@.len(),
            text@ == v@.take(i as int).map_values(|c: char| if c == '\\' { '/' } else { c }),
        decreases v.len() - i,
    {
        text.push(if v[i] == '\\' { '/' } else { v[i] });
        i += 1;
        assert(text@ =~= v@.take(i as int).map_values(|c: char| if c == '\\' { '/' } else { c }));
    }
    assert(v@.take(i as int) =~= v@);
    let prefix = chars_of("res://");
    proof {
        reveal_strlit("res://");
        assert(prefix@ =~= res_prefix());
    }
    let rest: Vec<char> = if starts_with(text.as_slice(), prefix.as_slice()) {
        let mut out: Vec<char> = Vec::new();
        let mut k: usize = 6;
        while k < text.len()
            invariant
                6 <= k <= text@.len(),
                out@ == text@.subrange(6, k as int),
            decreases text.len() - k,
        {
            out.push(text[k]);
            k += 1;
            assert(out@ =~= text@.subrange(6, k as int));
        }
        assert(out@ =~= text@.skip(6));
        out
    } else {
        text
    };
    let t = trim(rest.as_slice());
    let mut start: usize = 0;
    while start < t.len() && t[start] == '/'
        invariant
            start <= t@.len(),
            forall|j: int| 0 <= j < start ==> #[trigger] t@[j] == '/',
        decreases t.len() - start,
    {
        start += 1;
    }
    proof {
        lemma_leading_slashes(t@, start as int);
    }
    let mut out: Vec<char> = Vec::new();
    let mut k: usize = start;
    while k < t.len()
        invariant
            start <= k <= t@.len(),
            out@ == t@.subrange(start as int, k as int),
        decreases t.len() - k,
    {
        out.push(t[k]);
        k += 1;
        assert(out@ =~= t@.subrange(start as int, k as int));
    }
    assert(out@ =~= t@.skip(start as int));
    let dots = chars_of("..");
    if out.len() == 0 || crate::text::contains(out.as_slice(), dots.as_slice()) {
        return Err("PCK 내부 삽입 경로가 올바르지 않습니다.".to_string());
    }
    Ok(string_from(out.as_slice()))
}

/// Where the translated language output goes inside the pck: the place asked for, else the
/// output's own place, fitted to whether the output is a folder.
pub open spec fn pck_target_spec(
    source: Seq<char>,
    out: Seq<char>,
    out_is_dir: bool,
    requested: Option<Seq<char>>,
) -> Result<Seq<char>, Seq<char>> {
    let rel: Result<Seq<char>, Seq<char>> = match requested {
        Some(t) => normalize_target_spec(t),
        None => match language_output_relative_spec(source, out) {
            Some(r) => Ok(r),
            None => Err("PCK 내부 언어 경로를 계산하지 못했습니다."@),
        },
    };
    match rel {
        Ok(r) => Ok(adjust_target_spec(out, out_is_dir, r)),
        Err(m) => Err(m),
    }
}

/// `output_is_dir` tells whether the language output is an existing folder.
pub fn pck_target_for_language_output(
    source_path: &str,
    language_output_path: &str,
    output_is_dir: bool,
    requested_pck_target: Option<&str>,
) -> (r: Result<String, String>)
    ensures
        match r {
            Ok(t) => pck_target_spec(source_path@, language_output_path@, output_is_dir, match requested_pck_target {
                Some(q) => Some(q@),
                None => None,
            }) == Ok::<Seq<char>, Seq<char>>(t@),
            Err(m) => pck_target_spec(source_path@, language_output_path@, output_is_dir, match requested_pck_target {
                Some(q) => Some(q@),
                None => None,
            }) == Err::<Seq<char>, Seq<char>>(m@),
        },
{
    let rel = match requested_pck_target {
        Some(t) => normalize_pck_target_path(t),
        None => match language_output_relative_to_pck(source_path, language_output_path) {
            Ok(r) => Ok(r),
            Err(_) => {
                proof {
                    reveal_strlit("PCK 내부 언어 경로를 계산하지 못했습니다.");
                }
                Err("PCK 내부 언어 경로를 계산하지 못했습니다.".to_string())
            },
        },
    };
    match rel {
        Ok(r) => Ok(adjust_pck_target_for_language_output(language_output_path, output_is_dir, r)),
        Err(m) => Err(m),
    }
}

/// Where a built pck is kept: the path asked for where it names a `.pck` file, else the
/// input pck's file name inside the folder asked for, else inside `patched` beside the sheet.
pub open spec fn pck_output_spec(requested: Option<Seq<char>>, sheet_path: Seq<char>, input_pck: Seq<char>) -> Result<
    Seq<char>,
    Seq<char>,
> {
    match file_name_spec(input_pck) {
        None => Err("PCK 파일명이 없습니다."@),
        Some(name) => match requested {
            Some(p) => if ext_is(p, "pck"@) {
                Ok(p)
            } else {
                Ok(join_name_spec(p, name))
            },
            None => {
                let dir = match parent_spec(sheet_path) {
                    Some(d) => d,
                    None => "."@,
                };
                Ok(join_name_spec(join_name_spec(dir, "patched"@), name))
            },
        },
    }
}

pub fn translated_pck_output_path(requested_output: Option<&str>, sheet_path: &str, input_pck: &str) -> (r: Result<
    String,
    String,
>)
    ensures
        match r {
            Ok(t) => pck_output_spec(match requested_output {
                Some(q) => Some(q@),
                None => None,
            }, sheet_path@, input_pck@) == Ok::<Seq<char>, Seq<char>>(t@),
            Err(m) => pck_output_spec(match requested_output {
                Some(q) => Some(q@),
                None => None,
            }, sheet_path@, input_pck@) == Err::<Seq<char>, Seq<char>>(m@),
        },
{
    let name = match file_name_exec(chars_of(input_pck).as_slice()) {
        Some(n) => string_from(n.as_slice()),
        None => return Err("PCK 파일명이 없습니다.".to_string()),
    };
    match requested_output {
        Some(p) => {
            if ext_is_exec(chars_of(p).as_slice(), chars_of("pck").as_slice()) {
                Ok(p.to_string())
            } else {
                Ok(join_name_str(p, name.as_str()))
            }
        },
        None => {
            let dir = match parent_chars(chars_of(sheet_path).as_slice()) {
                Some(d) => string_from(d.as_slice()),
                None => ".".to_string(),
            };
            let patched = join_name_str(dir.as_str(), "patched");
            Ok(join_name_str(patched.as_str(), name.as_str()))
        },
    }
}

/// A built pck is kept unless it was asked to go to a folder inside the `selected` work
/// folder.
pub open spec fn persist_spec(requested: Option<Seq<char>>, config: &AppConfig) -> bool {
    match requested {
        None => true,
        Some(p) => ext_is(p, "pck"@) || !path_starts_with(p, join_name_spec(config.translation_work_dir@, "selected"@)),
    }
}

pub fn should_persist_pck_output(requested_output: Option<&str>, config: &AppConfig) -> (r: bool)
    ensures
        r == persist_spec(match requested_output {
            Some(q) => Some(q@),
            None => None,
        }, config),
{
    match requested_output {
        None => true,
        Some(p) => {
            if ext_is_exec(chars_of(p).as_slice(), chars_of("pck").as_slice()) {
                return true;
            }
            let selected = join_name_str(config.translation_work_dir.as_str(), "selected");
            !path_starts_with_exec(p, selected.as_str())
        },
    }
}

/// What is known on disk when a patched pck is installed.
pub struct PatchedInstallFacts {
    /// The extraction source exists.
    pub source_exists: bool,
    /// The extraction source is a folder.
    pub source_is_dir: bool,
    /// The extraction source is a file.
    pub source_is_file: bool,
    /// The input pck exists.
    pub input_exists: bool,
    /// The folder the source archive was unpacked into is there.
    pub archive_dir_is_dir: bool,
}

/// How a patched pck reaches the mod it came from.
pub enum PatchedInstall {
    /// The mod is left as it is.
    Skip,
    /// The source is the pck itself: it is backed up and overwritten.
    OverwriteSource { source: String },
    /// The pck lies inside the source folder: it is backed up and overwritten.
    OverwriteInput { source: String },
    /// The source is an archive: the unpacked mod, with the patched pck, is installed into
    /// `target_dir` after backing that up, and the archive itself is backed up too where it
    /// sits directly in the game's mods folder.
    InstallArchive { target_dir: String, backup_source: bool },
}

/// The folder an archive mod is installed into: where it is already installed, else a
/// folder in the game's mods folder named by the archive's stem.
pub open spec fn archive_target_spec(source: Seq<char>, config: &AppConfig, source_is_file: bool) -> Seq<char> {
    match install_dir_spec(source, config.game_mods_dir@, source_is_file) {
        Some(d) => d,
        None => match file_name_spec(source) {
            Some(n) => join_name_spec(config.game_mods_dir@, stem_of(n)),
            None => join_name_spec(config.game_mods_dir@, "translated_mod"@),
        },
    }
}

/// The four ways a patched pck can go, told apart before any path is named.
pub enum InstallWay {
    Skip,
    OverwriteSource,
    OverwriteInput,
    InstallArchive,
}

pub open spec fn patched_install_way(
    source: Option<Seq<char>>,
    input_pck: Seq<char>,
    archive_dir: Seq<char>,
    facts: PatchedInstallFacts,
) -> InstallWay {
    match source {
        None => InstallWay::Skip,
        Some(src) => if (ext_is(src, "pck"@) || ext_is(src, "pak"@)) && facts.source_exists {
            InstallWay::OverwriteSource
        } else if facts.source_is_dir && path_starts_with(input_pck, src) && facts.input_exists {
            InstallWay::OverwriteInput
        } else if !(ext_is(src, "zip"@) || ext_is(src, "7z"@) || ext_is(src, "rar"@)) || !facts.archive_dir_is_dir
            || !path_starts_with(input_pck, archive_dir) {
            InstallWay::Skip
        } else {
            InstallWay::InstallArchive
        },
    }
}

/// The plan agrees with the rules above, and names the right paths.
pub open spec fn patched_install_ok(
    source: Option<Seq<char>>,
    input_pck: Seq<char>,
    archive_dir: Seq<char>,
    config: &AppConfig,
    facts: PatchedInstallFacts,
    r: PatchedInstall,
) -> bool {
    match (patched_install_way(source, input_pck, archive_dir, facts), r) {
        (InstallWay::Skip, PatchedInstall::Skip) => true,
        (InstallWay::OverwriteSource, PatchedInstall::OverwriteSource { source: s }) => Some(s@) == source,
        (InstallWay::OverwriteInput, PatchedInstall::OverwriteInput { source: s }) => Some(s@) == source,
        (InstallWay::InstallArchive, PatchedInstall::InstallArchive { target_dir, backup_source }) => {
            &&& target_dir@ == archive_target_spec(source->0, config, facts.source_is_file)
            &&& backup_source == match parent_spec(source->0) {
                Some(p) => same_components(p, config.game_mods_dir@),
                None => false,
            }
        },
        _ => false,
    }
}

/// How to install a patched pck for the extraction source `source`.
pub fn patched_install_plan(
    source: Option<&str>,
    input_pck: &str,
    archive_dir: &str,
    config: &AppConfig,
    facts: PatchedInstallFacts,
) -> (r: PatchedInstall)
    ensures
        patched_install_ok(match source {
            Some(s) => Some(s@),
            None => None,
        }, input_pck@, archive_dir@, config, facts, r),
{
    let src = match source {
        None => return PatchedInstall::Skip,
        Some(s) => s,
    };
    if is_pck_path(src) && facts.source_exists {
        return PatchedInstall::OverwriteSource { source: src.to_string() };
    }
    if facts.source_is_dir && path_starts_with_exec(input_pck, src) && facts.input_exists {
        return PatchedInstall::OverwriteInput { source: src.to_string() };
    }
    if !is_supported_archive_path(src) || !facts.archive_dir_is_dir || !path_starts_with_exec(input_pck, archive_dir) {
        return PatchedInstall::Skip;
    }
    let target_dir = match active_mod_install_dir(src, config, facts.source_is_file) {
        Some(d) => d,
        None => {
            let name = match file_name_exec(chars_of(src).as_slice()) {
                Some(n) => string_from(stem_exec(n.as_slice()).as_slice()),
                None => "translated_mod".to_string(),
            };
            join_name_str(config.game_mods_dir.as_str(), name.as_str())
        },
    };
    let backup_source = match parent_chars(chars_of(src).as_slice()) {
        Some(p) => same_components_exec(string_from(p.as_slice()).as_str(), config.game_mods_dir.as_str()),
        None => false,
    };
    PatchedInstall::InstallArchive { target_dir, backup_source }
}

/// The source's context says it came out of a pck or an archive, or links a patch.
pub open spec fn context_needs_pack(context: Option<TranslationContext>) -> bool {
    match context {
        Some(c) => {
            ||| c.input_pck_path is Some
            ||| c.pck_stem is Some
            ||| c.translation_patch_source_path is Some
            ||| (c.extraction_source_path matches Some(e) && (ext_is(e@, "zip"@) || ext_is(e@, "7z"@) || ext_is(
                e@,
                "rar"@,
            ) || ext_is(e@, "pck"@) || ext_is(e@, "pak"@)))
        },
        None => false,
    }
}

/// A sheet must be packed into a pck when its source lies inside a `.pck.contents` folder,
/// under the `selected` work folder, or its context says so.
pub open spec fn require_pack_spec(source_path: Seq<char>, context: Option<TranslationContext>) -> bool {
    ||| exists|i: int| 0 <= i < components(source_path).len() && is_pck_contents_name(#[trigger] components(source_path)[i])
    ||| after_named_spec(source_path, selected_name()) is Some
    ||| context_needs_pack(context)
}

/// `context` is the translation context read beside the source, where there is one.
pub fn should_require_pck_pack(source_path: &str, context: &Option<TranslationContext>) -> (r: bool)
    ensures
        r == require_pack_spec(source_path@, *context),
{
    if path_inside_pck_contents(source_path) {
        return true;
    }
    if mod_key_from_selected_source(source_path).is_some() {
        return true;
    }
    match context {
        Some(c) => {
            c.input_pck_path.is_some() || c.pck_stem.is_some() || c.translation_patch_source_path.is_some()
                || match &c.extraction_source_path {
                Some(e) => is_supported_extractable_path(e.as_str()),
                None => false,
            }
        },
        None => false,
    }
}

} // verus!
