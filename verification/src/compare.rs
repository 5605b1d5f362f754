//! Comparing a translation sheet with another language of the mod: JSON pointers into the
//! mod's language files, and the values found there under the sheet's keys.
use vstd::prelude::*;
use crate::text::{chars_of, string_from, split_seq, split_char, parse_u64, parse_u64_spec, trim, trim_seq, starts_with};
use crate::json::{JsonValue, json_get, json_str, json_get_exec, json_str_exec, parse_json_text, parsed_json, leading_boms};
use crate::sheet::{split_key_spec, split_translation_key};
use crate::dashboard::{fnv_spec, hex_spec, stable_hash, hex_digits};
use crate::text::cat;
use crate::paths::{
    replace_language_spec, replace_resource_language, under_language_root_spec, under_language_root,
    language_component_spec, localization_language_component,
};

verus! {

broadcast use vstd::string::group_string_axioms;

/// `s` with each `~` that is followed by `c` replaced, with that `c`, by `rep`; left to right.
pub open spec fn replace_tilde(s: Seq<char>, c: char, rep: char) -> Seq<char>
    decreases s.len(),
{
    if s.len() == 0 {
        s
    } else if s.len() >= 2 && s[0] == '~' && s[1] == c {
        seq![rep] + replace_tilde(s.skip(2), c, rep)
    } else {
        seq![s[0]] + replace_tilde(s.skip(1), c, rep)
    }
}

/// A pointer token unescaped: `~1` read as `/`, then `~0` as `~`.
pub open spec fn unescape_token(t: Seq<char>) -> Seq<char> {
    replace_tilde(replace_tilde(t, '1', '/'), '0', '~')
}

/// An array index token: decimal digits with no sign and no leading zero.
pub open spec fn index_token(t: Seq<char>) -> Option<u64> {
    if t.len() > 0 && t[0] != '+' && !(t[0] == '0' && t.len() != 1) {
        parse_u64_spec(t)
    } else {
        None
    }
}

/// One step of a pointer: into an object by key, into an array by index.
pub open spec fn pointer_step(v: JsonValue, t: Seq<char>) -> Option<JsonValue> {
    match v {
        JsonValue::Object(_) => json_get(v, t),
        JsonValue::Array(items) => match index_token(t) {
            Some(i) => if i < items@.len() {
                Some(items@[i as int])
            } else {
                None
            },
            None => None,
        },
        _ => None,
    }
}

/// The value reached from `v` by the (escaped) tokens `ts`, one step each.
pub open spec fn follow_tokens(v: JsonValue, ts: Seq<Seq<char>>) -> Option<JsonValue>
    decreases ts.len(),
{
    if ts.len() == 0 {
        Some(v)
    } else {
        match pointer_step(v, unescape_token(ts[0])) {
            Some(x) => follow_tokens(x, ts.skip(1)),
            None => None,
        }
    }
}

/// A JSON pointer (RFC 6901) as `serde_json::Value::pointer` reads it: the empty pointer is
/// the whole value; any other starts with `/`, and each `/`-separated token after it is one
/// step.
pub open spec fn pointer_spec(v: JsonValue, p: Seq<char>) -> Option<JsonValue> {
    if p.len() == 0 {
        Some(v)
    } else if p[0] != '/' {
        None
    } else {
        follow_tokens(v, split_seq(p, '/').skip(1))
    }
}

fn replace_tilde_exec(s: &[char], c: char, rep: char) -> (r: Vec<char>)
    ensures
        r@ == replace_tilde(s@, c, rep),
{
    let mut out: Vec<char> = Vec::new();
    let mut i: usize = 0;
    assert(s@.skip(0) =~= s@);
    assert(out@ + s@ =~= s@);
    while i < s.len()
        invariant
            i <= s@.len(),
            out@ + replace_tilde(s@.skip(i as int), c, rep) == replace_tilde(s@, c, rep),
        decreases s.len() - i,
    {
        let ghost rest = s@.skip(i as int);
        if i + 1 < s.len() && s[i] == '~' && s[i + 1] == c {
            assert(rest.skip(2) =~= s@.skip(i + 2));
            assert(out@.push(rep) + replace_tilde(s@.skip(i + 2), c, rep) =~= out@ + replace_tilde(rest, c, rep));
            out.push(rep);
            i += 2;
        } else {
            assert(rest.skip(1) =~= s@.skip(i + 1));
            assert(out@.push(s[i as int]) + replace_tilde(s@.skip(i + 1), c, rep) =~= out@ + replace_tilde(rest, c, rep));
            out.push(s[i]);
            i += 1;
        }
    }
    assert(s@.skip(i as int).len() == 0);
    assert(out@ + replace_tilde(s@.skip(i as int), c, rep) =~= out@);
    out
}

/// One step of a pointer, taken on a value held by reference.
fn pointer_step_exec<'a>(v: &'a JsonValue, t: &[char]) -> (r: Option<&'a JsonValue>)
    ensures
        match r {
            Some(x) => pointer_step(*v, t@) == Some(*x),
            None => pointer_step(*v, t@) is None,
        },
{
    match v {
        JsonValue::Object(_) => {
            let key = string_from(t);
            json_get_exec(v, key.as_str())
        },
        JsonValue::Array(items) => {
            if t.len() > 0 && t[0] != '+' && !(t[0] == '0' && t.len() != 1) {
                match parse_u64(t) {
                    Some(i) => {
                        if i < items.len() as u64 {
                            Some(&items[i as usize])
                        } else {
                            None
                        }
                    },
                    None => None,
                }
            } else {
                None
            }
        },
        _ => None,
    }
}

/// `serde_json::Value::pointer`: the value a JSON pointer names, if any.
pub fn json_pointer<'a>(v: &'a JsonValue, pointer: &str) -> (r: Option<&'a JsonValue>)
    ensures
        match r {
            Some(x) => pointer_spec(*v, pointer@) == Some(*x),
            None => pointer_spec(*v, pointer@) is None,
        },
{
    let p = chars_of(pointer);
    if p.len() == 0 {
        return Some(v);
    }
    if p[0] != '/' {
        return None;
    }
    let parts = split_char(p.as_slice(), '/');
    let ghost all = split_seq(p@, '/');
    proof {
        crate::text::lemma_split_nonempty(p@, '/');
    }
    assert(all.skip(1) =~= all.skip(1));
    let mut cur: &JsonValue = v;
    let mut i: usize = 1;
    while i < parts.len()
        invariant
            1 <= i <= parts@.len(),
            parts@.len() == all.len(),
            forall|j: int| 0 <= j < parts@.len() ==> #[trigger] parts@[j]@ == all[j],
            all == split_seq(p@, '/'),
            p@ == pointer@,
            p@.len() > 0 && p@[0] == '/',
            pointer_spec(*v, pointer@) == follow_tokens(*cur, all.skip(i as int)),
        decreases parts.len() - i,
    {
        let ghost ts = all.skip(i as int);
        assert(ts[0] == all[i as int]);
        assert(ts.skip(1) =~= all.skip(i + 1));
        let once = replace_tilde_exec(parts[i].as_slice(), '1', '/');
        let token = replace_tilde_exec(once.as_slice(), '0', '~');
        assert(token@ == unescape_token(ts[0]));
        match pointer_step_exec(cur, token.as_slice()) {
            Some(x) => {
                cur = x;
            },
            None => {
                return None;
            },
        }
        i += 1;
    }
    assert(all.skip(i as int).len() == 0);
    Some(cur)
}

/// A value of the compared language, found under a sheet key.
pub struct LanguageCompareValueDto {
    pub key: String,
    pub value: String,
}

pub open spec fn dtos_view(r: Seq<LanguageCompareValueDto>) -> Seq<(Seq<char>, Seq<char>)> {
    r.map_values(|d: LanguageCompareValueDto| (d.key@, d.value@))
}

/// The file a sheet file is compared in: the same path with its language folder swapped;
/// a path without one (a compact key) is taken under the sample's language folder; as
/// written where the sample has none either.
pub open spec fn compare_file_spec(file: Seq<char>, language: Seq<char>, sample: Seq<char>) -> Seq<char> {
    match replace_language_spec(file, language) {
        Some(p) => p,
        None => match under_language_root_spec(sample, file) {
            Some(q) => q,
            None => file,
        },
    }
}

/// The file a sheet key is compared in, relative to the mod's scan root; none for a key
/// without a file or a pointer.
pub open spec fn compare_key_file(key: Seq<char>, language: Seq<char>, sample: Seq<char>) -> Option<Seq<char>> {
    let (file, pointer) = split_key_spec(key);
    if file.len() == 0 || pointer.len() == 0 {
        None
    } else {
        Some(compare_file_spec(file, language, sample))
    }
}

/// The JSON that the first entry for a file holds (`None` where it was unreadable or no JSON).
pub open spec fn file_json(files: Seq<(String, Option<JsonValue>)>, f: Seq<char>) -> Option<JsonValue>
    decreases files.len(),
{
    if files.len() == 0 {
        None
    } else if files[0].0@ == f {
        files[0].1
    } else {
        file_json(files.skip(1), f)
    }
}

/// The compared value of one sheet key: the string that its pointer names in its file.
pub open spec fn compare_value_spec(
    key: Seq<char>,
    language: Seq<char>,
    sample: Seq<char>,
    files: Seq<(String, Option<JsonValue>)>,
) -> Option<Seq<char>> {
    match compare_key_file(key, language, sample) {
        Some(f) => match file_json(files, f) {
            Some(json) => match pointer_spec(json, split_key_spec(key).1) {
                Some(x) => json_str(x),
                None => None,
            },
            None => None,
        },
        None => None,
    }
}

/// The compared values of the sheet's keys, in sheet order, for the keys that have one.
pub open spec fn compare_values_spec(
    keys: Seq<String>,
    language: Seq<char>,
    sample: Seq<char>,
    files: Seq<(String, Option<JsonValue>)>,
) -> Seq<(Seq<char>, Seq<char>)>
    decreases keys.len(),
{
    if keys.len() == 0 {
        Seq::empty()
    } else {
        let prev = compare_values_spec(keys.drop_last(), language, sample, files);
        match compare_value_spec(keys.last()@, language, sample, files) {
            Some(v) => prev.push((keys.last()@, v)),
            None => prev,
        }
    }
}

/// The file a sheet key is compared in, relative to the mod's scan root; none for a key that
/// names no file or no pointer.
pub fn compare_file_for_key(key: &str, language: &str, sample: &str) -> (r: Option<String>)
    ensures
        opt_seq(r) == compare_key_file(key@, language@, sample@),
{
    let (file, pointer) = split_translation_key(key);
    if chars_of(file.as_str()).len() == 0 || chars_of(pointer.as_str()).len() == 0 {
        return None;
    }
    match replace_resource_language(file.as_str(), language) {
        Some(p) => Some(p),
        None => match under_language_root(sample, file.as_str()) {
            Some(q) => Some(q),
            None => Some(file),
        },
    }
}

pub open spec fn opt_seq(o: Option<String>) -> Option<Seq<char>> {
    match o {
        Some(s) => Some(s@),
        None => None,
    }
}

fn find_file<'a>(files: &'a Vec<(String, Option<JsonValue>)>, f: &str) -> (r: Option<&'a JsonValue>)
    ensures
        match r {
            Some(x) => file_json(files@, f@) == Some(*x),
            None => file_json(files@, f@) is None,
        },
{
    let mut i: usize = 0;
    assert(files@.skip(0) =~= files@);
    while i < files.len()
        invariant
            i <= files@.len(),
            file_json(files@, f@) == file_json(files@.skip(i as int), f@),
        decreases files.len() - i,
    {
        assert(files@.skip(i as int)[0] == files@[i as int]);
        assert(files@.skip(i as int).skip(1) =~= files@.skip(i + 1));
        if crate::text::seq_eq(chars_of(files[i].0.as_str()).as_slice(), chars_of(f).as_slice()) {
            return match &files[i].1 {
                Some(j) => Some(j),
                None => None,
            };
        }
        i += 1;
    }
    None
}

/// The error where the compared sample has no language folder.
pub open spec fn no_language_message() -> Seq<char> {
    "비교 언어 폴더를 찾지 못했습니다."@
}

/// The values that another language of the mod holds under the sheet's keys. The language
/// is the folder below `localization` in `sample` (a file of that language, relative to the
/// mod's scan root); `files` holds the compared files by their path relative to the scan
/// root, each with its JSON (`None` where it could not be read or parsed). Keys without a
/// file, a pointer, a readable file or a string at the pointer are left out.
pub fn compare_values(keys: &Vec<String>, sample: &str, files: &Vec<(String, Option<JsonValue>)>) -> (r: Result<
    Vec<LanguageCompareValueDto>,
    String,
>)
    ensures
        match r {
            Ok(v) => language_component_spec(sample@) is Some && dtos_view(v@) == compare_values_spec(
                keys@,
                language_component_spec(sample@)->Some_0,
                sample@,
                files@,
            ),
            Err(e) => language_component_spec(sample@) is None && e@ == no_language_message(),
        },
{
    let compare_language = match localization_language_component(sample) {
        Some(l) => l,
        None => {
            return Err("비교 언어 폴더를 찾지 못했습니다.".to_string());
        },
    };
    let mut out: Vec<LanguageCompareValueDto> = Vec::new();
    let mut i: usize = 0;
    while i < keys.len()
        invariant
            i <= keys@.len(),
            language_component_spec(sample@) == Some(compare_language@),
            dtos_view(out@) == compare_values_spec(keys@.take(i as int), compare_language@, sample@, files@),
        decreases keys.len() - i,
    {
        let key = &keys[i];
        assert(keys@.take(i + 1).drop_last() =~= keys@.take(i as int));
        assert(keys@.take(i + 1).last() == keys@[i as int]);
        if let Some(f) = compare_file_for_key(key.as_str(), compare_language.as_str(), sample) {
            if let Some(json) = find_file(files, f.as_str()) {
                let (_, pointer) = split_translation_key(key.as_str());
                if let Some(x) = json_pointer(json, pointer.as_str()) {
                    if let Some(s) = json_str_exec(x) {
                        let d = LanguageCompareValueDto { key: key.clone(), value: s.clone() };
                        out.push(d);
                        assert(dtos_view(out@) =~= compare_values_spec(
                            keys@.take(i as int),
                            compare_language@,
                            sample@,
                            files@,
                        ).push((key@, s@)));
                    }
                }
            }
        }
        i += 1;
        assert(dtos_view(out@) =~= compare_values_spec(keys@.take(i as int), compare_language@, sample@, files@));
    }
    assert(keys@.take(i as int) =~= keys@);
    Ok(out)
}

/// Leading `/` characters.
pub open spec fn leading_slashes(s: Seq<char>) -> nat
    decreases s.len(),
{
    if s.len() > 0 && s[0] == '/' {
        1 + leading_slashes(s.skip(1))
    } else {
        0
    }
}

/// A resource path made relative: `res://` and the slashes after it dropped, or the
/// trimmed path as it is; none for a blank path.
pub open spec fn resource_relative_spec(path: Seq<char>) -> Option<Seq<char>> {
    let t = trim_seq(path);
    if t.len() >= 6 && t.take(6) == "res://"@ {
        let rest = t.skip(6);
        Some(rest.skip(leading_slashes(rest) as int))
    } else if t.len() == 0 {
        None
    } else {
        Some(t)
    }
}

proof fn lemma_leading_slashes(s: Seq<char>, k: int)
    requires
        0 <= k <= s.len(),
        forall|j: int| 0 <= j < k ==> #[trigger] s[j] == '/',
        k == s.len() || s[k] != '/',
    ensures
        leading_slashes(s) == k,
    decreases k,
{
    if k > 0 {
        let t = s.skip(1);
        assert forall|j: int| 0 <= j < k - 1 implies #[trigger] t[j] == '/' by {
            assert(t[j] == s[j + 1]);
        }
        if k < s.len() {
            assert(t[k - 1] == s[k]);
        }
        lemma_leading_slashes(t, k - 1);
    }
}

pub fn resource_path_to_relative(path: &str) -> (r: Option<String>)
    ensures
        opt_seq(r) == resource_relative_spec(path@),
{
    let t = trim(chars_of(path).as_slice());
    let res = chars_of("res://");
    proof {
        reveal_strlit("res://");
    }
    if starts_with(t.as_slice(), res.as_slice()) {
        assert(t@.take(6) =~= "res://"@);
        let mut i: usize = 6;
        while i < t.len() && t[i] == '/'
            invariant
                6 <= i <= t@.len(),
                forall|j: int| 6 <= j < i ==> #[trigger] t@[j] == '/',
            decreases t.len() - i,
        {
            i += 1;
        }
        proof {
            let rest = t@.skip(6);
            assert forall|j: int| 0 <= j < i - 6 implies #[trigger] rest[j] == '/' by {
                assert(rest[j] == t@[j + 6]);
            }
            if i < t.len() {
                assert(rest[i - 6] == t@[i as int]);
            }
            lemma_leading_slashes(rest, i - 6);
            assert(rest.skip(i - 6) =~= t@.skip(i as int));
        }
        let out = string_from(vstd::slice::slice_subrange(t.as_slice(), i, t.len()));
        assert(out@ =~= t@.skip(i as int));
        Some(out)
    } else if t.len() == 0 {
        None
    } else {
        assert(!(t@.len() >= 6 && t@.take(6) == "res://"@));
        Some(string_from(t.as_slice()))
    }
}

/// A compared language file's JSON: its leading byte-order marks dropped, the rest parsed by
/// serde_json.
pub open spec fn language_file_json(content: Seq<char>) -> Option<JsonValue> {
    parsed_json(content.skip(leading_boms(content) as int))
}

pub open spec fn parsed_files(texts: Seq<(String, Option<String>)>) -> Seq<(String, Option<JsonValue>)> {
    texts.map_values(
        |t: (String, Option<String>)|
            (
                t.0,
                match t.1 {
                    Some(c) => language_file_json(c@),
                    None => None,
                },
            ),
    )
}

/// Parses a compared language file's text: leading byte-order marks dropped, then JSON.
pub fn parse_language_file(content: &str) -> (r: Option<JsonValue>)
    ensures
        r == language_file_json(content@),
{
    let v = chars_of(content);
    let mut i: usize = 0;
    while i < v.len() && v[i] == '\u{feff}'
        invariant
            i <= v@.len(),
            forall|j: int| 0 <= j < i ==> #[trigger] v@[j] == '\u{feff}',
        decreases v.len() - i,
    {
        i += 1;
    }
    proof {
        crate::json::lemma_leading_boms(v@, i as int);
    }
    let rest = string_from(vstd::slice::slice_subrange(v.as_slice(), i, v.len()));
    assert(rest@ =~= content@.skip(i as int));
    parse_json_text(rest.as_str())
}

/// The error where the sample path is blank.
pub open spec fn unreadable_sample_message() -> Seq<char> {
    "비교 언어 경로를 읽지 못했습니다."@
}

/// Comparing a sheet with another language: the sample path made relative, each compared
/// file's text (`None` where it could not be read) parsed, then the values looked up as
/// in `compare_values`.
pub fn compare_translation_language(
    keys: &Vec<String>,
    sample_path: &str,
    texts: &Vec<(String, Option<String>)>,
) -> (r: Result<Vec<LanguageCompareValueDto>, String>)
    ensures
        match resource_relative_spec(sample_path@) {
            None => r is Err && r->Err_0@ == unreadable_sample_message(),
            Some(sample) => match r {
                Ok(v) => language_component_spec(sample) is Some && dtos_view(v@) == compare_values_spec(
                    keys@,
                    language_component_spec(sample)->Some_0,
                    sample,
                    parsed_files(texts@),
                ),
                Err(e) => language_component_spec(sample) is None && e@ == no_language_message(),
            },
        },
{
    let sample = match resource_path_to_relative(sample_path) {
        Some(s) => s,
        None => {
            return Err("비교 언어 경로를 읽지 못했습니다.".to_string());
        },
    };
    let mut files: Vec<(String, Option<JsonValue>)> = Vec::new();
    let mut i: usize = 0;
    while i < texts.len()
        invariant
            i <= texts@.len(),
            files@ == parsed_files(texts@.take(i as int)),
        decreases texts.len() - i,
    {
        let parsed = match &texts[i].1 {
            Some(c) => parse_language_file(c.as_str()),
            None => None,
        };
        files.push((texts[i].0.clone(), parsed));
        assert(files@ =~= parsed_files(texts@.take(i + 1)));
        i += 1;
    }
    assert(texts@.take(i as int) =~= texts@);
    compare_values(keys, sample.as_str(), &files)
}

/// The cache key a comparison unpacks an extraction source under.
pub open spec fn compare_cache_key_spec(source: Seq<char>) -> Seq<char> {
    "compare-"@ + hex_spec(fnv_spec(vstd::utf8::encode_utf8(source)) as nat, 16)
}

pub fn compare_cache_key(source: &str) -> (r: String)
    ensures
        r@ == compare_cache_key_spec(source@),
{
    let h = stable_hash(source);
    let d = hex_digits(h, 16);
    cat("compare-", string_from(d.as_slice()).as_str())
}

/// The folder a comparison reads, from what was found, in the order it is tried: the scan
/// root of the mod the sheet's context names (`record_root`, where that mod was found and
/// unpacked), else that of the context's extraction source (`extraction_root`, where it
/// exists and was unpacked), else the sheet's source where it exists.
pub open spec fn compare_scan_root_spec(
    record_root: Option<Seq<char>>,
    extraction_root: Option<Seq<char>>,
    sheet_source: Seq<char>,
    sheet_source_exists: bool,
) -> Option<Seq<char>> {
    match record_root {
        Some(r) => Some(r),
        None => match extraction_root {
            Some(r) => Some(r),
            None => if sheet_source_exists {
                Some(sheet_source)
            } else {
                None
            },
        },
    }
}

pub fn compare_scan_root(
    record_root: Option<String>,
    extraction_root: Option<String>,
    sheet_source: &str,
    sheet_source_exists: bool,
) -> (r: Option<String>)
    ensures
        opt_seq(r) == compare_scan_root_spec(opt_seq(record_root), opt_seq(extraction_root), sheet_source@, sheet_source_exists),
{
    match record_root {
        Some(r) => Some(r),
        None => match extraction_root {
            Some(r) => Some(r),
            None => if sheet_source_exists {
                Some(sheet_source.to_string())
            } else {
                None
            },
        },
    }
}

} // verus!
