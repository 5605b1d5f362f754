//! Naming a translation patch mod after the mod it translates.
use vstd::prelude::*;
use crate::text::{chars_of, string_from, is_ascii_alnum, is_ascii_alnum_exec, cat, eq_ignore_case, lower_seq, trim, trim_seq};
use crate::model::ModManifestInfo;
use crate::apply::TranslationContext;
use crate::roots::opt_view;
use crate::json::{JsonValue, pairs_get, keys_unique, object_insert, pretty_json, json_text_pretty};
use crate::paths::{file_name_spec, stem_of, file_name_exec, stem_exec, join_name_spec, join_name_str};

verus! {

broadcast use vstd::string::group_string_axioms;

/// Characters that a package id keeps as they are.
pub open spec fn id_char(c: char) -> bool {
    is_ascii_alnum(c) || c == '_' || c == '-'
}

/// The last character of `s` is one that a package id does not keep.
pub open spec fn ends_in_other(s: Seq<char>) -> bool {
    s.len() > 0 && !id_char(s.last())
}

/// Kept characters stay; each run of other characters becomes one underscore.
pub open spec fn collapse_id(s: Seq<char>) -> Seq<char>
    decreases s.len(),
{
    if s.len() == 0 {
        Seq::empty()
    } else if id_char(s.last()) {
        collapse_id(s.drop_last()).push(s.last())
    } else if ends_in_other(s.drop_last()) {
        collapse_id(s.drop_last())
    } else {
        collapse_id(s.drop_last()).push('_')
    }
}

pub open spec fn dash_like(c: char) -> bool {
    c == '_' || c == '-'
}

/// Number of leading underscores and hyphens.
pub open spec fn leading_dash(s: Seq<char>) -> nat
    decreases s.len(),
{
    if s.len() > 0 && dash_like(s[0]) {
        1 + leading_dash(s.drop_first())
    } else {
        0
    }
}

/// Number of trailing underscores and hyphens.
pub open spec fn trailing_dash(s: Seq<char>) -> nat
    decreases s.len(),
{
    if s.len() > 0 && dash_like(s.last()) {
        1 + trailing_dash(s.drop_last())
    } else {
        0
    }
}

/// What `str::trim_matches(['_', '-'])` gives.
pub open spec fn trim_dash(s: Seq<char>) -> Seq<char> {
    let t = s.skip(leading_dash(s) as int);
    t.take(t.len() - trailing_dash(t))
}

pub open spec fn fallback_package_id() -> Seq<char> {
    "translation_patch"@
}

/// The package id made of a mod id: runs of characters other than ASCII letters, digits,
/// `_` and `-` become one underscore, underscores and hyphens are trimmed from both ends,
/// and an id with nothing left is `translation_patch`.
pub open spec fn package_id_spec(value: Seq<char>) -> Seq<char> {
    let t = trim_dash(collapse_id(value));
    if t.len() == 0 {
        fallback_package_id()
    } else {
        t
    }
}

proof fn lemma_leading_dash(s: Seq<char>, k: int)
    requires
        0 <= k <= s.len(),
        forall|j: int| 0 <= j < k ==> dash_like(#[trigger] s[j]),
        k == s.len() || !dash_like(s[k]),
    ensures
        leading_dash(s) == k,
    decreases k,
{
    if k > 0 {
        let t = s.drop_first();
        assert forall|j: int| 0 <= j < k - 1 implies dash_like(#[trigger] t[j]) by {
            assert(t[j] == s[j + 1]);
        }
        if k < s.len() {
            assert(t[k - 1] == s[k]);
        }
        lemma_leading_dash(t, k - 1);
    }
}

proof fn lemma_trailing_dash(s: Seq<char>, k: int)
    requires
        0 <= k <= s.len(),
        forall|j: int| s.len() - k <= j < s.len() ==> dash_like(#[trigger] s[j]),
        k == s.len() || !dash_like(s[s.len() - k - 1]),
    ensures
        trailing_dash(s) == k,
    decreases k,
{
    if k > 0 {
        let t = s.drop_last();
        assert forall|j: int| t.len() - (k - 1) <= j < t.len() implies dash_like(#[trigger] t[j]) by {
            assert(t[j] == s[j]);
        }
        if k < s.len() {
            assert(t[t.len() - (k - 1) - 1] == s[s.len() - k - 1]);
        }
        lemma_trailing_dash(t, k - 1);
    }
}

fn id_char_exec(c: char) -> (r: bool)
    ensures
        r == id_char(c),
{
    is_ascii_alnum_exec(c) || c == '_' || c == '-'
}

/// `str::trim_matches(['_', '-'])` on characters.
fn trim_dash_chars(s: &[char]) -> (r: Vec<char>)
    ensures
        r@ == trim_dash(s@),
{
    let mut start: usize = 0;
    while start < s.len() && (s[start] == '_' || s[start] == '-')
        invariant
            start <= s.len(),
            forall|j: int| 0 <= j < start ==> dash_like(#[trigger] s@[j]),
        decreases s.len() - start,
    {
        start += 1;
    }
    proof {
        lemma_leading_dash(s@, start as int);
    }
    let ghost t = s@.skip(start as int);
    let mut end: usize = s.len();
    while end > start && (s[end - 1] == '_' || s[end - 1] == '-')
        invariant
            start <= end <= s.len(),
            t == s@.skip(start as int),
            forall|j: int| end <= j < s.len() ==> dash_like(#[trigger] s@[j]),
        decreases end - start,
    {
        end -= 1;
    }
    proof {
        let k = s.len() - end;
        assert forall|j: int| t.len() - k <= j < t.len() implies dash_like(#[trigger] t[j]) by {
            assert(t[j] == s@[j + start]);
        }
        if k < t.len() {
            assert(t[t.len() - k - 1] == s@[end - 1]);
        }
        lemma_trailing_dash(t, k);
    }
    let mut out: Vec<char> = Vec::new();
    let mut i: usize = start;
    while i < end
        invariant
            start <= i <= end <= s.len(),
            out@ == s@.subrange(start as int, i as int),
        decreases end - i,
    {
        out.push(s[i]);
        i += 1;
        assert(out@ =~= s@.subrange(start as int, i as int));
    }
    assert(out@ =~= trim_dash(s@));
    out
}

/// The package id of a translation patch for the mod `value`, before its `_tr` suffix.
pub fn sanitize_package_id(value: &str) -> (r: String)
    ensures
        r@ == package_id_spec(value@),
{
    let v = chars_of(value);
    let mut output: Vec<char> = Vec::new();
    let mut previous_was_separator = false;
    let mut i: usize = 0;
    while i < v.len()
        invariant
            i <= v@.len(),
            output@ == collapse_id(v@.take(i as int)),
            previous_was_separator == ends_in_other(v@.take(i as int)),
        decreases v.len() - i,
    {
        let c = v[i];
        proof {
            assert(v@.take(i + 1).drop_last() =~= v@.take(i as int));
            assert(v@.take(i + 1).last() == c);
        }
        if id_char_exec(c) {
            output.push(c);
            previous_was_separator = false;
        } else if !previous_was_separator {
            output.push('_');
            previous_was_separator = true;
        } else {
            previous_was_separator = true;
        }
        i += 1;
    }
    assert(v@.take(i as int) =~= value@);
    let trimmed = trim_dash_chars(output.as_slice());
    if trimmed.len() == 0 {
        proof {
            reveal_strlit("translation_patch");
        }
        String::from_str("translation_patch")
    } else {
        string_from(trimmed.as_slice())
    }
}

/// A manifest that says anything of the mod: an id, a name, a version or a dependency.
pub open spec fn manifest_identity_spec(info: &ModManifestInfo) -> bool {
    ||| info.id is Some
    ||| info.name is Some
    ||| info.version is Some
    ||| info.dependencies@.len() > 0
}

/// Whether a manifest read from a mod's files names the mod at all.
pub fn manifest_has_identity(info: &ModManifestInfo) -> (r: bool)
    ensures
        r == manifest_identity_spec(info),
{
    info.id.is_some() || info.name.is_some() || info.version.is_some() || info.dependencies.len() > 0
}

/// The id of the mod a patch depends on: the manifest's id, else the context's pck stem,
/// else the stem of the input pck's file name, else the context's mod key, else
/// `translation_patch`.
pub open spec fn original_package_id_spec(manifest: &ModManifestInfo, context: &TranslationContext, input_pck: Seq<char>) -> Seq<char> {
    match opt_view(manifest.id) {
        Some(id) => id,
        None => match opt_view(context.pck_stem) {
            Some(stem) => stem,
            None => match file_name_spec(input_pck) {
                Some(name) => stem_of(name),
                None => match opt_view(context.mod_key) {
                    Some(key) => key,
                    None => fallback_package_id(),
                },
            },
        },
    }
}

pub fn original_package_id(manifest: &ModManifestInfo, context: &TranslationContext, input_pck: &str) -> (r: String)
    ensures
        r@ == original_package_id_spec(manifest, context, input_pck@),
{
    if let Some(id) = &manifest.id {
        return id.clone();
    }
    if let Some(stem) = &context.pck_stem {
        return stem.clone();
    }
    let p = chars_of(input_pck);
    if let Some(name) = file_name_exec(p.as_slice()) {
        let stem = stem_exec(name.as_slice());
        return string_from(stem.as_slice());
    }
    if let Some(key) = &context.mod_key {
        return key.clone();
    }
    proof {
        reveal_strlit("translation_patch");
    }
    "translation_patch".to_string()
}

/// The id of the patch mod for the mod `dependency_id`.
pub fn patch_package_id(dependency_id: &str) -> (r: String)
    ensures
        r@ == package_id_spec(dependency_id@) + "_tr"@,
{
    let base = sanitize_package_id(dependency_id);
    cat(base.as_str(), "_tr")
}

/// The folder a patch is exported to: the chosen folder itself where its name is the
/// package id (ignoring ASCII case), else a folder of that name inside it.
pub open spec fn patch_export_dir_spec(output_root: Seq<char>, package_id: Seq<char>) -> Seq<char> {
    match file_name_spec(output_root) {
        Some(name) => if lower_seq(name) == lower_seq(package_id) {
            output_root
        } else {
            join_name_spec(output_root, package_id)
        },
        None => join_name_spec(output_root, package_id),
    }
}

pub fn patch_export_dir(output_root: &str, package_id: &str) -> (r: String)
    ensures
        r@ == patch_export_dir_spec(output_root@, package_id@),
{
    let root = chars_of(output_root);
    let id = chars_of(package_id);
    let same = match file_name_exec(root.as_slice()) {
        Some(name) => eq_ignore_case(name.as_slice(), id.as_slice()),
        None => false,
    };
    if same {
        output_root.to_string()
    } else {
        join_name_str(output_root, package_id)
    }
}

/// The manifest written into an exported patch mod, field by field.
pub struct PatchModManifest {
    pub id: String,
    pub name: String,
    pub author: String,
    pub description: String,
    pub version: String,
    pub translation_patch_version: String,
    pub dependency_id: String,
    pub dependency_version: String,
    pub target_mod_name: String,
    pub target_languages: Vec<String>,
}

pub open spec fn dependency_version_spec(version: Option<String>) -> Seq<char> {
    match version {
        Some(v) => v@,
        None => "-"@,
    }
}

/// A patch takes its target mod's version, or `1.0.0` where the target has none.
pub open spec fn package_version_spec(dependency_version: Seq<char>) -> Seq<char> {
    if dependency_version == "-"@ {
        "1.0.0"@
    } else {
        dependency_version
    }
}

pub open spec fn original_name_spec(manifest_name: Option<String>, dependency_id: Seq<char>) -> Seq<char> {
    match manifest_name {
        Some(n) => n@,
        None => dependency_id,
    }
}

pub open spec fn patch_manifest_ok(
    package_id: Seq<char>,
    dependency_id: Seq<char>,
    target: &ModManifestInfo,
    languages: Seq<String>,
    r: PatchModManifest,
) -> bool {
    let dv = dependency_version_spec(target.version);
    let name = original_name_spec(target.name, dependency_id);
    &&& r.id@ == package_id
    &&& r.name@ == name + " Korean Translation"@
    &&& r.author@ == "STS2 Mod Manager"@
    &&& r.description@ == "Korean localization patch for "@ + name + ". Target mod version: "@ + dv + "."@
    &&& r.version@ == package_version_spec(dv)
    &&& r.translation_patch_version@ == "1.0.0"@
    &&& r.dependency_id@ == dependency_id
    &&& r.dependency_version@ == dv
    &&& r.target_mod_name@ == name
    &&& r.target_languages@ == languages
}

/// The manifest of the patch mod `package_id` for the mod `dependency_id`, whose own
/// manifest is `target`, covering `languages`.
pub fn patch_mod_manifest(
    package_id: &str,
    dependency_id: &str,
    target: &ModManifestInfo,
    languages: Vec<String>,
) -> (r: PatchModManifest)
    ensures
        patch_manifest_ok(package_id@, dependency_id@, target, languages@, r),
{
    let dependency_version = match &target.version {
        Some(v) => v.clone(),
        None => "-".to_string(),
    };
    let dash = chars_of("-");
    let version = if crate::text::seq_eq(chars_of(dependency_version.as_str()).as_slice(), dash.as_slice()) {
        "1.0.0".to_string()
    } else {
        dependency_version.clone()
    };
    let name = match &target.name {
        Some(n) => n.clone(),
        None => dependency_id.to_string(),
    };
    let a = cat("Korean localization patch for ", name.as_str());
    let b = cat(a.as_str(), ". Target mod version: ");
    let c = cat(b.as_str(), dependency_version.as_str());
    let description = cat(c.as_str(), ".");
    PatchModManifest {
        id: package_id.to_string(),
        name: cat(name.as_str(), " Korean Translation"),
        author: "STS2 Mod Manager".to_string(),
        description,
        version,
        translation_patch_version: "1.0.0".to_string(),
        dependency_id: dependency_id.to_string(),
        dependency_version,
        target_mod_name: name,
        target_languages: languages,
    }
}

/// The sheet and output folder an export is asked for, trimmed; refused where either is blank.
pub open spec fn export_paths_spec(sheet_path: Seq<char>, output_dir: Seq<char>) -> Result<
    (Seq<char>, Seq<char>),
    Seq<char>,
> {
    if trim_seq(sheet_path).len() == 0 {
        Err("내보낼 번역 시트 경로를 입력하세요."@)
    } else if trim_seq(output_dir).len() == 0 {
        Err("번역 모드를 내보낼 폴더를 선택하세요."@)
    } else {
        Ok((trim_seq(sheet_path), trim_seq(output_dir)))
    }
}

pub fn export_paths(sheet_path: &str, output_dir: &str) -> (r: Result<(String, String), String>)
    ensures
        match r {
            Ok((s, o)) => export_paths_spec(sheet_path@, output_dir@) == Ok::<(Seq<char>, Seq<char>), Seq<char>>((s@, o@)),
            Err(e) => export_paths_spec(sheet_path@, output_dir@) == Err::<(Seq<char>, Seq<char>), Seq<char>>(e@),
        },
{
    let s = trim(chars_of(sheet_path).as_slice());
    if s.len() == 0 {
        return Err("내보낼 번역 시트 경로를 입력하세요.".to_string());
    }
    let o = trim(chars_of(output_dir).as_slice());
    if o.len() == 0 {
        return Err("번역 모드를 내보낼 폴더를 선택하세요.".to_string());
    }
    Ok((string_from(s.as_slice()), string_from(o.as_slice())))
}

/// Why an export stops once the sheet is applied, checked in the order the export meets
/// them: nothing applied; no translated folder found; that folder missing; no JSON file in
/// it; no PCK tool. Nothing where the export can go on.
pub open spec fn export_refusal_spec(
    applied_entries: nat,
    payload_root: Option<Seq<char>>,
    payload_is_dir: bool,
    json_files: nat,
    pck_tool_found: bool,
) -> Option<Seq<char>> {
    if applied_entries == 0 {
        Some("내보낼 번역값이 없습니다. translated_value를 먼저 입력하거나 매칭해 주세요."@)
    } else if payload_root is None {
        Some("번역 모드에 넣을 translated 폴더를 찾지 못했습니다."@)
    } else if !payload_is_dir {
        Some("번역 모드에 넣을 translated 폴더가 없습니다: "@ + payload_root->Some_0)
    } else if json_files == 0 {
        Some("번역 모드에 넣을 JSON 파일이 없습니다."@)
    } else if !pck_tool_found {
        Some("GodotPCKExplorer.Console.exe를 찾지 못했습니다."@)
    } else {
        None
    }
}

pub fn export_refusal(
    applied_entries: usize,
    payload_root: Option<&str>,
    payload_is_dir: bool,
    json_files: usize,
    pck_tool_found: bool,
) -> (r: Option<String>)
    ensures
        opt_view(r) == export_refusal_spec(
            applied_entries as nat,
            match payload_root {
                Some(p) => Some(p@),
                None => None,
            },
            payload_is_dir,
            json_files as nat,
            pck_tool_found,
        ),
{
    if applied_entries == 0 {
        return Some("내보낼 번역값이 없습니다. translated_value를 먼저 입력하거나 매칭해 주세요.".to_string());
    }
    let root = match payload_root {
        Some(p) => p,
        None => {
            return Some("번역 모드에 넣을 translated 폴더를 찾지 못했습니다.".to_string());
        },
    };
    if !payload_is_dir {
        return Some(cat("번역 모드에 넣을 translated 폴더가 없습니다: ", root));
    }
    if json_files == 0 {
        return Some("번역 모드에 넣을 JSON 파일이 없습니다.".to_string());
    }
    if !pck_tool_found {
        return Some("GodotPCKExplorer.Console.exe를 찾지 못했습니다.".to_string());
    }
    None
}

/// A member of an object that is the string `s`.
pub open spec fn str_member(p: Seq<(String, JsonValue)>, k: Seq<char>, s: String) -> bool {
    pairs_get(p, k) == Some(JsonValue::Str(s))
}

pub open spec fn bool_member(p: Seq<(String, JsonValue)>, k: Seq<char>, b: bool) -> bool {
    pairs_get(p, k) == Some(JsonValue::Bool(b))
}

/// The keys of a patch mod's manifest file.
pub open spec fn patch_manifest_key(k: Seq<char>) -> bool {
    k == "id"@ || k == "name"@ || k == "author"@ || k == "description"@ || k == "is_translation_patch"@ || k == "translation_mod"@ || k == "version"@ || k == "translation_patch_version"@ || k == "has_pck"@ || k == "has_dll"@ || k == "dependencies"@ || k == "dependency_versions"@ || k == "affects_gameplay"@ || k == "target_mod_id"@ || k == "target_mod_name"@ || k == "target_mod_version"@ || k == "target_languages"@
}

/// `j` is the manifest file of the patch mod `m`: these members and no other.
pub open spec fn patch_manifest_json_ok(m: &PatchModManifest, j: JsonValue) -> bool {
    match j {
        JsonValue::Object(p) => {
            &&& keys_unique(p@)
            &&& forall|k: Seq<char>| !patch_manifest_key(k) ==> pairs_get(p@, k) is None
            &&& str_member(p@, "id"@, m.id)
            &&& str_member(p@, "name"@, m.name)
            &&& str_member(p@, "author"@, m.author)
            &&& str_member(p@, "description"@, m.description)
            &&& bool_member(p@, "is_translation_patch"@, true)
            &&& bool_member(p@, "translation_mod"@, true)
            &&& str_member(p@, "version"@, m.version)
            &&& str_member(p@, "translation_patch_version"@, m.translation_patch_version)
            &&& bool_member(p@, "has_pck"@, true)
            &&& bool_member(p@, "has_dll"@, false)
            &&& match pairs_get(p@, "dependencies"@) {
                Some(JsonValue::Array(d)) => d@ == seq![JsonValue::Str(m.dependency_id)],
                _ => false,
            }
            &&& match pairs_get(p@, "dependency_versions"@) {
                Some(JsonValue::Object(q)) => q@ == seq![(m.dependency_id, JsonValue::Str(m.dependency_version))],
                _ => false,
            }
            &&& bool_member(p@, "affects_gameplay"@, false)
            &&& str_member(p@, "target_mod_id"@, m.dependency_id)
            &&& str_member(p@, "target_mod_name"@, m.target_mod_name)
            &&& str_member(p@, "target_mod_version"@, m.dependency_version)
            &&& match pairs_get(p@, "target_languages"@) {
                Some(JsonValue::Array(l)) => l@ == m.target_languages@.map_values(|x: String| JsonValue::Str(x)),
                _ => false,
            }
        },
        _ => false,
    }
}

/// The JSON of a patch mod's manifest file.
pub fn patch_manifest_json(m: &PatchModManifest) -> (r: JsonValue)
    ensures
        patch_manifest_json_ok(m, r),
{
    proof {
        reveal_strlit("id");
        reveal_strlit("name");
        reveal_strlit("author");
        reveal_strlit("description");
        reveal_strlit("is_translation_patch");
        reveal_strlit("translation_mod");
        reveal_strlit("version");
        reveal_strlit("translation_patch_version");
        reveal_strlit("has_pck");
        reveal_strlit("has_dll");
        reveal_strlit("dependencies");
        reveal_strlit("dependency_versions");
        reveal_strlit("affects_gameplay");
        reveal_strlit("target_mod_id");
        reveal_strlit("target_mod_name");
        reveal_strlit("target_mod_version");
        reveal_strlit("target_languages");
        assert("id"@.len() == 2 && "id"@[0] == 'i' && "id"@[1] == 'd');
        assert("name"@.len() == 4 && "name"@[0] == 'n' && "name"@[1] == 'a');
        assert("author"@.len() == 6 && "author"@[0] == 'a' && "author"@[1] == 'u' && "author"@[4] == 'o');
        assert("description"@.len() == 11 && "description"@[0] == 'd' && "description"@[1] == 'e' && "description"@[4] == 'r');
        assert("is_translation_patch"@.len() == 20 && "is_translation_patch"@[0] == 'i' && "is_translation_patch"@[1] == 's' && "is_translation_patch"@[4] == 'r');
        assert("translation_mod"@.len() == 15 && "translation_mod"@[0] == 't' && "translation_mod"@[1] == 'r' && "translation_mod"@[4] == 's');
        assert("version"@.len() == 7 && "version"@[0] == 'v' && "version"@[1] == 'e' && "version"@[4] == 'i');
        assert("translation_patch_version"@.len() == 25 && "translation_patch_version"@[0] == 't' && "translation_patch_version"@[1] == 'r' && "translation_patch_version"@[4] == 's');
        assert("has_pck"@.len() == 7 && "has_pck"@[0] == 'h' && "has_pck"@[1] == 'a' && "has_pck"@[4] == 'p');
        assert("has_dll"@.len() == 7 && "has_dll"@[0] == 'h' && "has_dll"@[1] == 'a' && "has_dll"@[4] == 'd');
        assert("dependencies"@.len() == 12 && "dependencies"@[0] == 'd' && "dependencies"@[1] == 'e' && "dependencies"@[4] == 'n');
        assert("dependency_versions"@.len() == 19 && "dependency_versions"@[0] == 'd' && "dependency_versions"@[1] == 'e' && "dependency_versions"@[4] == 'n');
        assert("affects_gameplay"@.len() == 16 && "affects_gameplay"@[0] == 'a' && "affects_gameplay"@[1] == 'f' && "affects_gameplay"@[4] == 'c');
        assert("target_mod_id"@.len() == 13 && "target_mod_id"@[0] == 't' && "target_mod_id"@[1] == 'a' && "target_mod_id"@[4] == 'e');
        assert("target_mod_name"@.len() == 15 && "target_mod_name"@[0] == 't' && "target_mod_name"@[1] == 'a' && "target_mod_name"@[4] == 'e');
        assert("target_mod_version"@.len() == 18 && "target_mod_version"@[0] == 't' && "target_mod_version"@[1] == 'a' && "target_mod_version"@[4] == 'e');
        assert("target_languages"@.len() == 16 && "target_languages"@[0] == 't' && "target_languages"@[1] == 'a' && "target_languages"@[4] == 'e');
    }
    let mut languages: Vec<JsonValue> = Vec::new();
    let mut i: usize = 0;
    while i < m.target_languages.len()
        invariant
            i <= m.target_languages@.len(),
            languages@ == m.target_languages@.take(i as int).map_values(|x: String| JsonValue::Str(x)),
        decreases m.target_languages.len() - i,
    {
        languages.push(JsonValue::Str(m.target_languages[i].clone()));
        assert(languages@ =~= m.target_languages@.take(i + 1).map_values(|x: String| JsonValue::Str(x)));
        i += 1;
    }
    assert(m.target_languages@.take(i as int) =~= m.target_languages@);
    let deps: Vec<JsonValue> = vec![JsonValue::Str(m.dependency_id.clone())];
    let versions: Vec<(String, JsonValue)> = vec![(m.dependency_id.clone(), JsonValue::Str(m.dependency_version.clone()))];
    let mut p: Vec<(String, JsonValue)> = Vec::new();
    let ghost empty = p@;
    assert(keys_unique(p@));
    object_insert(&mut p, "id", JsonValue::Str(m.id.clone()));
    object_insert(&mut p, "name", JsonValue::Str(m.name.clone()));
    object_insert(&mut p, "author", JsonValue::Str(m.author.clone()));
    object_insert(&mut p, "description", JsonValue::Str(m.description.clone()));
    object_insert(&mut p, "is_translation_patch", JsonValue::Bool(true));
    object_insert(&mut p, "translation_mod", JsonValue::Bool(true));
    object_insert(&mut p, "version", JsonValue::Str(m.version.clone()));
    object_insert(&mut p, "translation_patch_version", JsonValue::Str(m.translation_patch_version.clone()));
    object_insert(&mut p, "has_pck", JsonValue::Bool(true));
    object_insert(&mut p, "has_dll", JsonValue::Bool(false));
    object_insert(&mut p, "dependencies", JsonValue::Array(deps));
    object_insert(&mut p, "dependency_versions", JsonValue::Object(versions));
    object_insert(&mut p, "affects_gameplay", JsonValue::Bool(false));
    object_insert(&mut p, "target_mod_id", JsonValue::Str(m.dependency_id.clone()));
    object_insert(&mut p, "target_mod_name", JsonValue::Str(m.target_mod_name.clone()));
    object_insert(&mut p, "target_mod_version", JsonValue::Str(m.dependency_version.clone()));
    object_insert(&mut p, "target_languages", JsonValue::Array(languages));
    assert forall|k: Seq<char>| !patch_manifest_key(k) implies pairs_get(p@, k) is None by {
        assert(pairs_get(empty, k) is None);
    }
    assert(keys_unique(p@));
    assert(str_member(p@, "version"@, m.version));
    assert(bool_member(p@, "has_pck"@, true));
    assert(bool_member(p@, "has_dll"@, false));
    assert(str_member(p@, "target_mod_version"@, m.dependency_version));
    assert(match pairs_get(p@, "dependencies"@) {
        Some(JsonValue::Array(d)) => d@ == seq![JsonValue::Str(m.dependency_id)],
        _ => false,
    });
    assert(match pairs_get(p@, "dependency_versions"@) {
        Some(JsonValue::Object(q)) => q@ == seq![(m.dependency_id, JsonValue::Str(m.dependency_version))],
        _ => false,
    });
    assert(match pairs_get(p@, "target_languages"@) {
        Some(JsonValue::Array(l)) => l@ == m.target_languages@.map_values(|x: String| JsonValue::Str(x)),
        _ => false,
    });
    JsonValue::Object(p)
}

/// The text of a patch mod's manifest file, written by serde_json's pretty printer.
pub fn patch_manifest_text(m: &PatchModManifest) -> (r: String)
    ensures
        exists|j: JsonValue| patch_manifest_json_ok(m, j) && r@ == pretty_json(j),
{
    let j = patch_manifest_json(m);
    json_text_pretty(&j)
}

} // verus!
