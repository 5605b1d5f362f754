//! Preparing a selected resource of a mod for translation: the name of the selection, the
//! folders its work files go to, where each copied file lands, and what is reported back.
use vstd::prelude::*;
use crate::text::{chars_of, string_from, push_all, match_at, match_at_exec, trim, trim_seq, join_seqs};
use crate::paths::{
    components, join_slash, pck_relative_spec, pck_resource_relative_path, slash_path, res_prefix,
    strip_prefix_spec, strip_prefix_chars, file_name_spec, file_name_exec, join_name_spec, join_name_str,
    parent_spec, parent_chars,
};
use crate::deleted::{stem_char, nonempty_parts, limit_parts, stem_parts_first};
use crate::text::split_seq;
use crate::dashboard::{fnv_spec, stable_hash, hex_spec, hex_digits};
use crate::order::{lex_lt, lex_lt_exec, lemma_lex_total, lemma_lex_transitive, lemma_lex_irreflexive};
use crate::paths::{vv, comps_of};
use crate::text::{u64_text, dec_seq, ends_with};
use crate::model::ModManifestInfo;
use crate::rows::LanguagePreviewDto;
use crate::roots::opt_view;
use crate::apply::{join_rel, join_rel_exec};

verus! {

broadcast use vstd::string::group_string_axioms;

/// `resource_path` with every leading `res://` taken off, as `trim_start_matches` does.
pub open spec fn strip_res_all(s: Seq<char>) -> Seq<char>
    decreases s.len(),
{
    if match_at(s, res_prefix(), 0) {
        strip_res_all(s.skip(6))
    } else {
        s
    }
}

/// The readable head of a selection's name: at most eight runs of ASCII letters and digits,
/// in lower case, joined by `-`; `resource` where there is none.
pub open spec fn resource_slug(resource_path: Seq<char>) -> Seq<char> {
    let mapped = strip_res_all(resource_path).map_values(|c: char| stem_char(c));
    let joined = join_seqs(limit_parts(nonempty_parts(split_seq(mapped, '-')), Some(8usize)), seq!['-']);
    if joined.len() == 0 {
        "resource"@
    } else {
        joined
    }
}

/// The name of a selection: its slug, `-`, and the 64-bit FNV-1a hash of the path's UTF-8
/// bytes in sixteen lower-case hexadecimal digits.
pub open spec fn resource_id_spec(resource_path: Seq<char>) -> Seq<char> {
    resource_slug(resource_path) + seq!['-'] + hex_spec(fnv_spec(vstd::utf8::encode_utf8(resource_path)) as nat, 16)
}

/// The characters after the leading `res://`s.
fn strip_res_chars(v: &[char]) -> (r: Vec<char>)
    ensures
        r@ == strip_res_all(v@),
{
    let prefix = res_prefix_chars();
    let mut i: usize = 0;
    assert(v@.skip(0) =~= v@);
    while match_at_exec(v, prefix.as_slice(), i)
        invariant
            i <= v@.len(),
            prefix@ == res_prefix(),
            strip_res_all(v@) == strip_res_all(v@.skip(i as int)),
        decreases v.len() - i,
    {
        proof {
            let t = v@.skip(i as int);
            assert(t.subrange(0, 6) =~= v@.subrange(i as int, i + 6));
            assert(t.skip(6) =~= v@.skip(i + 6));
        }
        i += 6;
    }
    proof {
        let t = v@.skip(i as int);
        if match_at(t, res_prefix(), 0) {
            assert(t.subrange(0, 6) =~= v@.subrange(i as int, i + 6));
        }
    }
    let mut out: Vec<char> = Vec::new();
    let mut k: usize = i;
    while k < v.len()
        invariant
            i <= k <= v@.len(),
            out@ == v@.subrange(i as int, k as int),
        decreases v.len() - k,
    {
        out.push(v[k]);
        k += 1;
        assert(out@ =~= v@.subrange(i as int, k as int));
    }
    assert(out@ =~= v@.skip(i as int));
    out
}

fn res_prefix_chars() -> (r: Vec<char>)
    ensures
        r@ == res_prefix(),
{
    let r = vec!['r', 'e', 's', ':', '/', '/'];
    assert(r@ =~= res_prefix());
    r
}

/// The name under which a selected resource's work files are kept.
pub fn stable_resource_id(resource_path: &str) -> (r: String)
    ensures
        r@ == resource_id_spec(resource_path@),
{
    let v = chars_of(resource_path);
    let rest = strip_res_chars(v.as_slice());
    let mut slug = stem_parts_first(rest.as_slice(), Some(8));
    if slug.len() == 0 {
        slug = chars_of("resource");
    }
    slug.push('-');
    let h = stable_hash(resource_path);
    let digits = hex_digits(h, 16);
    push_all(&mut slug, digits.as_slice());
    string_from(slug.as_slice())
}

/// Where the work files of a selection go.
pub struct NodeWorkLayout {
    pub source_root: String,
    pub translated_root: String,
    pub sheet_path: String,
}

/// The folder the selected files are copied to: `<key>/<selection>/source` under the chosen
/// output folder (trimmed) where one is given, else under `selected` in the work folder.
pub open spec fn node_source_root_spec(work_dir: Seq<char>, key: Seq<char>, selection_id: Seq<char>, output_dir: Option<Seq<char>>) -> Seq<char> {
    let base = match output_dir {
        Some(o) => if trim_seq(o).len() > 0 {
            trim_seq(o)
        } else {
            join_name_spec(work_dir, "selected"@)
        },
        None => join_name_spec(work_dir, "selected"@),
    };
    join_name_spec(join_name_spec(join_name_spec(base, key), selection_id), "source"@)
}

/// `translated` beside the source folder, or inside it where it has no parent.
pub open spec fn node_translated_root_spec(source_root: Seq<char>) -> Seq<char> {
    match parent_spec(source_root) {
        Some(p) => join_name_spec(p, "translated"@),
        None => join_name_spec(source_root, "translated"@),
    }
}

/// The sheet a selection is translated in: under `translation_memory/<key>` in the work
/// folder, named by the selection and the target language.
pub open spec fn node_sheet_path_spec(work_dir: Seq<char>, key: Seq<char>, selection_id: Seq<char>, target_language: Seq<char>) -> Seq<char> {
    join_name_spec(
        join_name_spec(join_name_spec(work_dir, "translation_memory"@), key),
        selection_id + seq!['.'] + target_language + ".translation.json"@,
    )
}

pub fn node_work_layout(
    work_dir: &str,
    key: &str,
    selection_id: &str,
    output_dir: Option<&str>,
    target_language: &str,
) -> (r: NodeWorkLayout)
    ensures
        r.source_root@ == node_source_root_spec(work_dir@, key@, selection_id@, match output_dir {
            Some(o) => Some(o@),
            None => None,
        }),
        r.translated_root@ == node_translated_root_spec(r.source_root@),
        r.sheet_path@ == node_sheet_path_spec(work_dir@, key@, selection_id@, target_language@),
{
    let chosen: Option<Vec<char>> = match output_dir {
        Some(o) => {
            let t = trim(chars_of(o).as_slice());
            if t.len() > 0 {
                Some(t)
            } else {
                None
            }
        },
        None => None,
    };
    let base = match chosen {
        Some(t) => string_from(t.as_slice()),
        None => join_name_str(work_dir, "selected"),
    };
    let a = join_name_str(base.as_str(), key);
    let b = join_name_str(a.as_str(), selection_id);
    let source_root = join_name_str(b.as_str(), "source");
    let translated_root = match parent_chars(chars_of(source_root.as_str()).as_slice()) {
        Some(p) => join_name_str(string_from(p.as_slice()).as_str(), "translated"),
        None => join_name_str(source_root.as_str(), "translated"),
    };
    let m = join_name_str(work_dir, "translation_memory");
    let mk = join_name_str(m.as_str(), key);
    let mut name = chars_of(selection_id);
    name.push('.');
    push_all(&mut name, chars_of(target_language).as_slice());
    push_all(&mut name, chars_of(".translation.json").as_slice());
    assert(name@ =~= selection_id@ + seq!['.'] + target_language@ + ".translation.json"@);
    let name = string_from(name.as_slice());
    let sheet_path = join_name_str(mk.as_str(), name.as_str());
    NodeWorkLayout { source_root, translated_root, sheet_path }
}

/// Where a file found under a scan lands among the work files: its place inside the
/// `.pck.contents` folder, else its place under the scan root, else its file name, else
/// `fallback`.
pub open spec fn copy_relative_spec(scan_root: Seq<char>, path: Seq<char>, fallback: Seq<char>) -> Seq<char> {
    match pck_relative_spec(path) {
        Some(r) => r,
        None => match strip_prefix_spec(path, scan_root) {
            Some(r) => r,
            None => match file_name_spec(path) {
                Some(n) => n,
                None => fallback,
            },
        },
    }
}

fn copy_relative(scan_root: &str, path: &str, fallback: &str) -> (r: String)
    ensures
        r@ == copy_relative_spec(scan_root@, path@, fallback@),
{
    if let Some(r) = pck_resource_relative_path(path) {
        return r;
    }
    let p = chars_of(path);
    if let Some(r) = strip_prefix_chars(p.as_slice(), chars_of(scan_root).as_slice()) {
        return string_from(r.as_slice());
    }
    match file_name_exec(p.as_slice()) {
        Some(n) => string_from(n.as_slice()),
        None => fallback.to_string(),
    }
}

/// Where an extracted file is kept, relative to the extraction folder.
pub fn extract_relative_path(scan_root: &str, path: &str) -> (r: String)
    ensures
        r@ == copy_relative_spec(scan_root@, path@, "extracted"@),
{
    copy_relative(scan_root, path, "extracted")
}

/// Where a selected language file is copied, relative to the source folder.
pub fn node_copy_relative_path(scan_root: &str, path: &str) -> (r: String)
    ensures
        r@ == copy_relative_spec(scan_root@, path@, "translation.json"@),
{
    copy_relative(scan_root, path, "translation.json")
}

/// How an extracted file is shown: `res://` and its place inside the `.pck.contents`
/// folder, else its place under the scan root with `/` between components, else its path.
pub open spec fn extract_display_spec(scan_root: Seq<char>, path: Seq<char>) -> Seq<char> {
    match pck_relative_spec(path) {
        Some(rel) => res_prefix() + join_slash(components(rel)),
        None => match strip_prefix_spec(path, scan_root) {
            Some(rel) => if join_slash(components(rel)).len() > 0 {
                join_slash(components(rel))
            } else {
                path
            },
            None => path,
        },
    }
}

pub fn extract_display_path(scan_root: &str, path: &str) -> (r: String)
    ensures
        r@ == extract_display_spec(scan_root@, path@),
{
    if let Some(rel) = pck_resource_relative_path(path) {
        let slashed = slash_path(rel.as_str());
        let mut out = res_prefix_chars();
        push_all(&mut out, chars_of(slashed.as_str()).as_slice());
        return string_from(out.as_slice());
    }
    let p = chars_of(path);
    if let Some(rel) = strip_prefix_chars(p.as_slice(), chars_of(scan_root).as_slice()) {
        let slashed = slash_path(string_from(rel.as_slice()).as_str());
        if chars_of(slashed.as_str()).len() > 0 {
            return slashed;
        }
    }
    path.to_string()
}

/// Paths in the order `Path` compares them: component by component, a path before a longer
/// one that it begins.
pub open spec fn comps_lt(a: Seq<Seq<char>>, b: Seq<Seq<char>>) -> bool
    decreases a.len(),
{
    if a.len() == 0 {
        b.len() > 0
    } else if b.len() == 0 {
        false
    } else if a[0] != b[0] {
        lex_lt(a[0], b[0])
    } else {
        comps_lt(a.skip(1), b.skip(1))
    }
}

pub open spec fn path_lt(a: Seq<char>, b: Seq<char>) -> bool {
    comps_lt(components(a), components(b))
}

pub proof fn lemma_comps_total(a: Seq<Seq<char>>, b: Seq<Seq<char>>)
    ensures
        a == b || comps_lt(a, b) || comps_lt(b, a),
    decreases a.len(),
{
    if a.len() > 0 && b.len() > 0 && a[0] == b[0] {
        lemma_comps_total(a.skip(1), b.skip(1));
        if a.skip(1) == b.skip(1) {
            assert(a =~= seq![a[0]] + a.skip(1));
            assert(b =~= seq![b[0]] + b.skip(1));
        }
    } else if a.len() > 0 && b.len() > 0 {
        lemma_lex_total(a[0], b[0]);
    } else if a.len() == 0 && b.len() == 0 {
        assert(a =~= b);
    }
}

pub proof fn lemma_comps_transitive(a: Seq<Seq<char>>, b: Seq<Seq<char>>, c: Seq<Seq<char>>)
    requires
        comps_lt(a, b),
        comps_lt(b, c),
    ensures
        comps_lt(a, c),
    decreases a.len(),
{
    if a.len() > 0 && b.len() > 0 && c.len() > 0 {
        if a[0] == b[0] && b[0] == c[0] {
            lemma_comps_transitive(a.skip(1), b.skip(1), c.skip(1));
        } else if a[0] != b[0] && b[0] != c[0] {
            lemma_lex_transitive(a[0], b[0], c[0]);
            if a[0] == c[0] {
                lemma_lex_irreflexive(a[0]);
                crate::order::lemma_lex_asymmetric(a[0], b[0]);
            }
        }
    }
}

pub(crate) fn comps_lt_exec(a: &Vec<Vec<char>>, b: &Vec<Vec<char>>) -> (r: bool)
    ensures
        r == comps_lt(vv(a@), vv(b@)),
{
    let mut i: usize = 0;
    assert(vv(a@).skip(0) =~= vv(a@));
    assert(vv(b@).skip(0) =~= vv(b@));
    while i < a.len() && i < b.len() && crate::text::seq_eq(a[i].as_slice(), b[i].as_slice())
        invariant
            i <= a@.len(),
            i <= b@.len(),
            comps_lt(vv(a@), vv(b@)) == comps_lt(vv(a@).skip(i as int), vv(b@).skip(i as int)),
        decreases a.len() - i,
    {
        proof {
            let x = vv(a@).skip(i as int);
            let y = vv(b@).skip(i as int);
            assert(x[0] == a@[i as int]@);
            assert(y[0] == b@[i as int]@);
            assert(x.skip(1) =~= vv(a@).skip(i + 1));
            assert(y.skip(1) =~= vv(b@).skip(i + 1));
        }
        i += 1;
    }
    if i == a.len() {
        i < b.len()
    } else if i == b.len() {
        false
    } else {
        proof {
            assert(vv(a@).skip(i as int)[0] == a@[i as int]@);
            assert(vv(b@).skip(i as int)[0] == b@[i as int]@);
        }
        lex_lt_exec(a[i].as_slice(), b[i].as_slice())
    }
}

/// `i` is where a stable sort by path takes its first element from: no path comes before
/// it, and each one before it in the list comes after it.
pub open spec fn first_in_path_order(v: Seq<Seq<char>>, i: int) -> bool {
    &&& 0 <= i < v.len()
    &&& forall|j: int| 0 <= j < v.len() ==> !path_lt(#[trigger] v[j], v[i])
    &&& forall|j: int| 0 <= j < i ==> path_lt(v[i], #[trigger] v[j])
}

/// The path that sorting a non-empty list of paths puts first.
pub fn first_path_index(v: &Vec<String>) -> (r: usize)
    requires
        v@.len() > 0,
    ensures
        first_in_path_order(crate::order::strings_view(v@), r as int),
{
    let ghost sv = crate::order::strings_view(v@);
    let mut best: usize = 0;
    let mut best_comps = comps_of(chars_of(v[0].as_str()).as_slice());
    let mut j: usize = 1;
    proof {
        lemma_comps_irreflexive(components(sv[0]));
    }
    while j < v.len()
        invariant
            sv == crate::order::strings_view(v@),
            best < j <= v@.len(),
            vv(best_comps@) == components(sv[best as int]),
            forall|k: int| 0 <= k < j ==> !path_lt(#[trigger] sv[k], sv[best as int]),
            forall|k: int| 0 <= k < best ==> path_lt(sv[best as int], #[trigger] sv[k]),
        decreases v.len() - j,
    {
        let c = comps_of(chars_of(v[j].as_str()).as_slice());
        if comps_lt_exec(&c, &best_comps) {
            proof {
                let cj = components(sv[j as int]);
                let cb = components(sv[best as int]);
                assert forall|k: int| 0 <= k <= j implies !path_lt(#[trigger] sv[k], sv[j as int]) by {
                    if k == j as int {
                        lemma_comps_total(cj, cj);
                        assert(!comps_lt(cj, cj)) by {
                            lemma_comps_irreflexive(cj);
                        }
                    } else if path_lt(sv[k], sv[j as int]) {
                        lemma_comps_transitive(components(sv[k]), cj, cb);
                    }
                }
                assert forall|k: int| 0 <= k < j implies path_lt(sv[j as int], #[trigger] sv[k]) by {
                    let ck = components(sv[k]);
                    lemma_comps_total(cb, ck);
                    if comps_lt(cb, ck) {
                        lemma_comps_transitive(cj, cb, ck);
                    }
                }
            }
            best = j;
            best_comps = c;
        } else {
            assert(!path_lt(sv[j as int], sv[best as int]));
        }
        j += 1;
    }
    best
}

pub proof fn lemma_comps_irreflexive(a: Seq<Seq<char>>)
    ensures
        !comps_lt(a, a),
    decreases a.len(),
{
    if a.len() > 0 {
        lemma_comps_irreflexive(a.skip(1));
    }
}

pub open spec fn pck_contents_suffix_seq() -> Seq<char> {
    ".pck.contents"@
}

/// The pck a `.pck.contents` folder was unpacked from: the folder's name without that
/// suffix, or nothing.
pub open spec fn pck_stem_spec(contents_root: Option<Seq<char>>) -> Seq<char> {
    match contents_root {
        Some(root) => match file_name_spec(root) {
            Some(name) => if name.len() >= pck_contents_suffix_seq().len() && name.skip(
                name.len() - pck_contents_suffix_seq().len(),
            ) == pck_contents_suffix_seq() {
                name.take(name.len() - pck_contents_suffix_seq().len())
            } else {
                Seq::empty()
            },
            None => Seq::empty(),
        },
        None => Seq::empty(),
    }
}

pub fn pck_stem_of_contents_root(contents_root: Option<&str>) -> (r: String)
    ensures
        r@ == pck_stem_spec(match contents_root {
            Some(c) => Some(c@),
            None => None,
        }),
{
    let root = match contents_root {
        Some(c) => c,
        None => return String::new(),
    };
    let name = match file_name_exec(chars_of(root).as_slice()) {
        Some(n) => n,
        None => return String::new(),
    };
    let suffix = chars_of(".pck.contents");
    if !ends_with(name.as_slice(), suffix.as_slice()) {
        return String::new();
    }
    let keep = name.len() - suffix.len();
    let mut out: Vec<char> = Vec::new();
    let mut i: usize = 0;
    while i < keep
        invariant
            keep <= name@.len(),
            i <= keep,
            out@ == name@.take(i as int),
        decreases keep - i,
    {
        out.push(name[i]);
        i += 1;
        assert(out@ =~= name@.take(i as int));
    }
    string_from(out.as_slice())
}

/// What preparing a selection reports back.
pub struct NodeTranslationDto {
    pub message: String,
    pub source_path: String,
    pub existing_sheet_path: String,
    pub output_sheet_path: String,
    pub translated_output_path: String,
    pub copied_files: usize,
    pub mod_key: String,
    pub mod_path: String,
    pub mod_name: String,
    pub mod_version: String,
    pub mod_author: String,
    pub mod_description: String,
    pub available_languages: Vec<LanguagePreviewDto>,
    pub can_export_patch_mod: bool,
}

/// What was done while preparing a selection: the files copied into the source folder, the
/// folders and sheet used, and what was found of the mod.
pub struct NodePrepared {
    pub selected_resource_path: String,
    pub copied: Vec<String>,
    pub layout: NodeWorkLayout,
    pub existing_sheet_path: Option<String>,
    pub mod_key: String,
    pub mod_path: String,
    pub pck_stem: String,
    pub patch_target_pck_stem: Option<String>,
}

/// The file the translation tool works on: the one copied file, else the source folder.
pub open spec fn node_tool_source(copied: Seq<Seq<char>>, first: int, source_root: Seq<char>) -> Seq<char> {
    if copied.len() == 1 {
        copied[first]
    } else {
        source_root
    }
}

/// Where the tool writes: the one copied file's place under the source folder taken to the
/// translated folder (`translated.json` where it is not under it), else the translated folder.
pub open spec fn node_translated_output(copied: Seq<Seq<char>>, first: int, layout: &NodeWorkLayout) -> Seq<char> {
    if copied.len() == 1 {
        match strip_prefix_spec(copied[first], layout.source_root@) {
            Some(rel) => join_rel(layout.translated_root@, components(rel)),
            None => join_name_spec(layout.translated_root@, "translated.json"@),
        }
    } else {
        layout.translated_root@
    }
}

pub open spec fn node_message(p: &NodePrepared) -> Seq<char> {
    p.selected_resource_path@ + " 항목 추출 완료: "@ + dec_seq(p.copied@.len()) + "개 작업 파일 ("@
        + p.layout.source_root@ + ")"@
}

/// A patch mod can be exported when the selection came out of a pck, or its connected patch
/// did.
pub open spec fn can_export_spec(pck_stem: Seq<char>, patch_target_pck_stem: Option<Seq<char>>) -> bool {
    pck_stem.len() > 0 || (patch_target_pck_stem matches Some(s) && s.len() > 0)
}

pub open spec fn or_text(o: Option<String>, fallback: Seq<char>) -> Seq<char> {
    match o {
        Some(s) => s@,
        None => fallback,
    }
}

pub open spec fn node_dto_ok(p: &NodePrepared, manifest: &ModManifestInfo, languages: Seq<LanguagePreviewDto>, r: NodeTranslationDto) -> bool {
    let sv = crate::order::strings_view(p.copied@);
    exists|first: int|
        #![trigger first_in_path_order(sv, first)]
        first_in_path_order(sv, first) && r.source_path@ == node_tool_source(sv, first, p.layout.source_root@)
            && r.translated_output_path@ == node_translated_output(sv, first, &p.layout)
            && r.message@ == node_message(p) && r.existing_sheet_path@ == or_text(p.existing_sheet_path, Seq::empty())
            && r.output_sheet_path@ == p.layout.sheet_path@ && r.copied_files == p.copied@.len()
            && r.mod_key@ == p.mod_key@ && r.mod_path@ == p.mod_path@
            && r.mod_name@ == or_text(manifest.name, p.mod_key@) && r.mod_version@ == or_text(
            manifest.version,
            "-"@,
        ) && r.mod_author@ == or_text(manifest.author, Seq::empty()) && r.mod_description@ == or_text(
            manifest.description,
            Seq::empty(),
        ) && r.available_languages@ == languages && r.can_export_patch_mod == can_export_spec(
            p.pck_stem@,
            opt_view(p.patch_target_pck_stem),
        )
}

fn text_or(o: &Option<String>, fallback: &str) -> (r: String)
    ensures
        r@ == or_text(*o, fallback@),
{
    match o {
        Some(s) => s.clone(),
        None => fallback.to_string(),
    }
}

/// The report of a prepared selection; no file copied is an error.
pub fn node_translation_dto(p: NodePrepared, manifest: &ModManifestInfo, available_languages: Vec<LanguagePreviewDto>) -> (r: Result<
    NodeTranslationDto,
    String,
>)
    ensures
        match r {
            Ok(d) => p.copied@.len() > 0 && node_dto_ok(&p, manifest, available_languages@, d),
            Err(m) => p.copied@.len() == 0 && m@ == "복사된 언어 파일이 없습니다."@,
        },
{
    if p.copied.len() == 0 {
        return Err("복사된 언어 파일이 없습니다.".to_string());
    }
    let ghost sv = crate::order::strings_view(p.copied@);
    let first = first_path_index(&p.copied);
    let source_path = if p.copied.len() == 1 {
        p.copied[first].clone()
    } else {
        p.layout.source_root.clone()
    };
    let translated_output_path = if p.copied.len() == 1 {
        let fc = chars_of(p.copied[first].as_str());
        match strip_prefix_chars(fc.as_slice(), chars_of(p.layout.source_root.as_str()).as_slice()) {
            Some(rel) => {
                let rc = comps_of(rel.as_slice());
                join_rel_exec(p.layout.translated_root.as_str(), &rc)
            },
            None => join_name_str(p.layout.translated_root.as_str(), "translated.json"),
        }
    } else {
        p.layout.translated_root.clone()
    };
    let mut msg = chars_of(p.selected_resource_path.as_str());
    push_all(&mut msg, chars_of(" 항목 추출 완료: ").as_slice());
    let count = u64_text(p.copied.len() as u64);
    push_all(&mut msg, chars_of(count.as_str()).as_slice());
    push_all(&mut msg, chars_of("개 작업 파일 (").as_slice());
    push_all(&mut msg, chars_of(p.layout.source_root.as_str()).as_slice());
    push_all(&mut msg, chars_of(")").as_slice());
    let message = string_from(msg.as_slice());
    let can_export_patch_mod = chars_of(p.pck_stem.as_str()).len() > 0 || match &p.patch_target_pck_stem {
        Some(t) => chars_of(t.as_str()).len() > 0,
        None => false,
    };
    let d = NodeTranslationDto {
        message,
        source_path,
        existing_sheet_path: text_or(&p.existing_sheet_path, ""),
        output_sheet_path: p.layout.sheet_path.clone(),
        translated_output_path,
        copied_files: p.copied.len(),
        mod_key: p.mod_key.clone(),
        mod_path: p.mod_path.clone(),
        mod_name: text_or(&manifest.name, p.mod_key.as_str()),
        mod_version: text_or(&manifest.version, "-"),
        mod_author: text_or(&manifest.author, ""),
        mod_description: text_or(&manifest.description, ""),
        available_languages,
        can_export_patch_mod,
    };
    proof {
        assert(sv[first as int] == p.copied@[first as int]@);
        assert(first_in_path_order(sv, first as int));
        assert(d.source_path@ == node_tool_source(sv, first as int, p.layout.source_root@));
        assert(d.translated_output_path@ == node_translated_output(sv, first as int, &p.layout));
        assert(d.message@ == node_message(&p));
        assert(d.can_export_patch_mod == can_export_spec(p.pck_stem@, opt_view(p.patch_target_pck_stem)));
        reveal_strlit("");
        assert(""@ =~= Seq::<char>::empty());
    }
    Ok(d)
}

/// The order the PCK files of a folder are tried in: fewer path components first, then by
/// path.
pub open spec fn pck_before(a: Seq<char>, b: Seq<char>) -> bool {
    components(a).len() < components(b).len() || (components(a).len() == components(b).len()
        && path_lt(a, b))
}

/// The file's stem is `stem`, ignoring ASCII case.
pub open spec fn stem_is(p: Seq<char>, stem: Seq<char>) -> bool {
    match file_name_spec(p) {
        Some(n) => crate::text::lower_seq(crate::paths::stem_of(n)) == crate::text::lower_seq(stem),
        None => false,
    }
}

pub open spec fn pck_kept(p: Seq<char>, stem: Option<Seq<char>>) -> bool {
    match stem {
        Some(s) => stem_is(p, s),
        None => true,
    }
}

/// `i` is the first of the kept paths once they are sorted stably in `pck_before` order.
pub open spec fn first_pck_at(v: Seq<Seq<char>>, stem: Option<Seq<char>>, i: int) -> bool {
    &&& 0 <= i < v.len()
    &&& pck_kept(v[i], stem)
    &&& forall|j: int| 0 <= j < v.len() && pck_kept(v[j], stem) ==> !pck_before(#[trigger] v[j], v[i])
    &&& forall|j: int| 0 <= j < i && pck_kept(v[j], stem) ==> pck_before(v[i], #[trigger] v[j])
}

pub open spec fn some_kept(v: Seq<Seq<char>>, stem: Option<Seq<char>>) -> bool {
    exists|j: int| 0 <= j < v.len() && pck_kept(#[trigger] v[j], stem)
}

proof fn lemma_pck_transitive(a: Seq<char>, b: Seq<char>, c: Seq<char>)
    requires
        pck_before(a, b),
        pck_before(b, c),
    ensures
        pck_before(a, c),
{
    if components(a).len() == components(b).len() && components(b).len() == components(c).len() {
        lemma_comps_transitive(components(a), components(b), components(c));
    }
}

fn stem_matches(p: &[char], stem: &[char]) -> (r: bool)
    ensures
        r == stem_is(p@, stem@),
{
    match file_name_exec(p) {
        Some(n) => {
            let st = crate::paths::stem_exec(n.as_slice());
            crate::text::eq_ignore_case(st.as_slice(), stem)
        },
        None => false,
    }
}

fn first_pck_index(v: &Vec<String>, stem: Option<&str>) -> (r: Option<usize>)
    ensures
        match r {
            Some(i) => first_pck_at(crate::order::strings_view(v@), opt_str(stem), i as int),
            None => !some_kept(crate::order::strings_view(v@), opt_str(stem)),
        },
{
    let ghost sv = crate::order::strings_view(v@);
    let ghost st = opt_str(stem);
    let sc: Option<Vec<char>> = match stem {
        Some(s) => Some(chars_of(s)),
        None => None,
    };
    let mut best: Option<usize> = None;
    let mut best_comps: Vec<Vec<char>> = Vec::new();
    let mut j: usize = 0;
    while j < v.len()
        invariant
            sv == crate::order::strings_view(v@),
            st == opt_str(stem),
            match sc {
                Some(c) => st == Some(c@),
                None => st is None,
            },
            j <= v@.len(),
            match best {
                Some(b) => {
                    &&& b < j
                    &&& pck_kept(sv[b as int], st)
                    &&& vv(best_comps@) == components(sv[b as int])
                    &&& forall|k: int| 0 <= k < j && pck_kept(sv[k], st) ==> !pck_before(#[trigger] sv[k], sv[b as int])
                    &&& forall|k: int| 0 <= k < b && pck_kept(sv[k], st) ==> pck_before(sv[b as int], #[trigger] sv[k])
                },
                None => forall|k: int| 0 <= k < j ==> !pck_kept(#[trigger] sv[k], st),
            },
        decreases v.len() - j,
    {
        let p = chars_of(v[j].as_str());
        assert(p@ == sv[j as int]);
        let keep = match &sc {
            Some(c) => stem_matches(p.as_slice(), c.as_slice()),
            None => true,
        };
        if keep {
            let c = comps_of(p.as_slice());
            proof {
                assert(vv(c@).len() == c@.len());
            }
            let take = match best {
                None => true,
                Some(_) => {
                    proof {
                        assert(vv(best_comps@).len() == best_comps@.len());
                    }
                    c.len() < best_comps.len() || (c.len() == best_comps.len() && comps_lt_exec(&c, &best_comps))
                },
            };
            proof {
                if let Some(b) = best {
                    assert(take == pck_before(sv[j as int], sv[b as int]));
                }
            }
            if take {
                proof {
                    let cj = sv[j as int];
                    lemma_comps_irreflexive(components(cj));
                    match best {
                        Some(b) => {
                            let cb = sv[b as int];
                            assert forall|k: int| 0 <= k <= j && pck_kept(sv[k], st) implies !pck_before(#[trigger] sv[k], cj) by {
                                if k < j && pck_before(sv[k], cj) {
                                    lemma_pck_transitive(sv[k], cj, cb);
                                }
                            }
                            assert forall|k: int| 0 <= k < j && pck_kept(sv[k], st) implies pck_before(cj, #[trigger] sv[k]) by {
                                let ck = sv[k];
                                lemma_comps_total(components(cb), components(ck));
                                if pck_before(cb, ck) {
                                    lemma_pck_transitive(cj, cb, ck);
                                }
                            }
                        },
                        None => {},
                    }
                }
                best = Some(j);
                best_comps = c;
            }
        }
        j += 1;
    }
    proof {
        if best is None {
            assert forall|k: int| 0 <= k < sv.len() implies !pck_kept(#[trigger] sv[k], st) by {}
        }
    }
    best
}

pub open spec fn opt_str(s: Option<&str>) -> Option<Seq<char>> {
    match s {
        Some(x) => Some(x@),
        None => None,
    }
}

/// The PCK to use among those found: with a preferred stem, the first (in `pck_before`
/// order) whose stem is it, ignoring case; where none is, or no stem is given, the first
/// of all. `None` where there is no PCK.
pub fn preferred_pck_from_candidates(pcks: &Vec<String>, preferred_stem: Option<&str>) -> (r: Option<String>)
    ensures
        match r {
            None => pcks@.len() == 0,
            Some(p) => {
                let sv = crate::order::strings_view(pcks@);
                if some_kept(sv, opt_str(preferred_stem)) {
                    exists|i: int| first_pck_at(sv, opt_str(preferred_stem), i) && sv[i] == p@
                } else {
                    exists|i: int| first_pck_at(sv, None, i) && sv[i] == p@
                }
            },
        },
{
    let ghost sv = crate::order::strings_view(pcks@);
    if preferred_stem.is_some() {
        match first_pck_index(pcks, preferred_stem) {
            Some(i) => {
                return Some(pcks[i].clone());
            },
            None => {},
        }
    }
    match first_pck_index(pcks, None) {
        Some(i) => {
            proof {
                if preferred_stem is None {
                    assert(opt_str(preferred_stem) is None);
                }
            }
            Some(pcks[i].clone())
        },
        None => {
            proof {
                if pcks@.len() > 0 {
                    assert(pck_kept(sv[0], None));
                }
            }
            None
        },
    }
}

} // verus!
