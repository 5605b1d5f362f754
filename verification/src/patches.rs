//! Translation patch mods: which mods are patches, which language and which mod a patch is
//! for, and where a patch's files for a selected resource are found.
use vstd::prelude::*;
use crate::text::{
    chars_of, string_from, trim, trim_seq, starts_with, seq_eq, split_by, split_by_seq, lemma_split_by_nonempty,
    ends_with,
};
use crate::model::{ModRecord, ModManifestInfo, keys_set};
use crate::rows::{normalize_dependency_token, dep_token_spec};
use crate::language::{normalize_language_code, normalize_language_code_spec};
use crate::order::{sort_dedup, strictly_sorted, strings_view};
use crate::paths::{
    pck_relative_spec, pck_resource_relative_path, strip_prefix_spec, strip_prefix_chars, file_name_spec, file_name_exec,
    replace_language_spec, replace_resource_language, ext_is, stem_of, stem_exec,
};
use crate::text::cat;
use crate::roots::opt_view;

verus! {

broadcast use vstd::string::group_string_axioms;

/// A manifest that declares a translation patch: by its flag, a target mod, or target
/// languages.
pub open spec fn is_patch_manifest_spec(m: &ModManifestInfo) -> bool {
    ||| m.is_translation_patch
    ||| m.target_mod_id is Some
    ||| m.target_mod_name is Some
    ||| m.target_languages@.len() > 0
}

pub fn is_translation_patch_manifest(manifest: &ModManifestInfo) -> (r: bool)
    ensures
        r == is_patch_manifest_spec(manifest),
{
    manifest.is_translation_patch || manifest.target_mod_id.is_some() || manifest.target_mod_name.is_some()
        || manifest.target_languages.len() > 0
}

/// A patch with no target languages fits every language; else one of them must name the
/// same language as `target_language`.
pub open spec fn patch_language_spec(m: &ModManifestInfo, target_language: Seq<char>) -> bool {
    m.target_languages@.len() == 0 || exists|i: int|
        0 <= i < m.target_languages@.len() && normalize_language_code_spec(#[trigger] m.target_languages@[i]@)
            == normalize_language_code_spec(target_language)
}

pub fn translation_patch_matches_language(manifest: &ModManifestInfo, target_language: &str) -> (r: bool)
    ensures
        r == patch_language_spec(manifest, target_language@),
{
    if manifest.target_languages.len() == 0 {
        return true;
    }
    let want = normalize_language_code(target_language);
    let w = chars_of(want.as_str());
    let mut i: usize = 0;
    while i < manifest.target_languages.len()
        invariant
            i <= manifest.target_languages@.len(),
            w@ == normalize_language_code_spec(target_language@),
            forall|j: int| 0 <= j < i ==> normalize_language_code_spec(#[trigger] manifest.target_languages@[j]@) != w@,
        decreases manifest.target_languages.len() - i,
    {
        let got = normalize_language_code(manifest.target_languages[i].as_str());
        if seq_eq(chars_of(got.as_str()).as_slice(), w.as_slice()) {
            return true;
        }
        i += 1;
    }
    false
}

/// How a patch is named in messages: its manifest name unless blank, else its key.
pub open spec fn patch_label_spec(record: &ModRecord, m: &ModManifestInfo) -> Seq<char> {
    match m.name {
        Some(n) => if trim_seq(n@).len() > 0 {
            n@
        } else {
            record.key@
        },
        None => record.key@,
    }
}

pub fn translation_patch_label(record: &ModRecord, manifest: &ModManifestInfo) -> (r: String)
    ensures
        r@ == patch_label_spec(record, manifest),
{
    match &manifest.name {
        Some(n) => {
            if trim(chars_of(n.as_str()).as_slice()).len() > 0 {
                n.clone()
            } else {
                record.key.clone()
            }
        },
        None => record.key.clone(),
    }
}

pub open spec fn key_separators() -> Seq<char> {
    seq!['-', '_', ' ']
}

/// The names a mod goes by, as tokens: its key, its name, its manifest's id and name, and
/// its key up to the first `-`, `_` or space.
pub open spec fn match_token_sources(record: &ModRecord, m: &ModManifestInfo) -> Seq<Seq<char>> {
    let a = seq![record.key@, record.name@];
    let b = match m.id {
        Some(id) => a.push(id@),
        None => a,
    };
    let c = match m.name {
        Some(n) => b.push(n@),
        None => b,
    };
    c.push(split_by_seq(record.key@, key_separators())[0])
}

/// The non-empty tokens of some names.
pub open spec fn token_set(names: Seq<Seq<char>>) -> Set<Seq<char>> {
    Set::new(|t: Seq<char>| t.len() > 0 && exists|i: int| 0 <= i < names.len() && dep_token_spec(#[trigger] names[i]) == t)
}

/// Tokens of `names` that are not empty, in the order given.
fn nonempty_tokens(names: &Vec<String>) -> (r: Vec<String>)
    ensures
        keys_set(r@) == token_set(strings_view(names@)),
{
    let ghost nv = strings_view(names@);
    let mut out: Vec<String> = Vec::new();
    let mut i: usize = 0;
    while i < names.len()
        invariant
            i <= names@.len(),
            nv == strings_view(names@),
            keys_set(out@) == token_set(nv.take(i as int)),
        decreases names.len() - i,
    {
        let t = normalize_dependency_token(names[i].as_str());
        let ghost before = out@;
        let keep = chars_of(t.as_str()).len() > 0;
        if keep {
            out.push(t);
        }
        proof {
            let nt = nv.take(i + 1);
            assert(nt[i as int] == names@[i as int]@);
            assert(keys_set(out@) =~= token_set(nt)) by {
                assert forall|x: Seq<char>| keys_set(out@).contains(x) implies token_set(nt).contains(x) by {
                    let j = choose|j: int| 0 <= j < out@.len() && (#[trigger] out@[j])@ == x;
                    if j < before.len() {
                        assert(out@[j] == before[j]);
                        assert(keys_set(before).contains(x));
                        let k = choose|k: int| 0 <= k < nv.take(i as int).len() && dep_token_spec(#[trigger] nv.take(i as int)[k]) == x;
                        assert(nt[k] == nv.take(i as int)[k]);
                    } else {
                        assert(dep_token_spec(nt[i as int]) == x);
                    }
                }
                assert forall|x: Seq<char>| token_set(nt).contains(x) implies keys_set(out@).contains(x) by {
                    let k = choose|k: int| 0 <= k < nt.len() && dep_token_spec(#[trigger] nt[k]) == x;
                    if k < i {
                        assert(nv.take(i as int)[k] == nt[k]);
                        assert(token_set(nv.take(i as int)).contains(x));
                        let j = choose|j: int| 0 <= j < before.len() && (#[trigger] before[j])@ == x;
                        assert(out@[j] == before[j]);
                    } else {
                        assert(out@[out@.len() - 1]@ == x);
                    }
                }
            }
        }
        i += 1;
    }
    assert(nv.take(i as int) =~= nv);
    out
}

/// The tokens a mod is matched by, sorted and each once.
pub fn translation_match_tokens(record: &ModRecord, manifest: &ModManifestInfo) -> (r: Vec<String>)
    ensures
        strictly_sorted(strings_view(r@)),
        keys_set(r@) == token_set(match_token_sources(record, manifest)),
{
    let mut names: Vec<String> = Vec::new();
    names.push(record.key.clone());
    names.push(record.name.clone());
    if let Some(id) = &manifest.id {
        names.push(id.clone());
    }
    if let Some(n) = &manifest.name {
        names.push(n.clone());
    }
    let seps = vec!['-', '_', ' '];
    let parts = split_by(chars_of(record.key.as_str()).as_slice(), seps.as_slice());
    proof {
        assert(seps@ =~= key_separators());
        lemma_split_by_nonempty(record.key@, key_separators());
    }
    names.push(string_from(parts[0].as_slice()));
    assert(strings_view(names@) =~= match_token_sources(record, manifest));
    let tokens = nonempty_tokens(&names);
    sort_dedup(tokens)
}

/// The mod a patch names: its target id and name, its dependencies, and its key without a
/// trailing `_tr`.
pub open spec fn patch_target_sources(patch: &ModRecord, m: &ModManifestInfo) -> Seq<Seq<char>> {
    let a = match m.target_mod_id {
        Some(id) => seq![id@],
        None => Seq::empty(),
    };
    let b = match m.target_mod_name {
        Some(n) => a.push(n@),
        None => a,
    };
    let c = b + Seq::new(m.dependencies@.len(), |i: int| m.dependencies@[i].id@);
    let k = patch.key@;
    if k.len() >= 3 && k.skip(k.len() - 3) == "_tr"@ {
        c.push(k.take(k.len() - 3))
    } else {
        c
    }
}

/// A patch is for a mod when one of the patch's target tokens begins one of the mod's tokens.
pub open spec fn patch_targets_spec(patch: &ModRecord, pm: &ModManifestInfo, base: &ModRecord, bm: &ModManifestInfo) -> bool {
    exists|t: Seq<char>, b: Seq<char>|
        #![trigger token_set(patch_target_sources(patch, pm)).contains(t), token_set(match_token_sources(base, bm)).contains(b)]
        token_set(patch_target_sources(patch, pm)).contains(t) && token_set(match_token_sources(base, bm)).contains(b)
            && t.len() <= b.len() && b.take(t.len() as int) == t
}

pub fn translation_patch_targets_base(
    patch_record: &ModRecord,
    patch_manifest: &ModManifestInfo,
    base_record: &ModRecord,
    base_manifest: &ModManifestInfo,
) -> (r: bool)
    ensures
        r == patch_targets_spec(patch_record, patch_manifest, base_record, base_manifest),
{
    let base_tokens = translation_match_tokens(base_record, base_manifest);
    let mut names: Vec<String> = Vec::new();
    if let Some(id) = &patch_manifest.target_mod_id {
        names.push(id.clone());
    }
    if let Some(n) = &patch_manifest.target_mod_name {
        names.push(n.clone());
    }
    let ghost head = strings_view(names@);
    let mut d: usize = 0;
    while d < patch_manifest.dependencies.len()
        invariant
            d <= patch_manifest.dependencies@.len(),
            strings_view(names@) == head + Seq::new(d as nat, |i: int| patch_manifest.dependencies@[i].id@),
        decreases patch_manifest.dependencies.len() - d,
    {
        let ghost before = strings_view(names@);
        names.push(patch_manifest.dependencies[d].id.clone());
        assert(strings_view(names@) =~= before.push(patch_manifest.dependencies@[d as int].id@));
        assert(Seq::new((d + 1) as nat, |i: int| patch_manifest.dependencies@[i].id@) =~= Seq::new(
            d as nat,
            |i: int| patch_manifest.dependencies@[i].id@,
        ).push(patch_manifest.dependencies@[d as int].id@));
        d += 1;
    }
    assert(Seq::new(d as nat, |i: int| patch_manifest.dependencies@[i].id@) =~= Seq::new(
        patch_manifest.dependencies@.len(),
        |i: int| patch_manifest.dependencies@[i].id@,
    ));
    let ghost mid = strings_view(names@);
    let k = chars_of(patch_record.key.as_str());
    let suffix = chars_of("_tr");
    proof {
        reveal_strlit("_tr");
    }
    if ends_with(k.as_slice(), suffix.as_slice()) {
        let mut stem: Vec<char> = Vec::new();
        let mut i: usize = 0;
        while i < k.len() - suffix.len()
            invariant
                suffix@.len() <= k@.len(),
                i <= k@.len() - suffix@.len(),
                stem@ == k@.take(i as int),
            decreases k.len() - suffix.len() - i,
        {
            stem.push(k[i]);
            i += 1;
            assert(stem@ =~= k@.take(i as int));
        }
        names.push(string_from(stem.as_slice()));
        assert(strings_view(names@) =~= mid.push(k@.take(k@.len() - 3)));
    } else {
        assert(strings_view(names@) =~= mid);
    }
    proof {
        let a: Seq<Seq<char>> = match &patch_manifest.target_mod_id {
            Some(id) => seq![id@],
            None => Seq::empty(),
        };
        assert(head =~= match &patch_manifest.target_mod_name {
            Some(n) => a.push(n@),
            None => a,
        });
        assert(strings_view(names@) =~= patch_target_sources(patch_record, patch_manifest));
    }
    let targets = nonempty_tokens(&names);
    let mut i: usize = 0;
    while i < targets.len()
        invariant
            i <= targets@.len(),
            keys_set(targets@) == token_set(patch_target_sources(patch_record, patch_manifest)),
            keys_set(base_tokens@) == token_set(match_token_sources(base_record, base_manifest)),
            forall|x: int, y: int|
                0 <= x < i && 0 <= y < base_tokens@.len() ==> !(#[trigger] targets@[x]@.len() <= (#[trigger] base_tokens@[y])@.len()
                    && base_tokens@[y]@.take(targets@[x]@.len() as int) == targets@[x]@),
        decreases targets.len() - i,
    {
        let t = chars_of(targets[i].as_str());
        let mut j: usize = 0;
        while j < base_tokens.len()
            invariant
                i < targets@.len(),
                j <= base_tokens@.len(),
                keys_set(targets@) == token_set(patch_target_sources(patch_record, patch_manifest)),
                keys_set(base_tokens@) == token_set(match_token_sources(base_record, base_manifest)),
                t@ == targets@[i as int]@,
                forall|y: int| 0 <= y < j ==> !(t@.len() <= (#[trigger] base_tokens@[y])@.len() && base_tokens@[y]@.take(t@.len() as int) == t@),
            decreases base_tokens.len() - j,
        {
            if starts_with(chars_of(base_tokens[j].as_str()).as_slice(), t.as_slice()) {
                proof {
                    let tt = targets@[i as int]@;
                    let bb = base_tokens@[j as int]@;
                    assert(keys_set(targets@).contains(tt));
                    assert(keys_set(base_tokens@).contains(bb));
                    assert(token_set(patch_target_sources(patch_record, patch_manifest)).contains(tt));
                    assert(token_set(match_token_sources(base_record, base_manifest)).contains(bb));
                }
                return true;
            }
            j += 1;
        }
        i += 1;
    }
    proof {
        assert forall|t: Seq<char>, b: Seq<char>|
            token_set(patch_target_sources(patch_record, patch_manifest)).contains(t) && token_set(
                match_token_sources(base_record, base_manifest),
            ).contains(b) implies !(t.len() <= b.len() && b.take(t.len() as int) == t) by {
            assert(keys_set(targets@).contains(t));
            assert(keys_set(base_tokens@).contains(b));
            let x = choose|x: int| 0 <= x < targets@.len() && (#[trigger] targets@[x])@ == t;
            let y = choose|y: int| 0 <= y < base_tokens@.len() && (#[trigger] base_tokens@[y])@ == b;
            assert(!(targets@[x]@.len() <= base_tokens@[y]@.len() && base_tokens@[y]@.take(targets@[x]@.len() as int)
                == targets@[x]@));
        }
    }
    false
}

/// Where the target-language version of a selected file would be: the file's place (inside
/// the `.pck.contents` folder, under the scan root, or its name) with the language folder
/// under `localization` replaced.
pub open spec fn target_language_relative_spec(scan_root: Seq<char>, source_file: Seq<char>, language: Seq<char>) -> Option<
    Seq<char>,
> {
    let rel = match pck_relative_spec(source_file) {
        Some(r) => Some(r),
        None => match strip_prefix_spec(source_file, scan_root) {
            Some(r) => Some(r),
            None => file_name_spec(source_file),
        },
    };
    match rel {
        Some(r) => replace_language_spec(r, language),
        None => None,
    }
}

pub fn target_language_relative_path(scan_root: &str, source_file: &str, target_language: &str) -> (r: Option<String>)
    ensures
        match r {
            Some(p) => target_language_relative_spec(scan_root@, source_file@, target_language@) == Some(p@),
            None => target_language_relative_spec(scan_root@, source_file@, target_language@) is None,
        },
{
    let rel = match pck_resource_relative_path(source_file) {
        Some(r) => r,
        None => {
            let p = chars_of(source_file);
            match strip_prefix_chars(p.as_slice(), chars_of(scan_root).as_slice()) {
                Some(r) => string_from(r.as_slice()),
                None => match file_name_exec(p.as_slice()) {
                    Some(n) => string_from(n.as_slice()),
                    None => return None,
                },
            }
        },
    };
    replace_resource_language(rel.as_str(), target_language)
}

/// The error when a second patch would also supply files: both patches are named, the first
/// as `이전 번역 모드` where it has no label.
pub open spec fn patch_conflict_spec(previous: Option<Seq<char>>, label: Seq<char>) -> Seq<char> {
    "연결된 번역 모드가 여러 개라 자동 적용 대상을 정할 수 없습니다: "@ + match previous {
        Some(p) => p,
        None => "이전 번역 모드"@,
    } + ", "@ + label + ". 하나만 남기거나 번역 모드로 내보내기를 사용해 주세요."@
}

/// Whether a patch with target files may be copied: only while no earlier patch supplied
/// any (`copied_files` counts those).
pub fn connected_patch_conflict(copied_files: usize, previous_label: &Option<String>, label: &str) -> (r: Option<String>)
    ensures
        copied_files == 0 ==> r is None,
        copied_files > 0 ==> opt_view(r) == Some(patch_conflict_spec(opt_view(*previous_label), label@)),
{
    if copied_files == 0 {
        return None;
    }
    let prev = match previous_label {
        Some(p) => p.clone(),
        None => "이전 번역 모드".to_string(),
    };
    let a = cat("연결된 번역 모드가 여러 개라 자동 적용 대상을 정할 수 없습니다: ", prev.as_str());
    let b = cat(a.as_str(), ", ");
    let c = cat(b.as_str(), label);
    Some(cat(c.as_str(), ". 하나만 남기거나 번역 모드로 내보내기를 사용해 주세요."))
}

/// Where a connected patch's files are applied from: the patch's source, and the PCK it
/// packs them as.
pub struct TranslationPatchApplyTarget {
    pub source_path: String,
    pub pck_stem: Option<String>,
}

/// A folder name without its `.pck.contents` ending (matched exactly).
pub open spec fn strip_contents_suffix(name: Seq<char>) -> Option<Seq<char>> {
    if name.len() >= 13 && name.skip(name.len() - 13) == ".pck.contents"@ {
        Some(name.take(name.len() - 13))
    } else {
        None
    }
}

/// The first unpacked PCK folder whose name ends in `.pck.contents`, without that ending.
pub open spec fn roots_stem(roots: Seq<Seq<char>>) -> Option<Seq<char>>
    decreases roots.len(),
{
    if roots.len() == 0 {
        None
    } else {
        match file_name_spec(roots[0]) {
            Some(n) => match strip_contents_suffix(n) {
                Some(x) => Some(x),
                None => roots_stem(roots.skip(1)),
            },
            None => roots_stem(roots.skip(1)),
        }
    }
}

/// The PCK a patch's files go into: a PCK source's own stem, else the name of the first
/// unpacked PCK folder of its scan root.
pub open spec fn pck_stem_spec(source: Seq<char>, roots: Seq<Seq<char>>) -> Option<Seq<char>> {
    if ext_is(source, "pck"@) || ext_is(source, "pak"@) {
        match file_name_spec(source) {
            Some(n) => Some(stem_of(n)),
            None => None,
        }
    } else {
        roots_stem(roots)
    }
}

fn strip_contents_suffix_exec(name: &[char]) -> (r: Option<String>)
    ensures
        opt_view(r) == strip_contents_suffix(name@),
{
    let suffix = chars_of(".pck.contents");
    proof {
        reveal_strlit(".pck.contents");
    }
    if name.len() >= 13 && ends_with(name, suffix.as_slice()) {
        assert(name@.skip(name@.len() - 13) =~= ".pck.contents"@);
        let head = string_from(vstd::slice::slice_subrange(name, 0, name.len() - 13));
        assert(head@ =~= name@.take(name@.len() - 13));
        Some(head)
    } else {
        if name.len() >= 13 {
            assert(!(name@.skip(name@.len() - 13) == ".pck.contents"@));
        }
        None
    }
}

/// The apply target of a connected patch from its source and the unpacked PCK folders of
/// its scan root (in path order).
pub fn translation_patch_apply_target(patch_source: &str, resource_roots: &Vec<String>) -> (r: TranslationPatchApplyTarget)
    ensures
        r.source_path@ == patch_source@,
        opt_view(r.pck_stem) == pck_stem_spec(patch_source@, strings_view(resource_roots@)),
{
    if crate::model::is_pck_path(patch_source) {
        let stem = match file_name_exec(chars_of(patch_source).as_slice()) {
            Some(n) => Some(string_from(stem_exec(n.as_slice()).as_slice())),
            None => None,
        };
        return TranslationPatchApplyTarget { source_path: patch_source.to_string(), pck_stem: stem };
    }
    let ghost rs = strings_view(resource_roots@);
    let mut i: usize = 0;
    assert(rs.skip(0) =~= rs);
    while i < resource_roots.len()
        invariant
            i <= resource_roots@.len(),
            rs == strings_view(resource_roots@),
            roots_stem(rs) == roots_stem(rs.skip(i as int)),
            !(ext_is(patch_source@, "pck"@) || ext_is(patch_source@, "pak"@)),
        decreases resource_roots.len() - i,
    {
        let ghost rest = rs.skip(i as int);
        assert(rest[0] == resource_roots@[i as int]@);
        assert(rest.skip(1) =~= rs.skip(i + 1));
        if let Some(n) = file_name_exec(chars_of(resource_roots[i].as_str()).as_slice()) {
            if let Some(x) = strip_contents_suffix_exec(n.as_slice()) {
                assert(roots_stem(rest) == Some(x@));
                return TranslationPatchApplyTarget { source_path: patch_source.to_string(), pck_stem: Some(x) };
            }
        }
        i += 1;
    }
    assert(rs.skip(i as int).len() == 0);
    TranslationPatchApplyTarget { source_path: patch_source.to_string(), pck_stem: None }
}

/// What copying a connected patch gave: the files copied, the patch they came from and
/// where they are applied from.
pub struct ConnectedTranslationPatchCopy {
    pub files: usize,
    pub patch_label: Option<String>,
    pub apply_target: Option<TranslationPatchApplyTarget>,
}

/// A report names a patch and an apply target exactly when it holds copied files.
pub open spec fn copy_report_wf(r: ConnectedTranslationPatchCopy) -> bool {
    &&& (r.files > 0) == (r.patch_label is Some)
    &&& (r.files > 0) == (r.apply_target is Some)
}

/// The report before any patch was looked at.
pub fn empty_patch_copy() -> (r: ConnectedTranslationPatchCopy)
    ensures
        r.files == 0 && r.patch_label is None && r.apply_target is None,
        copy_report_wf(r),
{
    ConnectedTranslationPatchCopy { files: 0, patch_label: None, apply_target: None }
}

/// Records a patch's copies, made after `connected_patch_conflict` let it through (so no
/// file was copied before): `copied` files came from the patch `label`, applied from
/// `target`. Nothing changes where none was copied.
pub fn record_patch_copies(
    report: &mut ConnectedTranslationPatchCopy,
    copied: usize,
    label: String,
    target: TranslationPatchApplyTarget,
)
    requires
        old(report).files == 0,
    ensures
        final(report).files == copied,
        copied > 0 ==> final(report).patch_label == Some(label) && final(report).apply_target == Some(target),
        copied == 0 ==> *final(report) == *old(report),
        copy_report_wf(*old(report)) ==> copy_report_wf(*final(report)),
{
    if copied > 0 {
        report.files = copied;
        report.patch_label = Some(label);
        report.apply_target = Some(target);
    }
}

} // verus!
