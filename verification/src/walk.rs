//! Searches over a folder tree as a walk of the disk found it: files by extension, and the
//! PCK packages it holds.
use vstd::prelude::*;
use crate::text::{chars_of, lower_seq, eq_ignore_case, ends_with};
use crate::paths::{extension_spec, path_extension, ext_is, comps_of, components, vv};
use crate::model::{is_pck_path, ModKind, classify_spec, classify_dropped_mod_path, supported_positions, enters, split_dropped_step, DropStep};
use crate::cache::FsNode;
use crate::order::strings_view;
use crate::node::{path_lt, comps_lt_exec};

verus! {

broadcast use vstd::string::group_string_axioms;

/// The path's extension is `ext`, ignoring ASCII case.
pub open spec fn ext_matches(p: Seq<char>, ext: Seq<char>) -> bool {
    match extension_spec(p) {
        Some(x) => lower_seq(x) == lower_seq(ext),
        None => false,
    }
}

fn ext_matches_exec(p: &str, ext: &[char]) -> (r: bool)
    ensures
        r == ext_matches(p@, ext@),
{
    let pc = chars_of(p);
    match path_extension(pc.as_slice()) {
        Some(x) => eq_ignore_case(x.as_slice(), ext),
        None => false,
    }
}

/// The files below a node (or the node itself) with the extension, in walk order.
pub open spec fn files_with_ext(n: FsNode, ext: Seq<char>) -> Seq<Seq<char>>
    decreases n, 0nat,
{
    if n.is_file {
        if ext_matches(n.path@, ext) {
            seq![n.path@]
        } else {
            Seq::empty()
        }
    } else if n.is_dir {
        files_with_ext_list(n.children@, ext)
    } else {
        Seq::empty()
    }
}

pub open spec fn files_with_ext_list(c: Seq<FsNode>, ext: Seq<char>) -> Seq<Seq<char>>
    decreases c, 1nat,
{
    if c.len() == 0 {
        Seq::empty()
    } else {
        files_with_ext_list(c.drop_last(), ext) + files_with_ext(c[c.len() - 1], ext)
    }
}

fn collect_ext(node: &FsNode, ext: &[char], out: &mut Vec<String>)
    ensures
        strings_view(final(out)@) == strings_view(old(out)@) + files_with_ext(*node, ext@),
    decreases node,
{
    if node.is_file {
        if ext_matches_exec(node.path.as_str(), ext) {
            out.push(node.path.clone());
            assert(strings_view(out@) =~= strings_view(old(out)@) + seq![node.path@]);
        } else {
            assert(strings_view(out@) =~= strings_view(old(out)@) + Seq::<Seq<char>>::empty());
        }
        return;
    }
    if !node.is_dir {
        assert(strings_view(out@) =~= strings_view(old(out)@) + Seq::<Seq<char>>::empty());
        return;
    }
    let ghost start = strings_view(out@);
    let mut i: usize = 0;
    assert(start + files_with_ext_list(node.children@.take(0), ext@) =~= start);
    while i < node.children.len()
        invariant
            i <= node.children@.len(),
            strings_view(out@) == start + files_with_ext_list(node.children@.take(i as int), ext@),
        decreases node.children.len() - i,
    {
        proof {
            let t = node.children@.take(i + 1);
            assert(t.drop_last() =~= node.children@.take(i as int));
            assert(t[t.len() - 1] == node.children@[i as int]);
            assert(decreases_to!(node => node.children));
        }
        let ghost before = strings_view(out@);
        collect_ext(&node.children[i], ext, out);
        i += 1;
        proof {
            assert(strings_view(out@) =~= start + files_with_ext_list(node.children@.take(i as int), ext@));
        }
    }
    assert(node.children@.take(i as int) =~= node.children@);
}

/// Adds the files below `node` (or `node` itself) whose extension is `extension`, ignoring
/// case, in walk order.
pub fn collect_files_with_extension(node: &FsNode, extension: &str, output: &mut Vec<String>)
    ensures
        strings_view(final(output)@) == strings_view(old(output)@) + files_with_ext(*node, extension@),
{
    let e = chars_of(extension);
    collect_ext(node, e.as_slice(), output);
}

/// How many files below `node` have the extension.
pub fn count_files_with_extension(node: &FsNode, extension: &str) -> (r: usize)
    ensures
        r == files_with_ext(*node, extension@).len(),
{
    let mut files: Vec<String> = Vec::new();
    collect_files_with_extension(node, extension, &mut files);
    proof {
        assert(strings_view(files@).len() == files@.len());
    }
    files.len()
}

pub open spec fn is_pck_spec(p: Seq<char>) -> bool {
    ext_is(p, "pck"@) || ext_is(p, "pak"@)
}

/// An unpacked PCK folder, which the searches do not enter.
pub open spec fn is_contents_name(name: Seq<char>) -> bool {
    name.len() >= 13 && name.skip(name.len() - 13) == ".pck.contents"@
}

pub(crate) fn is_contents_name_exec(name: &str) -> (r: bool)
    ensures
        r == is_contents_name(name@),
{
    let n = chars_of(name);
    let s = chars_of(".pck.contents");
    proof {
        reveal_strlit(".pck.contents");
    }
    ends_with(n.as_slice(), s.as_slice())
}

/// The PCK files below a node, in walk order; with `skip_contents`, unpacked PCK folders
/// are not entered.
pub open spec fn pck_files(n: FsNode, skip_contents: bool) -> Seq<Seq<char>>
    decreases n, 0nat,
{
    if n.is_file {
        if is_pck_spec(n.path@) {
            seq![n.path@]
        } else {
            Seq::empty()
        }
    } else if !n.is_dir || (skip_contents && is_contents_name(n.name@)) {
        Seq::empty()
    } else {
        pck_files_list(n.children@, skip_contents)
    }
}

pub open spec fn pck_files_list(c: Seq<FsNode>, skip_contents: bool) -> Seq<Seq<char>>
    decreases c, 1nat,
{
    if c.len() == 0 {
        Seq::empty()
    } else {
        pck_files_list(c.drop_last(), skip_contents) + pck_files(c[c.len() - 1], skip_contents)
    }
}

fn collect_pcks(node: &FsNode, skip_contents: bool, out: &mut Vec<String>)
    ensures
        strings_view(final(out)@) == strings_view(old(out)@) + pck_files(*node, skip_contents),
    decreases node,
{
    if node.is_file {
        if is_pck_path(node.path.as_str()) {
            out.push(node.path.clone());
            assert(strings_view(out@) =~= strings_view(old(out)@) + seq![node.path@]);
        } else {
            assert(strings_view(out@) =~= strings_view(old(out)@) + Seq::<Seq<char>>::empty());
        }
        return;
    }
    if !node.is_dir || (skip_contents && is_contents_name_exec(node.name.as_str())) {
        assert(strings_view(out@) =~= strings_view(old(out)@) + Seq::<Seq<char>>::empty());
        return;
    }
    let ghost start = strings_view(out@);
    let mut i: usize = 0;
    assert(start + pck_files_list(node.children@.take(0), skip_contents) =~= start);
    while i < node.children.len()
        invariant
            i <= node.children@.len(),
            strings_view(out@) == start + pck_files_list(node.children@.take(i as int), skip_contents),
        decreases node.children.len() - i,
    {
        proof {
            let t = node.children@.take(i + 1);
            assert(t.drop_last() =~= node.children@.take(i as int));
            assert(t[t.len() - 1] == node.children@[i as int]);
            assert(decreases_to!(node => node.children));
        }
        collect_pcks(&node.children[i], skip_contents, out);
        i += 1;
        proof {
            assert(strings_view(out@) =~= start + pck_files_list(node.children@.take(i as int), skip_contents));
        }
    }
    assert(node.children@.take(i as int) =~= node.children@);
}

/// Adds the `.pck` and `.pak` files below `node`, in walk order, without entering unpacked
/// PCK folders.
pub fn collect_pck_files(node: &FsNode, files: &mut Vec<String>)
    ensures
        strings_view(final(files)@) == strings_view(old(files)@) + pck_files(*node, true),
{
    collect_pcks(node, true, files);
}

/// Adds every `.pck` and `.pak` file below `node`, in walk order.
pub fn collect_supported_pck_files(node: &FsNode, output: &mut Vec<String>)
    ensures
        strings_view(final(output)@) == strings_view(old(output)@) + pck_files(*node, false),
{
    collect_pcks(node, false, output);
}

/// The first PCK found below a node when each folder's entries are tried sorted by path:
/// the node itself where it is a PCK file; nothing inside an unpacked PCK folder.
pub open spec fn first_pck(n: FsNode) -> Option<Seq<char>>
    decreases n, 0nat,
{
    if n.is_file {
        if is_pck_spec(n.path@) {
            Some(n.path@)
        } else {
            None
        }
    } else if !n.is_dir || is_contents_name(n.name@) {
        None
    } else {
        match first_pck_list(n.children@) {
            Some((_, found)) => Some(found),
            None => None,
        }
    }
}

/// Among the entries with a PCK below them, the one that sorts first by path (the earlier
/// of equal paths), with its path and the PCK found in it.
pub open spec fn first_pck_list(c: Seq<FsNode>) -> Option<(Seq<char>, Seq<char>)>
    decreases c, 1nat,
{
    if c.len() == 0 {
        None
    } else {
        let prev = first_pck_list(c.drop_last());
        let e = c[c.len() - 1];
        match first_pck(e) {
            None => prev,
            Some(found) => match prev {
                None => Some((e.path@, found)),
                Some((best, _)) => if path_lt(e.path@, best) {
                    Some((e.path@, found))
                } else {
                    prev
                },
            },
        }
    }
}

/// The PCK that the search finds first below `node`.
pub fn find_first_pck_file(node: &FsNode) -> (r: Option<String>)
    ensures
        match r {
            Some(p) => first_pck(*node) == Some(p@),
            None => first_pck(*node) is None,
        },
    decreases node,
{
    if node.is_file {
        if is_pck_path(node.path.as_str()) {
            return Some(node.path.clone());
        }
        return None;
    }
    if !node.is_dir || is_contents_name_exec(node.name.as_str()) {
        return None;
    }
    let mut best: Option<(Vec<Vec<char>>, String)> = None;
    let ghost mut best_path: Seq<char> = Seq::empty();
    let mut i: usize = 0;
    while i < node.children.len()
        invariant
            i <= node.children@.len(),
            match first_pck_list(node.children@.take(i as int)) {
                None => best is None,
                Some((bp, found)) => match best {
                    Some((bc, bf)) => bp == best_path && vv(bc@) == components(bp) && bf@ == found,
                    None => false,
                },
            },
        decreases node.children.len() - i,
    {
        proof {
            let t = node.children@.take(i + 1);
            assert(t.drop_last() =~= node.children@.take(i as int));
            assert(t[t.len() - 1] == node.children@[i as int]);
            assert(decreases_to!(node => node.children));
        }
        let child = &node.children[i];
        match find_first_pck_file(child) {
            None => {},
            Some(found) => {
                let cc = comps_of(chars_of(child.path.as_str()).as_slice());
                let take = match &best {
                    None => true,
                    Some((bc, _)) => comps_lt_exec(&cc, bc),
                };
                if take {
                    proof {
                        best_path = child.path@;
                    }
                    best = Some((cc, found));
                }
            },
        }
        i += 1;
    }
    assert(node.children@.take(i as int) =~= node.children@);
    match best {
        Some((_, f)) => Some(f),
        None => None,
    }
}

/// The language folders that the JSON files below a payload folder sit in, sorted and each
/// once.
pub fn translation_payload_languages(payload_root: &FsNode) -> (r: Vec<String>)
    ensures
        crate::order::strictly_sorted(strings_view(r@)),
        crate::model::keys_set(r@) == Set::new(|l: Seq<char>| exists|i: int|
            0 <= i < files_with_ext(*payload_root, "json"@).len()
                && crate::paths::language_component_spec(#[trigger] files_with_ext(*payload_root, "json"@)[i]) == Some(l)),
{
    let mut files: Vec<String> = Vec::new();
    collect_files_with_extension(payload_root, "json", &mut files);
    let ghost fv = strings_view(files@);
    let mut langs: Vec<String> = Vec::new();
    let mut i: usize = 0;
    while i < files.len()
        invariant
            i <= files@.len(),
            fv == strings_view(files@),
            crate::model::keys_set(langs@) == Set::new(|l: Seq<char>| exists|k: int|
                0 <= k < i && crate::paths::language_component_spec(#[trigger] fv[k]) == Some(l)),
        decreases files.len() - i,
    {
        let ghost before = langs@;
        assert(fv[i as int] == files@[i as int]@);
        match crate::paths::localization_language_component(files[i].as_str()) {
            Some(l) => {
                langs.push(l);
            },
            None => {},
        }
        proof {
            let lhs = crate::model::keys_set(langs@);
            let rhs = Set::new(|l: Seq<char>| exists|k: int|
                0 <= k < i + 1 && crate::paths::language_component_spec(#[trigger] fv[k]) == Some(l));
            let old_r = Set::new(|l: Seq<char>| exists|k: int|
                0 <= k < i && crate::paths::language_component_spec(#[trigger] fv[k]) == Some(l));
            assert(crate::model::keys_set(before) == old_r);
            assert forall|l: Seq<char>| lhs.contains(l) implies rhs.contains(l) by {
                let m = choose|m: int| 0 <= m < langs@.len() && (#[trigger] langs@[m])@ == l;
                if m < before.len() {
                    assert(langs@[m] == before[m]);
                    assert(crate::model::keys_set(before).contains(l));
                    assert(old_r.contains(l));
                    let k = choose|k: int| 0 <= k < i && crate::paths::language_component_spec(#[trigger] fv[k]) == Some(l);
                    assert(rhs.contains(l));
                }
            }
            assert forall|l: Seq<char>| rhs.contains(l) implies lhs.contains(l) by {
                let k = choose|k: int| 0 <= k < i + 1 && crate::paths::language_component_spec(#[trigger] fv[k]) == Some(l);
                if k < i {
                    assert(old_r.contains(l));
                    assert(crate::model::keys_set(before).contains(l));
                    let m = choose|m: int| 0 <= m < before.len() && (#[trigger] before[m])@ == l;
                    assert(langs@[m] == before[m]);
                } else {
                    assert(langs@[langs@.len() - 1]@ == l);
                }
            }
            assert(lhs =~= rhs);
        }
        i += 1;
    }
    crate::order::sort_dedup(langs)
}

/// A source holds a PCK: it is a PCK file, or a folder with a PCK the search finds.
pub open spec fn has_pck_payload(n: FsNode) -> bool {
    if n.is_file {
        is_pck_spec(n.path@)
    } else {
        n.is_dir && first_pck(n) is Some
    }
}

pub fn source_has_pck_payload(source: &FsNode) -> (r: bool)
    ensures
        r == has_pck_payload(*source),
{
    if source.is_file {
        return is_pck_path(source.path.as_str());
    }
    source.is_dir && find_first_pck_file(source).is_some()
}

/// Somewhere below a folder (not counting the folder itself) is an entry named
/// `*.pck.contents`.
pub open spec fn contents_below(n: FsNode) -> bool
    decreases n, 0nat,
{
    n.is_dir && contents_below_list(n.children@)
}

pub open spec fn contents_below_list(c: Seq<FsNode>) -> bool
    decreases c, 1nat,
{
    if c.len() == 0 {
        false
    } else {
        contents_below_list(c.drop_last()) || is_contents_name(c[c.len() - 1].name@) || contents_below(
            c[c.len() - 1],
        )
    }
}

pub fn directory_preview_has_pck_contents(destination: &FsNode) -> (r: bool)
    ensures
        r == contents_below(*destination),
    decreases destination,
{
    if !destination.is_dir {
        return false;
    }
    let mut i: usize = 0;
    while i < destination.children.len()
        invariant
            destination.is_dir,
            i <= destination.children@.len(),
            !contents_below_list(destination.children@.take(i as int)),
        decreases destination.children.len() - i,
    {
        proof {
            let t = destination.children@.take(i + 1);
            assert(t.drop_last() =~= destination.children@.take(i as int));
            assert(t[t.len() - 1] == destination.children@[i as int]);
            assert(decreases_to!(destination => destination.children));
        }
        let child = &destination.children[i];
        if is_contents_name_exec(child.name.as_str()) || directory_preview_has_pck_contents(child) {
            proof {
                lemma_contents_prefix(destination.children@, i + 1);
            }
            return true;
        }
        i += 1;
    }
    assert(destination.children@.take(i as int) =~= destination.children@);
    false
}

proof fn lemma_contents_prefix(c: Seq<FsNode>, k: int)
    requires
        0 <= k <= c.len(),
        contents_below_list(c.take(k)),
    ensures
        contents_below_list(c),
    decreases c.len() - k,
{
    if k < c.len() {
        assert(c.take(k + 1).drop_last() =~= c.take(k));
        lemma_contents_prefix(c, k + 1);
    } else {
        assert(c.take(k) =~= c);
    }
}

/// The JSON files below `root` that may be a mod's manifest, in walk order: those that
/// `is_preview_metadata_file` accepts.
pub open spec fn manifest_candidates(root: Seq<char>, n: FsNode) -> Seq<Seq<char>>
    decreases n, 0nat,
{
    if n.is_file {
        if crate::resources::preview_metadata_spec(n.path@, root) {
            seq![n.path@]
        } else {
            Seq::empty()
        }
    } else if n.is_dir {
        manifest_candidates_list(root, n.children@)
    } else {
        Seq::empty()
    }
}

pub open spec fn manifest_candidates_list(root: Seq<char>, c: Seq<FsNode>) -> Seq<Seq<char>>
    decreases c, 1nat,
{
    if c.len() == 0 {
        Seq::empty()
    } else {
        manifest_candidates_list(root, c.drop_last()) + manifest_candidates(root, c[c.len() - 1])
    }
}

pub fn collect_manifest_candidates(root: &str, node: &FsNode, output: &mut Vec<String>)
    ensures
        strings_view(final(output)@) == strings_view(old(output)@) + manifest_candidates(root@, *node),
    decreases node,
{
    if node.is_file {
        if crate::resources::is_preview_metadata_file(node.path.as_str(), root) {
            output.push(node.path.clone());
            assert(strings_view(output@) =~= strings_view(old(output)@) + seq![node.path@]);
        } else {
            assert(strings_view(output@) =~= strings_view(old(output)@) + Seq::<Seq<char>>::empty());
        }
        return;
    }
    if !node.is_dir {
        assert(strings_view(output@) =~= strings_view(old(output)@) + Seq::<Seq<char>>::empty());
        return;
    }
    let ghost start = strings_view(output@);
    let mut i: usize = 0;
    assert(start + manifest_candidates_list(root@, node.children@.take(0)) =~= start);
    while i < node.children.len()
        invariant
            i <= node.children@.len(),
            strings_view(output@) == start + manifest_candidates_list(root@, node.children@.take(i as int)),
        decreases node.children.len() - i,
    {
        proof {
            let t = node.children@.take(i + 1);
            assert(t.drop_last() =~= node.children@.take(i as int));
            assert(t[t.len() - 1] == node.children@[i as int]);
            assert(decreases_to!(node => node.children));
        }
        collect_manifest_candidates(root, &node.children[i], output);
        i += 1;
        proof {
            assert(strings_view(output@) =~= start + manifest_candidates_list(root@, node.children@.take(i as int)));
        }
    }
    assert(node.children@.take(i as int) =~= node.children@);
}

/// An entry named `disabled`, in any case of letters, which payload searches pass over.
pub open spec fn is_disabled_entry(name: Seq<char>) -> bool {
    lower_seq(name) == lower_seq("disabled"@)
}

fn is_disabled_entry_exec(name: &str) -> (r: bool)
    ensures
        r == is_disabled_entry(name@),
{
    let n = chars_of(name);
    let d = chars_of("disabled");
    eq_ignore_case(n.as_slice(), d.as_slice())
}

/// `i` is the entry of a folder that sorting its entries by path puts first, among those
/// not named `disabled`.
pub open spec fn first_active_at(c: Seq<FsNode>, i: int) -> bool {
    &&& 0 <= i < c.len()
    &&& !is_disabled_entry(c[i].name@)
    &&& forall|j: int| 0 <= j < c.len() && !is_disabled_entry(c[j].name@) ==> !path_lt(#[trigger] c[j].path@, c[i].path@)
    &&& forall|j: int| 0 <= j < i && !is_disabled_entry(c[j].name@) ==> path_lt(c[i].path@, #[trigger] c[j].path@)
}

/// The first entry of a folder in path order, passing over those named `disabled`; `None`
/// where the node is not a folder or has no other entry.
pub fn first_active_payload(dir: &FsNode) -> (r: Option<String>)
    ensures
        match r {
            Some(p) => dir.is_dir && exists|i: int| first_active_at(dir.children@, i) && dir.children@[i].path@ == p@,
            None => !dir.is_dir || forall|j: int| 0 <= j < dir.children@.len() ==> is_disabled_entry(#[trigger] dir.children@[j].name@),
        },
{
    if !dir.is_dir {
        return None;
    }
    let ghost c = dir.children@;
    let mut best: Option<usize> = None;
    let mut best_comps: Vec<Vec<char>> = Vec::new();
    let mut j: usize = 0;
    while j < dir.children.len()
        invariant
            c == dir.children@,
            j <= c.len(),
            match best {
                Some(b) => {
                    &&& b < j
                    &&& !is_disabled_entry(c[b as int].name@)
                    &&& vv(best_comps@) == components(c[b as int].path@)
                    &&& forall|k: int| 0 <= k < j && !is_disabled_entry(c[k].name@) ==> !path_lt(#[trigger] c[k].path@, c[b as int].path@)
                    &&& forall|k: int| 0 <= k < b && !is_disabled_entry(c[k].name@) ==> path_lt(c[b as int].path@, #[trigger] c[k].path@)
                },
                None => forall|k: int| 0 <= k < j ==> is_disabled_entry(#[trigger] c[k].name@),
            },
        decreases c.len() - j,
    {
        let e = &dir.children[j];
        if !is_disabled_entry_exec(e.name.as_str()) {
            let cc = comps_of(chars_of(e.path.as_str()).as_slice());
            let take = match best {
                None => true,
                Some(_) => comps_lt_exec(&cc, &best_comps),
            };
            if take {
                proof {
                    let pj = c[j as int].path@;
                    crate::node::lemma_comps_irreflexive(components(pj));
                    match best {
                        Some(b) => {
                            let pb = c[b as int].path@;
                            assert forall|k: int| 0 <= k <= j && !is_disabled_entry(c[k].name@) implies !path_lt(#[trigger] c[k].path@, pj) by {
                                if k < j && path_lt(c[k].path@, pj) {
                                    crate::node::lemma_comps_transitive(components(c[k].path@), components(pj), components(pb));
                                }
                            }
                            assert forall|k: int| 0 <= k < j && !is_disabled_entry(c[k].name@) implies path_lt(pj, #[trigger] c[k].path@) by {
                                let pk = c[k].path@;
                                crate::node::lemma_comps_total(components(pb), components(pk));
                                if path_lt(pb, pk) {
                                    crate::node::lemma_comps_transitive(components(pj), components(pb), components(pk));
                                }
                            }
                        },
                        None => {},
                    }
                }
                best = Some(j);
                best_comps = cc;
            }
        }
        j += 1;
    }
    match best {
        Some(b) => {
            proof {
                assert(first_active_at(c, b as int));
            }
            Some(dir.children[b].path.clone())
        },
        None => None,
    }
}

pub open spec fn extractable_spec(p: Seq<char>) -> bool {
    ext_is(p, "zip"@) || ext_is(p, "7z"@) || ext_is(p, "rar"@) || ext_is(p, "pck"@) || ext_is(p, "pak"@)
}

/// The archives and packages below a folder, in walk order, passing over entries named
/// `disabled`.
pub open spec fn payload_candidates(n: FsNode) -> Seq<Seq<char>>
    decreases n, 0nat,
{
    if n.is_dir {
        payload_list(n.children@)
    } else {
        Seq::empty()
    }
}

pub open spec fn payload_list(c: Seq<FsNode>) -> Seq<Seq<char>>
    decreases c, 1nat,
{
    if c.len() == 0 {
        Seq::empty()
    } else {
        let e = c[c.len() - 1];
        payload_list(c.drop_last()) + if is_disabled_entry(e.name@) {
            Seq::<Seq<char>>::empty()
        } else if e.is_dir {
            payload_candidates(e)
        } else if extractable_spec(e.path@) {
            seq![e.path@]
        } else {
            Seq::<Seq<char>>::empty()
        }
    }
}

fn collect_extractable_payloads(path: &FsNode, output: &mut Vec<String>)
    ensures
        strings_view(final(output)@) == strings_view(old(output)@) + payload_candidates(*path),
    decreases path,
{
    if !path.is_dir {
        assert(strings_view(output@) =~= strings_view(old(output)@) + Seq::<Seq<char>>::empty());
        return;
    }
    let ghost start = strings_view(output@);
    let mut i: usize = 0;
    assert(start + payload_list(path.children@.take(0)) =~= start);
    while i < path.children.len()
        invariant
            path.is_dir,
            i <= path.children@.len(),
            strings_view(output@) == start + payload_list(path.children@.take(i as int)),
        decreases path.children.len() - i,
    {
        proof {
            let t = path.children@.take(i + 1);
            assert(t.drop_last() =~= path.children@.take(i as int));
            assert(t[t.len() - 1] == path.children@[i as int]);
            assert(decreases_to!(path => path.children));
        }
        let child = &path.children[i];
        let ghost before = strings_view(output@);
        if is_disabled_entry_exec(child.name.as_str()) {
        } else if child.is_dir {
            collect_extractable_payloads(child, output);
        } else if crate::model::is_supported_extractable_path(child.path.as_str()) {
            output.push(child.path.clone());
            assert(strings_view(output@) =~= before + seq![child.path@]);
        }
        i += 1;
        proof {
            assert(strings_view(output@) =~= start + payload_list(path.children@.take(i as int)));
        }
    }
    assert(path.children@.take(i as int) =~= path.children@);
}

/// How deep a payload lies below the folder searched: its components past the folder's;
/// the most a `usize` holds where it is not below it.
pub open spec fn payload_depth(root: Seq<char>, p: Seq<char>) -> int {
    match crate::paths::strip_prefix_spec(p, root) {
        Some(_) => components(p).len() - components(root).len(),
        None => usize::MAX as int,
    }
}

pub open spec fn payload_rank(p: Seq<char>) -> int {
    if is_pck_spec(p) {
        0
    } else {
        1
    }
}

/// The order payloads are preferred in: shallower first, then PCKs before archives, then
/// by path.
pub open spec fn payload_before(root: Seq<char>, a: Seq<char>, b: Seq<char>) -> bool {
    ||| payload_depth(root, a) < payload_depth(root, b)
    ||| (payload_depth(root, a) == payload_depth(root, b) && payload_rank(a) < payload_rank(b))
    ||| (payload_depth(root, a) == payload_depth(root, b) && payload_rank(a) == payload_rank(b) && path_lt(a, b))
}

pub open spec fn first_payload_at(root: Seq<char>, v: Seq<Seq<char>>, i: int) -> bool {
    &&& 0 <= i < v.len()
    &&& forall|j: int| 0 <= j < v.len() ==> !payload_before(root, #[trigger] v[j], v[i])
    &&& forall|j: int| 0 <= j < i ==> payload_before(root, v[i], #[trigger] v[j])
}

fn payload_key(root: &[char], p: &str) -> (r: (usize, usize, Vec<Vec<char>>))
    ensures
        r.0 == payload_depth(root@, p@),
        r.1 == payload_rank(p@),
        vv(r.2@) == components(p@),
{
    let pc = chars_of(p);
    let comps = comps_of(pc.as_slice());
    let depth: usize = match crate::paths::strip_prefix_chars(pc.as_slice(), root) {
        Some(_) => {
            let rc = comps_of(root);
            proof {
                assert(vv(comps@).len() == comps@.len());
                assert(vv(rc@).len() == rc@.len());
            }
            comps.len() - rc.len()
        },
        None => usize::MAX,
    };
    let rank: usize = if is_pck_path(p) { 0 } else { 1 };
    (depth, rank, comps)
}

proof fn lemma_payload_transitive(root: Seq<char>, a: Seq<char>, b: Seq<char>, c: Seq<char>)
    requires
        payload_before(root, a, b),
        payload_before(root, b, c),
    ensures
        payload_before(root, a, c),
{
    if payload_depth(root, a) == payload_depth(root, c) && payload_rank(a) == payload_rank(c) {
        crate::node::lemma_comps_transitive(components(a), components(b), components(c));
    }
}

/// The payload of a folder to extract from: among its archives and packages (see
/// `payload_candidates`), the first in `payload_before` order.
pub fn preferred_extractable_payload(dir: &FsNode) -> (r: Option<String>)
    ensures
        match r {
            Some(p) => exists|i: int| first_payload_at(dir.path@, payload_candidates(*dir), i)
                && payload_candidates(*dir)[i] == p@,
            None => payload_candidates(*dir).len() == 0,
        },
{
    let mut cands: Vec<String> = Vec::new();
    collect_extractable_payloads(dir, &mut cands);
    assert(strings_view(cands@) =~= payload_candidates(*dir));
    let ghost v = strings_view(cands@);
    let ghost root = dir.path@;
    let rc = chars_of(dir.path.as_str());
    let mut best: Option<usize> = None;
    let mut bd: usize = 0;
    let mut br: usize = 0;
    let mut bc: Vec<Vec<char>> = Vec::new();
    let mut j: usize = 0;
    while j < cands.len()
        invariant
            v == strings_view(cands@),
            rc@ == root,
            j <= v.len(),
            match best {
                Some(b) => {
                    &&& b < j
                    &&& bd == payload_depth(root, v[b as int])
                    &&& br == payload_rank(v[b as int])
                    &&& vv(bc@) == components(v[b as int])
                    &&& forall|k: int| 0 <= k < j ==> !payload_before(root, #[trigger] v[k], v[b as int])
                    &&& forall|k: int| 0 <= k < b ==> payload_before(root, v[b as int], #[trigger] v[k])
                },
                None => j == 0,
            },
        decreases v.len() - j,
    {
        let (d, rk, cc) = payload_key(rc.as_slice(), cands[j].as_str());
        assert(cands@[j as int]@ == v[j as int]);
        let take = match best {
            None => true,
            Some(_) => d < bd || (d == bd && (rk < br || (rk == br && comps_lt_exec(&cc, &bc)))),
        };
        proof {
            if let Some(b) = best {
                assert(take == payload_before(root, v[j as int], v[b as int]));
            }
        }
        if take {
            proof {
                let pj = v[j as int];
                crate::node::lemma_comps_irreflexive(components(pj));
                match best {
                    Some(b) => {
                        let pb = v[b as int];
                        assert forall|k: int| 0 <= k <= j implies !payload_before(root, #[trigger] v[k], pj) by {
                            if k < j && payload_before(root, v[k], pj) {
                                lemma_payload_transitive(root, v[k], pj, pb);
                            }
                        }
                        assert forall|k: int| 0 <= k < j implies payload_before(root, pj, #[trigger] v[k]) by {
                            let pk = v[k];
                            crate::node::lemma_comps_total(components(pb), components(pk));
                            if payload_before(root, pb, pk) {
                                lemma_payload_transitive(root, pj, pb, pk);
                            }
                        }
                    },
                    None => {},
                }
            }
            best = Some(j);
            bd = d;
            br = rk;
            bc = cc;
        }
        j += 1;
    }
    match best {
        Some(b) => {
            proof {
                assert(first_payload_at(root, v, b as int));
            }
            Some(cands[b].clone())
        },
        None => None,
    }
}

/// Where a mod's text is extracted from. `source` is the walk of the mod's path;
/// `has_translation_candidates` and `has_hardcoded_candidates` say whether the scanner finds
/// translation files, or strings in code files, in that folder. A file, or a folder with
/// either, is used as it is; else the preferred payload inside, else its first active
/// entry, else the folder itself.
pub fn extraction_source_for_record(
    source: &FsNode,
    has_translation_candidates: bool,
    has_hardcoded_candidates: bool,
) -> (r: String)
    ensures
        !source.is_dir || has_translation_candidates || has_hardcoded_candidates ==> r@ == source.path@,
        source.is_dir && !has_translation_candidates && !has_hardcoded_candidates ==> {
            let cands = payload_candidates(*source);
            if cands.len() > 0 {
                exists|i: int| first_payload_at(source.path@, cands, i) && cands[i] == r@
            } else if exists|j: int| 0 <= j < source.children@.len() && !is_disabled_entry(#[trigger] source.children@[j].name@) {
                exists|i: int| first_active_at(source.children@, i) && source.children@[i].path@ == r@
            } else {
                r@ == source.path@
            }
        },
{
    if !source.is_dir || has_translation_candidates || has_hardcoded_candidates {
        return source.path.clone();
    }
    match preferred_extractable_payload(source) {
        Some(p) => p,
        None => match first_active_payload(source) {
            Some(p) => p,
            None => source.path.clone(),
        },
    }
}

/// Where the language preview unpacks a source for a cache key: `scan-` and the key's
/// stable hash in 16 hex digits, under `state/language_preview_extract` of the workspace.
pub open spec fn preview_extract_dir_spec(workspace_dir: Seq<char>, cache_key: Seq<char>) -> Seq<char> {
    crate::paths::join_name_spec(
        crate::paths::join_name_spec(crate::paths::join_name_spec(workspace_dir, "state"@), "language_preview_extract"@),
        "scan-"@ + crate::dashboard::hex_spec(
            crate::dashboard::fnv_spec(vstd::utf8::encode_utf8(cache_key)) as nat,
            16,
        ),
    )
}

pub fn language_preview_extract_dir(workspace_dir: &str, cache_key: &str) -> (r: String)
    ensures
        r@ == preview_extract_dir_spec(workspace_dir@, cache_key@),
{
    let h = crate::dashboard::stable_hash(cache_key);
    let mut name = chars_of("scan-");
    crate::text::push_all(&mut name, crate::dashboard::hex_digits(h, 16).as_slice());
    let a = crate::paths::join_name_str(workspace_dir, "state");
    let b = crate::paths::join_name_str(a.as_str(), "language_preview_extract");
    crate::paths::join_name_str(b.as_str(), crate::text::string_from(name.as_slice()).as_str())
}

/// What the language preview scans for a source.
pub enum ScanPlan {
    /// The source folder itself.
    UseSource,
    /// The source unpacked into `destination`: a folder holding PCKs (`from_folder`) or an
    /// archive or package. With `clear_first`, an earlier unpacking there, which holds no
    /// unpacked PCK, is removed first.
    Unpack { destination: String, from_folder: bool, clear_first: bool },
    /// Nothing can be scanned.
    Nothing,
}

pub open spec fn scan_key(cache_key: Seq<char>, full: bool) -> Seq<char> {
    if full {
        cache_key + "-full"@
    } else {
        cache_key
    }
}

/// How a source is scanned: a folder with a PCK is unpacked (the full scan under its own
/// key, ending in `-full`); another folder is scanned as it is; an archive or package is
/// unpacked; anything else gives nothing. `destination_has_contents` says whether the
/// destination already holds an unpacked PCK.
pub fn extraction_scan_plan(
    source: &FsNode,
    workspace_dir: &str,
    cache_key: &str,
    full: bool,
    destination_has_contents: bool,
) -> (r: ScanPlan)
    ensures
        source.is_dir && first_pck(*source) is Some ==> (r matches ScanPlan::Unpack { destination, from_folder, clear_first }
            && destination@ == preview_extract_dir_spec(workspace_dir@, scan_key(cache_key@, full)) && from_folder
            && clear_first == !destination_has_contents),
        source.is_dir && first_pck(*source) is None ==> r is UseSource,
        !source.is_dir && extractable_spec(source.path@) ==> (r matches ScanPlan::Unpack { destination, from_folder, clear_first }
            && destination@ == preview_extract_dir_spec(workspace_dir@, scan_key(cache_key@, full)) && !from_folder
            && !clear_first),
        !source.is_dir && !extractable_spec(source.path@) ==> r is Nothing,
{
    let key = if full {
        crate::text::cat(cache_key, "-full")
    } else {
        cache_key.to_string()
    };
    proof {
        reveal_strlit("-full");
    }
    if source.is_dir {
        if find_first_pck_file(source).is_some() {
            return ScanPlan::Unpack {
                destination: language_preview_extract_dir(workspace_dir, key.as_str()),
                from_folder: true,
                clear_first: !destination_has_contents,
            };
        }
        return ScanPlan::UseSource;
    }
    if crate::model::is_supported_extractable_path(source.path.as_str()) {
        return ScanPlan::Unpack {
            destination: language_preview_extract_dir(workspace_dir, key.as_str()),
            from_folder: false,
            clear_first: false,
        };
    }
    ScanPlan::Nothing
}

/// The folder scanned once a plan was carried out: the source, or the destination where it
/// existed already or the unpacking succeeded.
pub fn scan_root_after_unpack(plan: &ScanPlan, source_path: &str, destination_exists: bool, unpacked: bool) -> (r:
    Option<String>)
    ensures
        match plan {
            ScanPlan::UseSource => r matches Some(p) && p@ == source_path@,
            ScanPlan::Unpack { destination, .. } => if destination_exists || unpacked {
                r matches Some(p) && p@ == destination@
            } else {
                r is None
            },
            ScanPlan::Nothing => r is None,
        },
{
    match plan {
        ScanPlan::UseSource => Some(source_path.to_string()),
        ScanPlan::Unpack { destination, .. } => if destination_exists || unpacked {
            Some(destination.clone())
        } else {
            None
        },
        ScanPlan::Nothing => None,
    }
}

/// Adds the files the language preview keeps beside its translation files (see
/// `is_preview_metadata_file`), in walk order.
pub fn collect_preview_metadata_files(root: &str, node: &FsNode, keep_files: &mut Vec<String>)
    ensures
        strings_view(final(keep_files)@) == strings_view(old(keep_files)@) + manifest_candidates(root@, *node),
{
    collect_manifest_candidates(root, node, keep_files);
}

/// The files below a node that are not kept, in walk order: what compacting the preview
/// folder removes.
pub open spec fn unkept_files(n: FsNode, keep: Set<Seq<char>>) -> Seq<Seq<char>>
    decreases n, 0nat,
{
    if n.is_file {
        if keep.contains(n.path@) {
            Seq::empty()
        } else {
            seq![n.path@]
        }
    } else if n.is_dir {
        unkept_list(n.children@, keep)
    } else {
        Seq::empty()
    }
}

pub open spec fn unkept_list(c: Seq<FsNode>, keep: Set<Seq<char>>) -> Seq<Seq<char>>
    decreases c, 1nat,
{
    if c.len() == 0 {
        Seq::empty()
    } else {
        unkept_list(c.drop_last(), keep) + unkept_files(c[c.len() - 1], keep)
    }
}

fn push_unkept(node: &FsNode, keep: &Vec<String>, out: &mut Vec<String>)
    ensures
        strings_view(final(out)@) == strings_view(old(out)@) + unkept_files(*node, crate::model::keys_set(keep@)),
    decreases node,
{
    if node.is_file {
        if crate::deleted::contains_key(keep, node.path.as_str()) {
            assert(strings_view(out@) =~= strings_view(old(out)@) + Seq::<Seq<char>>::empty());
        } else {
            out.push(node.path.clone());
            assert(strings_view(out@) =~= strings_view(old(out)@) + seq![node.path@]);
        }
        return;
    }
    if !node.is_dir {
        assert(strings_view(out@) =~= strings_view(old(out)@) + Seq::<Seq<char>>::empty());
        return;
    }
    let ghost start = strings_view(out@);
    let ghost ks = crate::model::keys_set(keep@);
    let mut i: usize = 0;
    assert(start + unkept_list(node.children@.take(0), ks) =~= start);
    while i < node.children.len()
        invariant
            i <= node.children@.len(),
            ks == crate::model::keys_set(keep@),
            strings_view(out@) == start + unkept_list(node.children@.take(i as int), ks),
        decreases node.children.len() - i,
    {
        proof {
            let t = node.children@.take(i + 1);
            assert(t.drop_last() =~= node.children@.take(i as int));
            assert(t[t.len() - 1] == node.children@[i as int]);
            assert(decreases_to!(node => node.children));
        }
        push_unkept(&node.children[i], keep, out);
        i += 1;
        proof {
            assert(strings_view(out@) =~= start + unkept_list(node.children@.take(i as int), ks));
        }
    }
    assert(node.children@.take(i as int) =~= node.children@);
}

/// The files below `node` that compacting the preview folder removes: those not in
/// `keep_files`.
pub fn unkept_preview_files(node: &FsNode, keep_files: &Vec<String>) -> (r: Vec<String>)
    ensures
        strings_view(r@) == unkept_files(*node, crate::model::keys_set(keep_files@)),
{
    let mut out: Vec<String> = Vec::new();
    push_unkept(node, keep_files, &mut out);
    assert(strings_view(out@) =~= unkept_files(*node, crate::model::keys_set(keep_files@)));
    out
}

/// A folder that compacting removes once its own empty folders are gone: not the preview
/// root, and holding only such folders.
pub open spec fn removable_dir(n: FsNode, root: Seq<char>) -> bool
    decreases n, 0nat,
{
    n.is_dir && !crate::logs::same_components(n.path@, root) && all_removable(n.children@, root)
}

pub open spec fn all_removable(c: Seq<FsNode>, root: Seq<char>) -> bool
    decreases c, 1nat,
{
    c.len() == 0 || (all_removable(c.drop_last(), root) && removable_dir(c[c.len() - 1], root))
}

/// The folders that compacting removes below a node, deepest first, in walk order.
pub open spec fn removed_dirs(n: FsNode, root: Seq<char>) -> Seq<Seq<char>>
    decreases n, 0nat,
{
    if n.is_dir {
        removed_list(n.children@, root)
    } else {
        Seq::empty()
    }
}

pub open spec fn removed_list(c: Seq<FsNode>, root: Seq<char>) -> Seq<Seq<char>>
    decreases c, 1nat,
{
    if c.len() == 0 {
        Seq::empty()
    } else {
        let e = c[c.len() - 1];
        removed_list(c.drop_last(), root) + removed_dirs(e, root) + if removable_dir(e, root) {
            seq![e.path@]
        } else {
            Seq::<Seq<char>>::empty()
        }
    }
}

fn push_empty_dirs(node: &FsNode, root: &str, out: &mut Vec<String>) -> (r: bool)
    ensures
        r == removable_dir(*node, root@),
        strings_view(final(out)@) == strings_view(old(out)@) + removed_dirs(*node, root@),
    decreases node,
{
    if !node.is_dir {
        assert(strings_view(out@) =~= strings_view(old(out)@) + Seq::<Seq<char>>::empty());
        return false;
    }
    let ghost start = strings_view(out@);
    let mut all = true;
    let mut i: usize = 0;
    assert(start + removed_list(node.children@.take(0), root@) =~= start);
    while i < node.children.len()
        invariant
            node.is_dir,
            i <= node.children@.len(),
            strings_view(out@) == start + removed_list(node.children@.take(i as int), root@),
            all == all_removable(node.children@.take(i as int), root@),
        decreases node.children.len() - i,
    {
        proof {
            let t = node.children@.take(i + 1);
            assert(t.drop_last() =~= node.children@.take(i as int));
            assert(t[t.len() - 1] == node.children@[i as int]);
            assert(decreases_to!(node => node.children));
        }
        let child = &node.children[i];
        let ghost before = strings_view(out@);
        let gone = push_empty_dirs(child, root, out);
        if gone {
            out.push(child.path.clone());
        }
        all = all && gone;
        i += 1;
        proof {
            if gone {
                assert(strings_view(out@) =~= before + removed_dirs(*child, root@) + seq![child.path@]);
            } else {
                assert(strings_view(out@) =~= before + removed_dirs(*child, root@) + Seq::<Seq<char>>::empty());
            }
            assert(strings_view(out@) =~= start + removed_list(node.children@.take(i as int), root@));
        }
    }
    assert(node.children@.take(i as int) =~= node.children@);
    let own = !crate::logs::same_components_exec(node.path.as_str(), root);
    all && own
}

/// The folders that compacting the preview folder `root` removes once the unkept files
/// are gone: each folder below it that holds nothing but such folders, deepest first.
pub fn empty_preview_dirs(root: &FsNode) -> (r: Vec<String>)
    ensures
        strings_view(r@) == removed_dirs(*root, root.path@),
{
    let mut out: Vec<String> = Vec::new();
    let _ = push_empty_dirs(root, root.path.as_str(), &mut out);
    assert(strings_view(out@) =~= removed_dirs(*root, root.path@));
    out
}

pub open spec fn later(a: Option<u64>, b: Option<u64>) -> Option<u64> {
    match (a, b) {
        (None, x) => x,
        (x, None) => x,
        (Some(x), Some(y)) => Some(if y > x { y } else { x }),
    }
}

/// The size of a dropped folder's files and the latest time one of them changed: every
/// file below it counts (its size, and its time where that could be read); entries whose
/// kind could not be read are passed over.
pub open spec fn folder_fingerprint(n: FsNode) -> (nat, Option<u64>)
    decreases n, 0nat,
{
    if n.is_dir {
        fingerprint_list(n.children@)
    } else {
        (0, None)
    }
}

pub open spec fn fingerprint_list(c: Seq<FsNode>) -> (nat, Option<u64>)
    decreases c, 1nat,
{
    if c.len() == 0 {
        (0, None)
    } else {
        let prev = fingerprint_list(c.drop_last());
        let e = c[c.len() - 1];
        if e.is_dir {
            let inner = folder_fingerprint(e);
            (prev.0 + inner.0, later(prev.1, inner.1))
        } else if e.is_file {
            (prev.0 + e.bytes as nat, later(prev.1, e.modified_epoch))
        } else {
            prev
        }
    }
}

proof fn lemma_fingerprint_prefix(c: Seq<FsNode>, k: int)
    requires
        0 <= k <= c.len(),
    ensures
        fingerprint_list(c.take(k)).0 <= fingerprint_list(c).0,
    decreases c.len() - k,
{
    if k < c.len() {
        assert(c.take(k + 1).drop_last() =~= c.take(k));
        lemma_fingerprint_prefix(c, k + 1);
    } else {
        assert(c.take(k) =~= c);
    }
}

fn later_exec(a: Option<u64>, b: Option<u64>) -> (r: Option<u64>)
    ensures
        r == later(a, b),
{
    match (a, b) {
        (None, x) => x,
        (x, None) => x,
        (Some(x), Some(y)) => Some(if y > x { y } else { x }),
    }
}

/// The size and latest change of a dropped folder's files.
pub fn fingerprint_dropped_directory(node: &FsNode) -> (r: (u64, Option<u64>))
    requires
        folder_fingerprint(*node).0 <= u64::MAX,
    ensures
        r.0 == folder_fingerprint(*node).0,
        r.1 == folder_fingerprint(*node).1,
    decreases node,
{
    if !node.is_dir {
        return (0, None);
    }
    let mut bytes: u64 = 0;
    let mut modified: Option<u64> = None;
    let mut i: usize = 0;
    while i < node.children.len()
        invariant
            node.is_dir,
            i <= node.children@.len(),
            fingerprint_list(node.children@).0 <= u64::MAX,
            folder_fingerprint(*node) == fingerprint_list(node.children@),
            bytes == fingerprint_list(node.children@.take(i as int)).0,
            modified == fingerprint_list(node.children@.take(i as int)).1,
        decreases node.children.len() - i,
    {
        proof {
            let t = node.children@.take(i + 1);
            assert(t.drop_last() =~= node.children@.take(i as int));
            assert(t[t.len() - 1] == node.children@[i as int]);
            lemma_fingerprint_prefix(node.children@, i + 1);
            assert(decreases_to!(node => node.children));
        }
        let child = &node.children[i];
        if child.is_dir {
            let (b, m) = fingerprint_dropped_directory(child);
            bytes = bytes + b;
            modified = later_exec(modified, m);
        } else if child.is_file {
            bytes = bytes + child.bytes;
            modified = later_exec(modified, child.modified_epoch);
        }
        i += 1;
    }
    assert(node.children@.take(i as int) =~= node.children@);
    (bytes, modified)
}

/// The kinds of the entries of a folder, each from whether it is a folder and from its
/// extension.
pub open spec fn entry_kinds(children: Seq<FsNode>) -> Seq<ModKind> {
    children.map_values(|c: FsNode| classify_spec(c.path@, c.is_dir))
}

/// The mods a dropped folder is split into, looked at `depth` folders below the dropped
/// one: a lone folder is entered (at most three deep); otherwise the entries of supported
/// kinds are the mods.
pub open spec fn dropped_split(node: FsNode, depth: nat) -> Seq<Seq<char>>
    decreases 3 - depth,
{
    let kinds = entry_kinds(node.children@);
    let s = supported_positions(kinds);
    if enters(depth, kinds) {
        dropped_split(node.children@[s[0] as int], depth + 1)
    } else {
        s.map_values(|i: usize| node.children@[i as int].path@)
    }
}

/// Splits a dropped folder, as the walk of the disk found it, into the paths of the mods it
/// holds. A folder's entries are read as its children, in the walk's order, each of the kind
/// its name and folder flag give.
pub fn split_dropped_directory(node: &FsNode) -> (r: Vec<String>)
    ensures
        strings_view(r@) == dropped_split(*node, 0),
{
    let mut current: &FsNode = node;
    let mut depth: usize = 0;
    loop
        invariant
            depth <= 3,
            dropped_split(*node, 0) == dropped_split(*current, depth as nat),
        decreases 3 - depth,
    {
        let mut kinds: Vec<ModKind> = Vec::new();
        let mut i: usize = 0;
        while i < current.children.len()
            invariant
                i <= current.children@.len(),
                kinds@ == entry_kinds(current.children@).take(i as int),
            decreases current.children.len() - i,
        {
            let c = &current.children[i];
            kinds.push(classify_dropped_mod_path(c.path.as_str(), c.is_dir));
            assert(kinds@ =~= entry_kinds(current.children@).take(i + 1));
            i += 1;
        }
        assert(kinds@ =~= entry_kinds(current.children@));
        proof {
            lemma_supported_in_range(kinds@);
        }
        match split_dropped_step(depth, &kinds) {
            DropStep::Enter(k) => {
                assert(enters(depth as nat, kinds@));
                current = &current.children[k];
                depth = depth + 1;
            },
            DropStep::Take(v) => {
                let mut out: Vec<String> = Vec::new();
                let mut j: usize = 0;
                let ghost s = supported_positions(kinds@);
                proof {
                    lemma_supported_in_range(kinds@);
                }
                while j < v.len()
                    invariant
                        j <= v@.len(),
                        v@ == s,
                        forall|m: int| 0 <= m < s.len() ==> (#[trigger] s[m]) < kinds@.len(),
                        kinds@.len() == current.children@.len(),
                        strings_view(out@) == s.take(j as int).map_values(|x: usize| current.children@[x as int].path@),
                    decreases v.len() - j,
                {
                    let x = v[j];
                    let ghost before = strings_view(out@);
                    out.push(current.children[x].path.clone());
                    assert(strings_view(out@) =~= before.push(current.children@[x as int].path@));
                    assert(strings_view(out@) =~= s.take(j + 1).map_values(|x: usize| current.children@[x as int].path@));
                    j += 1;
                }
                assert(s.take(j as int) =~= s);
                return out;
            },
        }
    }
}

proof fn lemma_supported_in_range(kinds: Seq<ModKind>)
    requires
        kinds.len() <= usize::MAX,
    ensures
        forall|m: int| 0 <= m < supported_positions(kinds).len() ==> (#[trigger] supported_positions(kinds)[m]) < kinds.len(),
    decreases kinds.len(),
{
    if kinds.len() > 0 {
        lemma_supported_in_range(kinds.drop_last());
        let p = supported_positions(kinds.drop_last());
        let r = supported_positions(kinds);
        assert forall|m: int| 0 <= m < r.len() implies (#[trigger] r[m]) < kinds.len() by {
            if m < p.len() {
                assert(r[m] == p[m]);
            }
        }
    }
}

} // verus!
