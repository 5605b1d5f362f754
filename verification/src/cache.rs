//! The work caches: how much room they take and which files a cleanup removes, worked out
//! on a snapshot of the folders.
use vstd::prelude::*;
use crate::text::{chars_of, string_from, lower_seq, ascii_lower, ends_with, seq_eq, eq_ignore_case};
use crate::paths::{components, rooted, join_path, comps_of, is_rooted_exec, join_comps, sub_comps, vv, ext_is};
use crate::paths::{prefix_path, prefix_path_exec, drive_first, is_drive_exec};
use crate::roots::{path_starts_with, path_starts_with_exec};
use crate::logs::{strings_view, same_components, same_components_exec};

verus! {

broadcast use vstd::string::group_string_axioms;

/// A file or folder as a walk of the disk found it, with what lies in it. A node that is
/// neither a file nor a folder is one whose kind could not be read.
pub struct FsNode {
    pub path: String,
    pub name: String,
    pub is_dir: bool,
    pub is_file: bool,
    pub bytes: u64,
    /// When it was last changed, in seconds since the Unix epoch, where that could be read.
    pub modified_epoch: Option<u64>,
    pub children: Vec<FsNode>,
}

/// The folders and files a path counts: itself where it is a folder or a file, and all
/// that lies in it.
pub open spec fn count_spec(n: FsNode) -> (nat, nat)
    decreases n, 0nat,
{
    if n.is_file {
        (0, 1)
    } else if !n.is_dir {
        (0, 0)
    } else {
        let s = count_list(n.children@);
        (1 + s.0, s.1)
    }
}

pub open spec fn count_list(c: Seq<FsNode>) -> (nat, nat)
    decreases c, 1nat,
{
    if c.len() == 0 {
        (0, 0)
    } else {
        let a = count_list(c.drop_last());
        let b = count_spec(c[c.len() - 1]);
        (a.0 + b.0, a.1 + b.1)
    }
}

/// How many folders and files a removal takes away.
pub fn count_path_items(node: &FsNode) -> (r: (usize, usize))
    requires
        count_spec(*node).0 + count_spec(*node).1 <= usize::MAX,
    ensures
        r.0 == count_spec(*node).0,
        r.1 == count_spec(*node).1,
    decreases node,
{
    if node.is_file {
        return (0, 1);
    }
    if !node.is_dir {
        return (0, 0);
    }
    let mut dirs: usize = 1;
    let mut files: usize = 0;
    let mut i: usize = 0;
    while i < node.children.len()
        invariant
            i <= node.children@.len(),
            node.is_dir && !node.is_file,
            count_spec(*node).0 + count_spec(*node).1 <= usize::MAX,
            count_spec(*node) == (1 + count_list(node.children@).0, count_list(node.children@).1),
            dirs == 1 + count_list(node.children@.take(i as int)).0,
            files == count_list(node.children@.take(i as int)).1,
        decreases node.children.len() - i,
    {
        proof {
            let t = node.children@.take(i + 1);
            assert(t.drop_last() =~= node.children@.take(i as int));
            assert(t[t.len() - 1] == node.children@[i as int]);
            lemma_count_list_prefix(node.children@, i + 1);
            assert(decreases_to!(node => node.children));
        }
        let (d, f) = count_path_items(&node.children[i]);
        dirs = dirs + d;
        files = files + f;
        i += 1;
    }
    assert(node.children@.take(i as int) =~= node.children@);
    (dirs, files)
}

proof fn lemma_count_list_prefix(c: Seq<FsNode>, k: int)
    requires
        0 <= k <= c.len(),
    ensures
        count_list(c.take(k)).0 <= count_list(c).0,
        count_list(c.take(k)).1 <= count_list(c).1,
        k > 0 ==> count_list(c.take(k)).0 == count_list(c.take(k - 1)).0 + count_spec(c[k - 1]).0,
        k > 0 ==> count_list(c.take(k)).1 == count_list(c.take(k - 1)).1 + count_spec(c[k - 1]).1,
    decreases c.len() - k,
{
    if k > 0 {
        assert(c.take(k).drop_last() =~= c.take(k - 1));
    }
    if k < c.len() {
        lemma_count_list_prefix(c, k + 1);
        assert(c.take(k + 1).drop_last() =~= c.take(k));
    } else {
        assert(c.take(k) =~= c);
    }
}

/// How much room the caches take.
pub struct CacheUsageDto {
    pub bytes: u64,
    pub files: usize,
    pub dirs: usize,
}

pub open spec fn sat_add(a: u64, b: u64) -> u64 {
    if a + b > u64::MAX {
        u64::MAX
    } else {
        (a + b) as u64
    }
}

/// The usage after counting a path: a folder counts once and so does all it holds; anything
/// else counts as a file, and its size is added without overflow.
pub open spec fn usage_spec(u: (nat, nat, u64), n: FsNode) -> (nat, nat, u64)
    decreases n, 0nat,
{
    if n.is_dir {
        usage_list((u.0 + 1, u.1, u.2), n.children@)
    } else {
        (u.0, u.1 + 1, sat_add(u.2, n.bytes))
    }
}

pub open spec fn usage_list(u: (nat, nat, u64), c: Seq<FsNode>) -> (nat, nat, u64)
    decreases c, 1nat,
{
    if c.len() == 0 {
        u
    } else {
        usage_spec(usage_list(u, c.drop_last()), c[c.len() - 1])
    }
}

/// Number of entries of a tree, itself included: a bound on what counting it can add.
pub open spec fn tree_size(n: FsNode) -> nat
    decreases n, 0nat,
{
    1 + forest_size(n.children@)
}

pub open spec fn forest_size(c: Seq<FsNode>) -> nat
    decreases c, 1nat,
{
    if c.len() == 0 {
        0
    } else {
        forest_size(c.drop_last()) + tree_size(c[c.len() - 1])
    }
}

proof fn lemma_usage_grows(u: (nat, nat, u64), n: FsNode)
    ensures
        usage_spec(u, n).0 + usage_spec(u, n).1 <= u.0 + u.1 + tree_size(n),
        usage_spec(u, n).0 >= u.0,
        usage_spec(u, n).1 >= u.1,
    decreases n, 0nat,
{
    if n.is_dir {
        lemma_usage_list_grows((u.0 + 1, u.1, u.2), n.children@);
    }
}

proof fn lemma_usage_list_grows(u: (nat, nat, u64), c: Seq<FsNode>)
    ensures
        usage_list(u, c).0 + usage_list(u, c).1 <= u.0 + u.1 + forest_size(c),
        usage_list(u, c).0 >= u.0,
        usage_list(u, c).1 >= u.1,
    decreases c, 1nat,
{
    if c.len() > 0 {
        lemma_usage_list_grows(u, c.drop_last());
        lemma_usage_grows(usage_list(u, c.drop_last()), c[c.len() - 1]);
    }
}

pub open spec fn usage_of(u: CacheUsageDto) -> (nat, nat, u64) {
    (u.dirs as nat, u.files as nat, u.bytes)
}

/// Adds a path and all it holds to the usage.
pub fn add_cache_path_usage(node: &FsNode, usage: &mut CacheUsageDto)
    requires
        old(usage).dirs + old(usage).files + tree_size(*node) <= usize::MAX,
    ensures
        usage_of(*final(usage)) == usage_spec(usage_of(*old(usage)), *node),
    decreases node,
{
    if !node.is_dir {
        usage.files = usage.files + 1;
        usage.bytes = usage.bytes.saturating_add(node.bytes);
        return ;
    }
    usage.dirs = usage.dirs + 1;
    let ghost start = usage_of(*usage);
    let mut i: usize = 0;
    while i < node.children.len()
        invariant
            i <= node.children@.len(),
            node.is_dir,
            start.0 + start.1 + forest_size(node.children@) <= usize::MAX,
            usage_of(*usage) == usage_list(start, node.children@.take(i as int)),
        decreases node.children.len() - i,
    {
        proof {
            let t = node.children@.take(i + 1);
            assert(t.drop_last() =~= node.children@.take(i as int));
            assert(t[t.len() - 1] == node.children@[i as int]);
            lemma_usage_list_grows(start, node.children@.take(i as int));
            lemma_forest_prefix(node.children@, i + 1);
            assert(decreases_to!(node => node.children));
        }
        add_cache_path_usage(&node.children[i], usage);
        i += 1;
    }
    assert(node.children@.take(i as int) =~= node.children@);
}

proof fn lemma_forest_prefix(c: Seq<FsNode>, k: int)
    requires
        0 <= k <= c.len(),
    ensures
        forest_size(c.take(k)) <= forest_size(c),
        k > 0 ==> forest_size(c.take(k)) == forest_size(c.take(k - 1)) + tree_size(c[k - 1]),
    decreases c.len() - k,
{
    if k > 0 {
        assert(c.take(k).drop_last() =~= c.take(k - 1));
    }
    if k < c.len() {
        lemma_forest_prefix(c, k + 1);
        assert(c.take(k + 1).drop_last() =~= c.take(k));
    } else {
        assert(c.take(k) =~= c);
    }
}

/// A `.pck`, `.zip`, `.rar` or `.7z` file, in any case.
pub open spec fn payload_file(p: Seq<char>) -> bool {
    ext_is(p, "pck"@) || ext_is(p, "zip"@) || ext_is(p, "rar"@) || ext_is(p, "7z"@)
}

pub open spec fn has_selected(rel: Seq<Seq<char>>) -> bool {
    exists|i: int| 0 <= i < rel.len() && lower_seq(#[trigger] rel[i]) == lower_seq("selected"@)
}

/// A payload file of a working folder that lies in a `selected` folder below the root.
pub open spec fn selected_payload_spec(root: Seq<char>, path: Seq<char>) -> bool {
    payload_file(path) && path_starts_with(path, root) && has_selected(
        components(path).skip(components(root).len() as int),
    )
}

pub fn is_selected_translation_payload_file(root: &str, path: &str) -> (r: bool)
    ensures
        r == selected_payload_spec(root@, path@),
{
    if !crate::model::is_translation_memory_payload_file(path) {
        return false;
    }
    if !path_starts_with_exec(path, root) {
        return false;
    }
    let pc = comps_of(chars_of(path).as_slice());
    let rc = comps_of(chars_of(root).as_slice());
    assert(vv(pc@).len() == pc@.len());
    assert(vv(rc@).len() == rc@.len());
    let sel = chars_of("selected");
    let mut i: usize = rc.len();
    while i < pc.len()
        invariant
            rc@.len() <= i <= pc@.len(),
            vv(pc@) == components(path@),
            vv(rc@) == components(root@),
            sel@ == "selected"@,
            payload_file(path@),
            path_starts_with(path@, root@),
            forall|j: int| rc@.len() <= j < i ==> lower_seq(#[trigger] vv(pc@)[j]) != lower_seq("selected"@),
        decreases pc.len() - i,
    {
        if eq_ignore_case(pc[i].as_slice(), sel.as_slice()) {
            proof {
                let rel = components(path@).skip(components(root@).len() as int);
                assert(rel[i - rc@.len()] == vv(pc@)[i as int]);
                assert(vv(pc@)[i as int] == pc@[i as int]@);
                assert(lower_seq(rel[i - rc@.len()]) == lower_seq("selected"@));
            }
            return true;
        }
        i += 1;
    }
    proof {
        let rel = components(path@).skip(components(root@).len() as int);
        assert forall|k: int| 0 <= k < rel.len() implies lower_seq(#[trigger] rel[k]) != lower_seq("selected"@) by {
            assert(rel[k] == vv(pc@)[k + rc@.len()]);
        }
    }
    false
}

/// The ancestor of a path made of its first `k` components (`Path::ancestors`).
pub open spec fn ancestor(p: Seq<char>, k: int) -> Seq<char> {
    prefix_path(p, k)
}

/// The fewest components an ancestor has: a path that starts with a drive keeps the drive.
pub open spec fn least_ancestor(p: Seq<char>) -> int {
    if drive_first(p) {
        1
    } else {
        0
    }
}

/// Whether the ancestor with `k` components is the deepest proper one that exists.
pub open spec fn deepest_existing(p: Seq<char>, existing: Seq<String>, k: int) -> bool {
    let n = components(p).len();
    &&& least_ancestor(p) <= k < n
    &&& exists_in(ancestor(p, k), existing)
    &&& forall|j: int| k < j < n ==> !exists_in(#[trigger] ancestor(p, j), existing)
}

/// The nearest proper ancestor of a path that exists, given the paths known to exist.
pub open spec fn nearest_existing_spec(p: Seq<char>, existing: Seq<String>) -> Option<Seq<char>> {
    if exists|k: int| deepest_existing(p, existing, k) {
        let k = choose|k: int| deepest_existing(p, existing, k);
        Some(ancestor(p, k))
    } else {
        None
    }
}

pub open spec fn exists_in(p: Seq<char>, existing: Seq<String>) -> bool {
    exists|i: int| 0 <= i < existing.len() && same_components(#[trigger] existing[i]@, p)
}

fn exists_in_exec(p: &str, existing: &Vec<String>) -> (r: bool)
    ensures
        r == exists_in(p@, existing@),
{
    let mut i: usize = 0;
    while i < existing.len()
        invariant
            i <= existing@.len(),
            forall|j: int| 0 <= j < i ==> !same_components(#[trigger] existing@[j]@, p@),
        decreases existing.len() - i,
    {
        if same_components_exec(existing[i].as_str(), p) {
            return true;
        }
        i += 1;
    }
    false
}

/// The nearest proper ancestor of `path` that is among `existing`: of those that are, the
/// one with the most components. Nothing where none is.
pub fn nearest_existing_parent(path: &str, existing: &Vec<String>) -> (r: Option<String>)
    ensures
        opt_view_s(r) == nearest_existing_spec(path@, existing@),
        match r {
            Some(a) => exists|k: int| deepest_existing(path@, existing@, k) && a@ == ancestor(path@, k),
            None => forall|k: int| least_ancestor(path@) <= k < components(path@).len() ==> !exists_in(
                #[trigger] ancestor(path@, k),
                existing@,
            ),
        },
{
    let p = chars_of(path);
    let comps = comps_of(p.as_slice());
    assert(vv(comps@).len() == comps@.len());
    if comps.len() > 0 {
        assert(vv(comps@)[0] == comps@[0]@);
    }
    let lo: usize = if !is_rooted_exec(p.as_slice()) && comps.len() > 0 && is_drive_exec(comps[0].as_slice()) {
        1
    } else {
        0
    };
    assert(lo as int == least_ancestor(path@));
    let mut k: usize = comps.len();
    while k > lo
        invariant
            lo <= k <= comps@.len(),
            lo as int == least_ancestor(path@),
            vv(comps@) == components(path@),
            p@ == path@,
            forall|j: int| k <= j < components(path@).len() ==> !exists_in(#[trigger] ancestor(path@, j), existing@),
        decreases k,
    {
        let kk = k - 1;
        let cand = string_from(prefix_path_exec(p.as_slice(), comps.as_slice(), kk).as_slice());
        assert(cand@ == ancestor(path@, kk as int));
        if exists_in_exec(cand.as_str(), existing) {
            proof {
                assert(deepest_existing(path@, existing@, kk as int));
                let c = choose|c: int| deepest_existing(path@, existing@, c);
                if c < kk {
                    assert(!exists_in(ancestor(path@, kk as int), existing@));
                } else if c > kk {
                    assert(!exists_in(ancestor(path@, c), existing@));
                }
            }
            return Some(cand);
        }
        k = kk;
    }
    proof {
        if exists|c: int| deepest_existing(path@, existing@, c) {
            let c = choose|c: int| deepest_existing(path@, existing@, c);
            assert(!exists_in(ancestor(path@, c), existing@));
        }
    }
    None
}

pub open spec fn opt_view_s(o: Option<String>) -> Option<Seq<char>> {
    match o {
        Some(s) => Some(s@),
        None => None,
    }
}

pub open spec fn is_build_dir(name: Seq<char>) -> bool {
    lower_seq(name) == lower_seq("pck_build"@)
}

/// The payloads of the translation memory: its `pck_build` folders and its package and
/// archive files, in walk order.
pub open spec fn memory_payloads(n: FsNode) -> Seq<Seq<char>>
    decreases n, 0nat,
{
    memory_payloads_list(n.children@)
}

pub open spec fn memory_payloads_list(c: Seq<FsNode>) -> Seq<Seq<char>>
    decreases c, 1nat,
{
    if c.len() == 0 {
        Seq::empty()
    } else {
        let prev = memory_payloads_list(c.drop_last());
        let e = c[c.len() - 1];
        if e.is_dir {
            if is_build_dir(e.name@) {
                prev.push(e.path@)
            } else {
                prev + memory_payloads(e)
            }
        } else if payload_file(e.path@) {
            prev.push(e.path@)
        } else {
            prev
        }
    }
}

pub fn collect_translation_memory_payloads(node: &FsNode, payloads: &mut Vec<String>)
    ensures
        strings_view(final(payloads)@) == strings_view(old(payloads)@) + memory_payloads(*node),
    decreases node,
{
    let ghost start = strings_view(payloads@);
    let build = chars_of("pck_build");
    let mut i: usize = 0;
    while i < node.children.len()
        invariant
            i <= node.children@.len(),
            build@ == "pck_build"@,
            strings_view(payloads@) == start + memory_payloads_list(node.children@.take(i as int)),
        decreases node.children.len() - i,
    {
        let child = &node.children[i];
        let ghost before = strings_view(payloads@);
        proof {
            let t = node.children@.take(i + 1);
            assert(t.drop_last() =~= node.children@.take(i as int));
            assert(t[t.len() - 1] == node.children@[i as int]);
            assert(decreases_to!(node => node.children));
        }
        if child.is_dir {
            if eq_ignore_case(chars_of(child.name.as_str()).as_slice(), build.as_slice()) {
                payloads.push(child.path.clone());
                assert(strings_view(payloads@) =~= before.push(child.path@));
            } else {
                collect_translation_memory_payloads(child, payloads);
            }
        } else if crate::model::is_translation_memory_payload_file(child.path.as_str()) {
            payloads.push(child.path.clone());
            assert(strings_view(payloads@) =~= before.push(child.path@));
        }
        i += 1;
    }
    assert(node.children@.take(i as int) =~= node.children@);
}

pub open spec fn work_build_dir(name: Seq<char>) -> bool {
    let l = lower_seq(name);
    l == "expanded_archive"@ || l == "pck_build"@ || (l.len() >= 13 && l.skip(l.len() - 13) == ".pck.contents"@)
}

/// What a cleanup removes from the work folder: its unpacked archives, PCK builds and
/// extracted PCK folders, and the package and archive files of its `selected` folders.
pub open spec fn work_payloads(base: Seq<char>, n: FsNode) -> Seq<Seq<char>>
    decreases n, 0nat,
{
    if !n.is_dir {
        Seq::empty()
    } else {
        work_payloads_list(base, n.children@)
    }
}

pub open spec fn work_payloads_list(base: Seq<char>, c: Seq<FsNode>) -> Seq<Seq<char>>
    decreases c, 1nat,
{
    if c.len() == 0 {
        Seq::empty()
    } else {
        let prev = work_payloads_list(base, c.drop_last());
        let e = c[c.len() - 1];
        if e.is_dir {
            if work_build_dir(e.name@) {
                prev.push(e.path@)
            } else {
                prev + work_payloads(base, e)
            }
        } else if selected_payload_spec(base, e.path@) {
            prev.push(e.path@)
        } else {
            prev
        }
    }
}

fn work_build_dir_exec(name: &str) -> (r: bool)
    ensures
        r == work_build_dir(name@),
{
    let l = ascii_lower(chars_of(name).as_slice());
    let a = chars_of("expanded_archive");
    let b = chars_of("pck_build");
    let c = chars_of(".pck.contents");
    proof {
        reveal_strlit(".pck.contents");
    }
    let e = ends_with(l.as_slice(), c.as_slice());
    seq_eq(l.as_slice(), a.as_slice()) || seq_eq(l.as_slice(), b.as_slice()) || e
}

/// The paths that cleaning the work folder removes, in walk order.
pub fn cleanup_translation_work_payloads_inner(base: &str, node: &FsNode, out: &mut Vec<String>)
    ensures
        strings_view(final(out)@) == strings_view(old(out)@) + work_payloads(base@, *node),
    decreases node,
{
    if !node.is_dir {
        assert(strings_view(out@) + Seq::<Seq<char>>::empty() =~= strings_view(out@));
        return ;
    }
    let ghost start = strings_view(out@);
    let mut i: usize = 0;
    while i < node.children.len()
        invariant
            i <= node.children@.len(),
            node.is_dir,
            strings_view(out@) == start + work_payloads_list(base@, node.children@.take(i as int)),
        decreases node.children.len() - i,
    {
        let child = &node.children[i];
        let ghost before = strings_view(out@);
        proof {
            let t = node.children@.take(i + 1);
            assert(t.drop_last() =~= node.children@.take(i as int));
            assert(t[t.len() - 1] == node.children@[i as int]);
            assert(decreases_to!(node => node.children));
        }
        if child.is_dir {
            if work_build_dir_exec(child.name.as_str()) {
                out.push(child.path.clone());
                assert(strings_view(out@) =~= before.push(child.path@));
            } else {
                cleanup_translation_work_payloads_inner(base, child, out);
            }
        } else if is_selected_translation_payload_file(base, child.path.as_str()) {
            out.push(child.path.clone());
            assert(strings_view(out@) =~= before.push(child.path@));
        }
        i += 1;
    }
    assert(node.children@.take(i as int) =~= node.children@);
}

/// The paths that cleaning the work folder removes.
pub fn cleanup_translation_work_payloads(root: &FsNode) -> (r: Vec<String>)
    ensures
        strings_view(r@) == work_payloads(root.path@, *root),
{
    let mut out: Vec<String> = Vec::new();
    assert(strings_view(out@) =~= Seq::<Seq<char>>::empty());
    cleanup_translation_work_payloads_inner(root.path.as_str(), root, &mut out);
    assert(strings_view(out@) =~= work_payloads(root.path@, *root));
    out
}


pub open spec fn skipped_work_dir(name: Seq<char>) -> bool {
    let l = lower_seq(name);
    l == "selected"@ || l == "translation_memory"@
}

/// The usage after counting the payloads of the work folder: unpacked archives, PCK
/// builds, extracted PCK folders and package or archive files, leaving out the `selected`
/// and `translation_memory` folders.
pub open spec fn payload_usage(u: (nat, nat, u64), n: FsNode) -> (nat, nat, u64)
    decreases n, 0nat,
{
    if !n.is_dir {
        u
    } else {
        payload_usage_list(u, n.children@)
    }
}

pub open spec fn payload_usage_list(u: (nat, nat, u64), c: Seq<FsNode>) -> (nat, nat, u64)
    decreases c, 1nat,
{
    if c.len() == 0 {
        u
    } else {
        let prev = payload_usage_list(u, c.drop_last());
        let e = c[c.len() - 1];
        if e.is_dir {
            if skipped_work_dir(e.name@) {
                prev
            } else if work_build_dir(e.name@) {
                usage_spec(prev, e)
            } else {
                payload_usage(prev, e)
            }
        } else if payload_file(e.path@) {
            usage_spec(prev, e)
        } else {
            prev
        }
    }
}

proof fn lemma_payload_grows(u: (nat, nat, u64), n: FsNode)
    ensures
        payload_usage(u, n).0 + payload_usage(u, n).1 <= u.0 + u.1 + tree_size(n),
    decreases n, 0nat,
{
    if n.is_dir {
        lemma_payload_list_grows(u, n.children@);
    }
}

proof fn lemma_payload_list_grows(u: (nat, nat, u64), c: Seq<FsNode>)
    ensures
        payload_usage_list(u, c).0 + payload_usage_list(u, c).1 <= u.0 + u.1 + forest_size(c),
    decreases c, 1nat,
{
    if c.len() > 0 {
        lemma_payload_list_grows(u, c.drop_last());
        let p = payload_usage_list(u, c.drop_last());
        lemma_usage_grows(p, c[c.len() - 1]);
        lemma_payload_grows(p, c[c.len() - 1]);
    }
}

fn skipped_work_dir_exec(name: &str) -> (r: bool)
    ensures
        r == skipped_work_dir(name@),
{
    let l = ascii_lower(chars_of(name).as_slice());
    seq_eq(l.as_slice(), chars_of("selected").as_slice()) || seq_eq(
        l.as_slice(),
        chars_of("translation_memory").as_slice(),
    )
}

pub fn add_translation_work_payload_usage(node: &FsNode, usage: &mut CacheUsageDto)
    requires
        old(usage).dirs + old(usage).files + tree_size(*node) <= usize::MAX,
    ensures
        usage_of(*final(usage)) == payload_usage(usage_of(*old(usage)), *node),
    decreases node,
{
    if !node.is_dir {
        return ;
    }
    let ghost start = usage_of(*usage);
    let mut i: usize = 0;
    while i < node.children.len()
        invariant
            i <= node.children@.len(),
            node.is_dir,
            start.0 + start.1 + forest_size(node.children@) <= usize::MAX,
            usage_of(*usage) == payload_usage_list(start, node.children@.take(i as int)),
        decreases node.children.len() - i,
    {
        let child = &node.children[i];
        proof {
            let t = node.children@.take(i + 1);
            assert(t.drop_last() =~= node.children@.take(i as int));
            assert(t[t.len() - 1] == node.children@[i as int]);
            lemma_payload_list_grows(start, node.children@.take(i as int));
            lemma_forest_prefix(node.children@, i + 1);
            assert(decreases_to!(node => node.children));
        }
        if child.is_dir {
            if skipped_work_dir_exec(child.name.as_str()) {
            } else if work_build_dir_exec(child.name.as_str()) {
                add_cache_path_usage(child, usage);
            } else {
                add_translation_work_payload_usage(child, usage);
            }
        } else if crate::model::is_translation_memory_payload_file(child.path.as_str()) {
            add_cache_path_usage(child, usage);
        }
        i += 1;
    }
    assert(node.children@.take(i as int) =~= node.children@);
}

pub open spec fn opt_size(n: Option<&FsNode>) -> nat {
    match n {
        Some(x) => tree_size(*x),
        None => 0,
    }
}

pub open spec fn opt_usage(u: (nat, nat, u64), n: Option<&FsNode>) -> (nat, nat, u64) {
    match n {
        Some(x) => usage_spec(u, *x),
        None => u,
    }
}

/// How much room the work caches take: the preview extractions, the drop imports, the
/// preview cache file, and the payloads of the work folder. Each is `None` where it does
/// not exist.
pub fn work_cache_usage(
    preview_extract: Option<&FsNode>,
    drop_imports: Option<&FsNode>,
    preview_cache_file: Option<&FsNode>,
    work_dir: Option<&FsNode>,
) -> (r: CacheUsageDto)
    requires
        opt_size(preview_extract) + opt_size(drop_imports) + opt_size(preview_cache_file) + opt_size(work_dir)
            <= usize::MAX,
    ensures
        usage_of(r) == ({
            let a = opt_usage((0, 0, 0), preview_extract);
            let b = opt_usage(a, drop_imports);
            let c = opt_usage(b, preview_cache_file);
            match work_dir {
                Some(w) => payload_usage(c, *w),
                None => c,
            }
        }),
{
    let mut usage = CacheUsageDto { bytes: 0, files: 0, dirs: 0 };
    if let Some(n) = preview_extract {
        add_cache_path_usage(n, &mut usage);
        proof { lemma_usage_grows((0, 0, 0), *n); }
    }
    let ghost a = usage_of(usage);
    if let Some(n) = drop_imports {
        add_cache_path_usage(n, &mut usage);
        proof { lemma_usage_grows(a, *n); }
    }
    let ghost b = usage_of(usage);
    if let Some(n) = preview_cache_file {
        add_cache_path_usage(n, &mut usage);
        proof { lemma_usage_grows(b, *n); }
    }
    if let Some(n) = work_dir {
        if n.is_dir {
            add_translation_work_payload_usage(n, &mut usage);
        }
    }
    usage
}

/// Law of the work cleanup: every folder directly in the work folder that is named
/// `expanded_archive`, `pck_build` (any ASCII case) or ends in `.pck.contents` is among the
/// paths removed.
pub proof fn lemma_work_cleanup_removes_build_dirs(base: Seq<char>, n: FsNode, i: int)
    requires
        n.is_dir,
        0 <= i < n.children@.len(),
        n.children@[i].is_dir,
        lower_seq(n.children@[i].name@) == "expanded_archive"@ || lower_seq(n.children@[i].name@) == "pck_build"@
            || lower_seq(n.children@[i].name@).len() >= 13 && lower_seq(n.children@[i].name@).skip(
            lower_seq(n.children@[i].name@).len() - 13,
        ) == ".pck.contents"@,
    ensures
        work_payloads(base, n).contains(n.children@[i].path@),
{
    lemma_build_dir_listed(base, n.children@, i);
}

/// What a cleanup removes inside an ordinary (not removed) folder of the work folder is
/// removed from the work folder too, so the law above holds at any depth.
pub proof fn lemma_work_cleanup_descends(base: Seq<char>, n: FsNode, i: int, x: Seq<char>)
    requires
        n.is_dir,
        0 <= i < n.children@.len(),
        n.children@[i].is_dir,
        !work_build_dir(n.children@[i].name@),
        work_payloads(base, n.children@[i]).contains(x),
    ensures
        work_payloads(base, n).contains(x),
{
    lemma_nested_listed(base, n.children@, i, x);
}

proof fn lemma_nested_listed(base: Seq<char>, c: Seq<FsNode>, i: int, x: Seq<char>)
    requires
        0 <= i < c.len(),
        c[i].is_dir,
        !work_build_dir(c[i].name@),
        work_payloads(base, c[i]).contains(x),
    ensures
        work_payloads_list(base, c).contains(x),
    decreases c.len(),
{
    let prev = work_payloads_list(base, c.drop_last());
    let e = c[c.len() - 1];
    let r = work_payloads_list(base, c);
    if i == c.len() - 1 {
        let w = work_payloads(base, e);
        assert(r == prev + w);
        let k = choose|k: int| 0 <= k < w.len() && w[k] == x;
        assert(r[prev.len() + k] == x);
    } else {
        assert(c.drop_last()[i] == c[i]);
        lemma_nested_listed(base, c.drop_last(), i, x);
        let k = choose|k: int| 0 <= k < prev.len() && prev[k] == x;
        if e.is_dir && !work_build_dir(e.name@) {
            assert(r == prev + work_payloads(base, e));
        }
        assert(r[k] == prev[k]);
    }
}

proof fn lemma_build_dir_listed(base: Seq<char>, c: Seq<FsNode>, i: int)
    requires
        0 <= i < c.len(),
        c[i].is_dir,
        lower_seq(c[i].name@) == "expanded_archive"@ || lower_seq(c[i].name@) == "pck_build"@
            || lower_seq(c[i].name@).len() >= 13 && lower_seq(c[i].name@).skip(lower_seq(c[i].name@).len() - 13)
            == ".pck.contents"@,
    ensures
        work_payloads_list(base, c).contains(c[i].path@),
    decreases c.len(),
{
    let prev = work_payloads_list(base, c.drop_last());
    let e = c[c.len() - 1];
    if i == c.len() - 1 {
        assert(work_build_dir(e.name@));
        assert(work_payloads_list(base, c) == prev.push(e.path@));
        assert(work_payloads_list(base, c)[prev.len() as int] == e.path@);
    } else {
        assert(c.drop_last()[i] == c[i]);
        lemma_build_dir_listed(base, c.drop_last(), i);
        let k = choose|k: int| 0 <= k < prev.len() && prev[k] == c[i].path@;
        let r = work_payloads_list(base, c);
        if e.is_dir {
            if work_build_dir(e.name@) {
                assert(r[k] == prev[k]);
            } else {
                assert(r == prev + work_payloads(base, e));
                assert(r[k] == prev[k]);
            }
        } else if selected_payload_spec(base, e.path@) {
            assert(r[k] == prev[k]);
        } else {
            assert(r[k] == prev[k]);
        }
    }
}

} // verus!
