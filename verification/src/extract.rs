//! What extracting a selected resource copies out of a scanned folder: the selection read
//! as a resource path, the entries it names, and those paths in path order.
use vstd::prelude::*;
use crate::text::{chars_of, string_from, lower_seq, ascii_lower, seq_eq, trim, trim_seq};
use crate::paths::{components, comps_of, vv};
use crate::node::{path_lt, comps_lt, comps_lt_exec, extract_display_path, extract_display_spec};
use crate::cache::FsNode;
use crate::order::strings_view;
use crate::walk::{is_contents_name, is_contents_name_exec};

verus! {

broadcast use vstd::string::group_string_axioms;

pub open spec fn slash_char(c: char) -> char {
    if c == '\\' {
        '/'
    } else {
        c
    }
}

/// A resource path as selections are compared: `\` read as `/`, ASCII letters in lower
/// case, and trailing `/` dropped (but `res://` kept whole).
pub open spec fn normalize_resource_spec(path: Seq<char>) -> Seq<char> {
    let n = lower_seq(path.map_values(|c: char| slash_char(c)));
    if n == "res://"@ {
        n
    } else {
        n.take(n.len() - crate::resources::trail_count(n, |c: char| c == '/'))
    }
}

pub fn normalize_resource_path(path: &str) -> (r: String)
    ensures
        r@ == normalize_resource_spec(path@),
{
    let p = chars_of(path);
    let mut s: Vec<char> = Vec::new();
    let mut i: usize = 0;
    while i < p.len()
        invariant
            i <= p@.len(),
            s@ == p@.take(i as int).map_values(|c: char| slash_char(c)),
        decreases p.len() - i,
    {
        s.push(if p[i] == '\\' { '/' } else { p[i] });
        i += 1;
        assert(s@ =~= p@.take(i as int).map_values(|c: char| slash_char(c)));
    }
    assert(p@.take(p@.len() as int) =~= p@);
    let n = ascii_lower(s.as_slice());
    let res = chars_of("res://");
    if seq_eq(n.as_slice(), res.as_slice()) {
        return string_from(n.as_slice());
    }
    let mut end: usize = n.len();
    while end > 0 && n[end - 1] == '/'
        invariant
            end <= n@.len(),
            forall|j: int| end <= j < n@.len() ==> #[trigger] n@[j] == '/',
        decreases end,
    {
        end -= 1;
    }
    proof {
        let q = |c: char| c == '/';
        let k = n@.len() - end;
        assert forall|j: int| n@.len() - k <= j < n@.len() implies q(#[trigger] n@[j]) by {}
        crate::resources::lemma_trail_count(n@, q, k);
    }
    let mut out: Vec<char> = Vec::new();
    let mut k: usize = 0;
    while k < end
        invariant
            end <= n@.len(),
            k <= end,
            out@ == n@.take(k as int),
        decreases end - k,
    {
        out.push(n[k]);
        k += 1;
        assert(out@ =~= n@.take(k as int));
    }
    string_from(out.as_slice())
}

/// Paths in strictly increasing path order.
pub open spec fn paths_sorted(r: Seq<Seq<char>>) -> bool {
    forall|i: int, j: int| 0 <= i < j < r.len() ==> path_lt(r[i], r[j])
}

/// `i` is the first of the paths with its components.
pub open spec fn first_of_class(v: Seq<Seq<char>>, i: int) -> bool {
    forall|j: int| 0 <= j < i ==> components(#[trigger] v[j]) != components(v[i])
}

/// Some path of `r` has the components of `x`.
pub open spec fn has_class(r: Seq<Seq<char>>, x: Seq<char>) -> bool {
    exists|k: int| 0 <= k < r.len() && components(#[trigger] r[k]) == components(x)
}

/// `x` is one of the first `n` paths of `v`, the first with its components.
pub open spec fn first_rep(v: Seq<Seq<char>>, n: int, x: Seq<char>) -> bool {
    exists|i: int| 0 <= i < n && #[trigger] v[i] == x && first_of_class(v, i)
}

/// `r` is `v` sorted by path with equal paths kept once (the first of them), as `sort`
/// then `dedup` leave a list of paths.
pub open spec fn sorted_paths_ok(v: Seq<Seq<char>>, r: Seq<Seq<char>>) -> bool {
    &&& paths_sorted(r)
    &&& forall|i: int| 0 <= i < v.len() ==> has_class(r, #[trigger] v[i])
    &&& forall|k: int| 0 <= k < r.len() ==> first_rep(v, v.len() as int, #[trigger] r[k])
}

proof fn lemma_insert_sorted(ov: Seq<Seq<char>>, pos: int, x: Seq<char>)
    requires
        0 <= pos <= ov.len(),
        paths_sorted(ov),
        forall|k: int| 0 <= k < pos ==> path_lt(#[trigger] ov[k], x),
        pos < ov.len() ==> path_lt(x, ov[pos]),
    ensures
        paths_sorted(ov.insert(pos, x)),
{
    let nv = ov.insert(pos, x);
    assert forall|a: int, b: int| 0 <= a < b < nv.len() implies path_lt(nv[a], nv[b]) by {
        if b < pos {
            assert(nv[a] == ov[a] && nv[b] == ov[b]);
        } else if b == pos {
            assert(nv[a] == ov[a]);
        } else if a > pos {
            assert(nv[a] == ov[a - 1] && nv[b] == ov[b - 1]);
        } else if a == pos {
            assert(nv[b] == ov[b - 1]);
            if b - 1 > pos {
                assert(path_lt(ov[pos], ov[b - 1]));
                crate::node::lemma_comps_transitive(components(x), components(ov[pos]), components(ov[b - 1]));
            }
        } else {
            assert(nv[a] == ov[a] && nv[b] == ov[b - 1]);
        }
    }
}

#[verifier::opaque]
pub open spec fn covers(sv: Seq<Seq<char>>, n: int, ov: Seq<Seq<char>>) -> bool {
    forall|m: int| 0 <= m < n ==> has_class(ov, #[trigger] sv[m])
}

#[verifier::opaque]
pub open spec fn reps(sv: Seq<Seq<char>>, n: int, ov: Seq<Seq<char>>) -> bool {
    forall|k: int| 0 <= k < ov.len() ==> first_rep(sv, n, #[trigger] ov[k])
}

proof fn lemma_step_same(sv: Seq<Seq<char>>, i: int, ov: Seq<Seq<char>>, pos: int)
    requires
        0 <= i < sv.len(),
        0 <= pos < ov.len(),
        covers(sv, i, ov),
        reps(sv, i, ov),
        components(ov[pos]) == components(sv[i]),
    ensures
        covers(sv, i + 1, ov),
        reps(sv, i + 1, ov),
{
    reveal(covers);
    reveal(reps);
    assert forall|m: int| 0 <= m < i + 1 implies has_class(ov, #[trigger] sv[m]) by {
        if m == i {
            assert(components(ov[pos]) == components(sv[m]));
        }
    }
    assert forall|k: int| 0 <= k < ov.len() implies first_rep(sv, i + 1, #[trigger] ov[k]) by {
        assert(first_rep(sv, i, ov[k]));
        let m = choose|m: int| 0 <= m < i && #[trigger] sv[m] == ov[k] && first_of_class(sv, m);
    }
}

proof fn lemma_insert_first(sv: Seq<Seq<char>>, i: int, ov: Seq<Seq<char>>, pos: int)
    requires
        0 <= i < sv.len(),
        0 <= pos <= ov.len(),
        paths_sorted(ov),
        covers(sv, i, ov),
        forall|k: int| 0 <= k < pos ==> path_lt(#[trigger] ov[k], sv[i]),
        pos < ov.len() ==> path_lt(sv[i], ov[pos]),
    ensures
        first_of_class(sv, i),
{
    reveal(covers);
    reveal(reps);
    let x = sv[i];
    crate::node::lemma_comps_irreflexive(components(x));
    assert forall|j: int| 0 <= j < i implies components(#[trigger] sv[j]) != components(x) by {
        assert(has_class(ov, sv[j]));
        let k = choose|k: int| 0 <= k < ov.len() && components(#[trigger] ov[k]) == components(sv[j]);
        if components(sv[j]) == components(x) {
            if k < pos {
                assert(path_lt(ov[k], x));
            } else if k > pos {
                assert(path_lt(ov[pos], ov[k]));
                crate::node::lemma_comps_transitive(components(x), components(ov[pos]), components(ov[k]));
            }
        }
    }
}

proof fn lemma_insert_covers(sv: Seq<Seq<char>>, i: int, ov: Seq<Seq<char>>, pos: int)
    requires
        0 <= i < sv.len(),
        0 <= pos <= ov.len(),
        covers(sv, i, ov),
    ensures
        covers(sv, i + 1, ov.insert(pos, sv[i])),
{
    reveal(covers);
    reveal(reps);
    let nv = ov.insert(pos, sv[i]);
    assert forall|m: int| 0 <= m < i + 1 implies has_class(nv, #[trigger] sv[m]) by {
        if m == i {
            assert(nv[pos] == sv[i]);
        } else {
            assert(has_class(ov, sv[m]));
            let k = choose|k: int| 0 <= k < ov.len() && components(#[trigger] ov[k]) == components(sv[m]);
            if k < pos {
                assert(nv[k] == ov[k]);
            } else {
                assert(nv[k + 1] == ov[k]);
            }
        }
    }
}

proof fn lemma_insert_reps(sv: Seq<Seq<char>>, i: int, ov: Seq<Seq<char>>, pos: int)
    requires
        0 <= i < sv.len(),
        0 <= pos <= ov.len(),
        reps(sv, i, ov),
        first_of_class(sv, i),
    ensures
        reps(sv, i + 1, ov.insert(pos, sv[i])),
{
    reveal(covers);
    reveal(reps);
    let nv = ov.insert(pos, sv[i]);
    assert forall|k: int| 0 <= k < nv.len() implies first_rep(sv, i + 1, #[trigger] nv[k]) by {
        if k < pos {
            assert(nv[k] == ov[k]);
            assert(first_rep(sv, i, ov[k]));
        } else if k > pos {
            assert(nv[k] == ov[k - 1]);
            assert(first_rep(sv, i, ov[k - 1]));
        } else {
            assert(nv[k] == sv[i]);
        }
    }
}

proof fn lemma_sorted_paths(sv: Seq<Seq<char>>, r: Seq<Seq<char>>)
    requires
        paths_sorted(r),
        covers(sv, sv.len() as int, r),
        reps(sv, sv.len() as int, r),
    ensures
        sorted_paths_ok(sv, r),
{
    reveal(covers);
    reveal(reps);
}

/// Sorts paths by path, each once.
pub fn sort_paths(v: &Vec<String>) -> (r: Vec<String>)
    ensures
        sorted_paths_ok(strings_view(v@), strings_view(r@)),
{
    let ghost sv = strings_view(v@);
    let mut out: Vec<String> = Vec::new();
    let mut oc: Vec<Vec<Vec<char>>> = Vec::new();
    let mut i: usize = 0;
    assert(covers(sv, 0, strings_view(out@))) by {
        reveal(covers);
    }
    assert(reps(sv, 0, strings_view(out@))) by {
        reveal(reps);
    }
    while i < v.len()
        invariant
            sv == strings_view(v@),
            i <= v@.len(),
            oc@.len() == out@.len(),
            forall|k: int| 0 <= k < out@.len() ==> vv(#[trigger] oc@[k]@) == components(out@[k]@),
            paths_sorted(strings_view(out@)),
            covers(sv, i as int, strings_view(out@)),
            reps(sv, i as int, strings_view(out@)),
        decreases v.len() - i,
    {
        let c = comps_of(chars_of(v[i].as_str()).as_slice());
        assert(sv[i as int] == v@[i as int]@);
        let ghost ov = strings_view(out@);
        let mut pos: usize = 0;
        while pos < out.len() && comps_lt_exec(&oc[pos], &c)
            invariant
                pos <= out@.len(),
                oc@.len() == out@.len(),
                forall|k: int| 0 <= k < pos ==> comps_lt(vv(#[trigger] oc@[k]@), vv(c@)),
            decreases out.len() - pos,
        {
            pos += 1;
        }
        proof {
            assert forall|k: int| 0 <= k < pos implies path_lt(#[trigger] ov[k], sv[i as int]) by {
                assert(vv(oc@[k]@) == components(out@[k]@));
                assert(comps_lt(vv(oc@[k]@), vv(c@)));
            }
            if pos < out@.len() {
                assert(vv(oc@[pos as int]@) == components(ov[pos as int]));
                crate::node::lemma_comps_total(vv(oc@[pos as int]@), vv(c@));
            }
        }
        let same = pos < out.len() && !comps_lt_exec(&c, &oc[pos]);
        if same {
            proof {
                lemma_step_same(sv, i as int, ov, pos as int);
            }
        } else {
            let ghost beforec = oc@;
            let ghost before = out@;
            out.insert(pos, v[i].clone());
            oc.insert(pos, c);
            proof {
                assert(strings_view(out@) =~= ov.insert(pos as int, sv[i as int]));
                lemma_insert_sorted(ov, pos as int, sv[i as int]);
                lemma_insert_first(sv, i as int, ov, pos as int);
                lemma_insert_covers(sv, i as int, ov, pos as int);
                lemma_insert_reps(sv, i as int, ov, pos as int);
                assert forall|k: int| 0 <= k < out@.len() implies vv(#[trigger] oc@[k]@) == components(out@[k]@) by {
                    if k < pos {
                        assert(oc@[k] == beforec[k] && out@[k] == before[k]);
                    } else if k > pos {
                        assert(oc@[k] == beforec[k - 1] && out@[k] == before[k - 1]);
                    }
                }
            }
        }
        i += 1;
    }
    proof {
        lemma_sorted_paths(sv, strings_view(out@));
    }
    out
}

/// The unpacked PCK folders below a node, in walk order; their insides are not searched.
pub open spec fn resource_roots(n: FsNode) -> Seq<Seq<char>>
    decreases n, 0nat,
{
    if !n.is_dir {
        Seq::empty()
    } else if is_contents_name(n.name@) {
        seq![n.path@]
    } else {
        resource_roots_list(n.children@)
    }
}

pub open spec fn resource_roots_list(c: Seq<FsNode>) -> Seq<Seq<char>>
    decreases c, 1nat,
{
    if c.len() == 0 {
        Seq::empty()
    } else {
        resource_roots_list(c.drop_last()) + resource_roots(c[c.len() - 1])
    }
}

fn collect_pck_resource_roots(node: &FsNode, roots: &mut Vec<String>)
    ensures
        strings_view(final(roots)@) == strings_view(old(roots)@) + resource_roots(*node),
    decreases node,
{
    if !node.is_dir {
        assert(strings_view(roots@) =~= strings_view(old(roots)@) + Seq::<Seq<char>>::empty());
        return;
    }
    if is_contents_name_exec(node.name.as_str()) {
        roots.push(node.path.clone());
        assert(strings_view(roots@) =~= strings_view(old(roots)@) + seq![node.path@]);
        return;
    }
    let ghost start = strings_view(roots@);
    let mut i: usize = 0;
    assert(start + resource_roots_list(node.children@.take(0)) =~= start);
    while i < node.children.len()
        invariant
            i <= node.children@.len(),
            strings_view(roots@) == start + resource_roots_list(node.children@.take(i as int)),
        decreases node.children.len() - i,
    {
        proof {
            let t = node.children@.take(i + 1);
            assert(t.drop_last() =~= node.children@.take(i as int));
            assert(t[t.len() - 1] == node.children@[i as int]);
            assert(decreases_to!(node => node.children));
        }
        collect_pck_resource_roots(&node.children[i], roots);
        i += 1;
        proof {
            assert(strings_view(roots@) =~= start + resource_roots_list(node.children@.take(i as int)));
        }
    }
    assert(node.children@.take(i as int) =~= node.children@);
}

/// The unpacked PCK folders of a scanned folder, in path order.
pub fn pck_resource_roots(scan_root: &FsNode) -> (r: Vec<String>)
    ensures
        sorted_paths_ok(resource_roots(*scan_root), strings_view(r@)),
{
    let mut roots: Vec<String> = Vec::new();
    collect_pck_resource_roots(scan_root, &mut roots);
    assert(strings_view(roots@) =~= resource_roots(*scan_root));
    sort_paths(&roots)
}

/// The entries below a scanned folder (or the folder itself) that a normalised resource
/// path names, by their resource path or their own path; a named folder is taken whole.
pub open spec fn matching_paths(scan_root: Seq<char>, n: FsNode, normalized: Seq<char>) -> Seq<Seq<char>>
    decreases n, 0nat,
{
    if normalize_resource_spec(extract_display_spec(scan_root, n.path@)) == normalized
        || normalize_resource_spec(n.path@) == normalized {
        seq![n.path@]
    } else if n.is_dir {
        matching_list(scan_root, n.children@, normalized)
    } else {
        Seq::empty()
    }
}

pub open spec fn matching_list(scan_root: Seq<char>, c: Seq<FsNode>, normalized: Seq<char>) -> Seq<Seq<char>>
    decreases c, 1nat,
{
    if c.len() == 0 {
        Seq::empty()
    } else {
        matching_list(scan_root, c.drop_last(), normalized) + matching_paths(scan_root, c[c.len() - 1], normalized)
    }
}

pub fn collect_matching_extract_paths(scan_root: &str, node: &FsNode, normalized: &str, output: &mut Vec<String>)
    ensures
        strings_view(final(output)@) == strings_view(old(output)@) + matching_paths(scan_root@, *node, normalized@),
    decreases node,
{
    let display = normalize_resource_path(extract_display_path(scan_root, node.path.as_str()).as_str());
    let absolute = normalize_resource_path(node.path.as_str());
    let n = chars_of(normalized);
    if seq_eq(chars_of(display.as_str()).as_slice(), n.as_slice()) || seq_eq(
        chars_of(absolute.as_str()).as_slice(),
        n.as_slice(),
    ) {
        output.push(node.path.clone());
        assert(strings_view(output@) =~= strings_view(old(output)@) + seq![node.path@]);
        return;
    }
    if !node.is_dir {
        assert(strings_view(output@) =~= strings_view(old(output)@) + Seq::<Seq<char>>::empty());
        return;
    }
    let ghost start = strings_view(output@);
    let mut i: usize = 0;
    assert(start + matching_list(scan_root@, node.children@.take(0), normalized@) =~= start);
    while i < node.children.len()
        invariant
            i <= node.children@.len(),
            strings_view(output@) == start + matching_list(scan_root@, node.children@.take(i as int), normalized@),
        decreases node.children.len() - i,
    {
        proof {
            let t = node.children@.take(i + 1);
            assert(t.drop_last() =~= node.children@.take(i as int));
            assert(t[t.len() - 1] == node.children@[i as int]);
            assert(decreases_to!(node => node.children));
        }
        collect_matching_extract_paths(scan_root, &node.children[i], normalized, output);
        i += 1;
        proof {
            assert(strings_view(output@) =~= start + matching_list(scan_root@, node.children@.take(i as int), normalized@));
        }
    }
    assert(node.children@.take(i as int) =~= node.children@);
}

/// What extracting a selection copies from a scanned folder: the whole folder where no
/// resource is chosen; every unpacked PCK folder for `res://`; else the entries the
/// resource path names, in path order, each once.
pub fn selected_extract_paths(scan_root: &FsNode, resource_path: Option<&str>) -> (r: Vec<String>)
    ensures
        match resource_path {
            None => strings_view(r@) == seq![scan_root.path@],
            Some(p) => if trim_seq(p@).len() == 0 {
                strings_view(r@) == seq![scan_root.path@]
            } else if normalize_resource_spec(trim_seq(p@)) == "res://"@ {
                sorted_paths_ok(resource_roots(*scan_root), strings_view(r@))
            } else {
                sorted_paths_ok(
                    matching_paths(scan_root.path@, *scan_root, normalize_resource_spec(trim_seq(p@))),
                    strings_view(r@),
                )
            },
        },
{
    let p = match resource_path {
        None => {
            let out = vec![scan_root.path.clone()];
            assert(strings_view(out@) =~= seq![scan_root.path@]);
            return out;
        },
        Some(p) => p,
    };
    let t = string_from(trim(chars_of(p).as_slice()).as_slice());
    if t.unicode_len() == 0 {
        let out = vec![scan_root.path.clone()];
        assert(strings_view(out@) =~= seq![scan_root.path@]);
        return out;
    }
    let normalized = normalize_resource_path(t.as_str());
    if seq_eq(chars_of(normalized.as_str()).as_slice(), chars_of("res://").as_slice()) {
        return pck_resource_roots(scan_root);
    }
    let mut paths: Vec<String> = Vec::new();
    collect_matching_extract_paths(scan_root.path.as_str(), scan_root, normalized.as_str(), &mut paths);
    assert(strings_view(paths@) =~= matching_paths(scan_root.path@, *scan_root, normalized@));
    sort_paths(&paths)
}

/// A Windows path that names a drive: a letter and `:`.
pub open spec fn has_drive(p: Seq<char>) -> bool {
    p.len() >= 2 && p[1] == ':' && (('a' <= p[0] && p[0] <= 'z') || ('A' <= p[0] && p[0] <= 'Z'))
}

/// A path without a drive and without a leading separator.
pub open spec fn is_relative_spec(p: Seq<char>) -> bool {
    !crate::paths::rooted(p) && !has_drive(p)
}

/// `base` with `more` pushed onto it, as `PathBuf::push` writes it for a relative `more`.
pub open spec fn push_text(base: Seq<char>, more: Seq<char>) -> Seq<char> {
    if base.len() > 0 && !crate::paths::is_sep(base.last()) {
        base + seq!['\\'] + more
    } else {
        base + more
    }
}

/// The normalised selections a file-system resource path stands for: the path itself, and
/// for a relative one also the path inside the scanned folder.
pub open spec fn fs_selections(scan_root: Seq<char>, raw: Seq<char>) -> Seq<Seq<char>> {
    if is_relative_spec(raw) {
        seq![normalize_resource_spec(raw), normalize_resource_spec(push_text(scan_root, raw))]
    } else {
        seq![normalize_resource_spec(raw)]
    }
}

pub open spec fn selected_by(sels: Seq<Seq<char>>, candidate: Seq<char>) -> bool {
    exists|i: int| 0 <= i < sels.len() && crate::resources::same_or_child_spec(normalize_resource_spec(candidate), #[trigger] sels[i])
}

pub open spec fn keep_selected(sels: Seq<Seq<char>>, cands: Seq<Seq<char>>) -> Seq<Seq<char>>
    decreases cands.len(),
{
    if cands.len() == 0 {
        Seq::empty()
    } else if selected_by(sels, cands.last()) {
        keep_selected(sels, cands.drop_last()).push(cands.last())
    } else {
        keep_selected(sels, cands.drop_last())
    }
}

/// The translation files a file-system path selects (a `res://` path selects none here):
/// those at or below it, in the scanner's order.
pub open spec fn fs_selected_spec(scan_root: Seq<char>, resource_path: Seq<char>, cands: Seq<Seq<char>>) -> Seq<Seq<char>> {
    let t = trim_seq(resource_path);
    if t.len() == 0 || (t.len() >= 6 && t.take(6) == "res://"@) {
        Seq::empty()
    } else {
        keep_selected(fs_selections(scan_root, t), cands)
    }
}

fn is_relative_exec(p: &[char]) -> (r: bool)
    ensures
        r == is_relative_spec(p@),
{
    let rooted = p.len() > 0 && (p[0] == '/' || p[0] == '\\');
    let drive = p.len() >= 2 && p[1] == ':' && (('a' <= p[0] && p[0] <= 'z') || ('A' <= p[0] && p[0] <= 'Z'));
    !rooted && !drive
}

fn push_text_exec(base: &str, more: &[char]) -> (r: String)
    ensures
        r@ == push_text(base@, more@),
{
    let mut out = chars_of(base);
    if out.len() > 0 && !(out[out.len() - 1] == '/' || out[out.len() - 1] == '\\') {
        out.push('\\');
    }
    crate::text::push_all(&mut out, more);
    assert(out@ =~= push_text(base@, more@));
    string_from(out.as_slice())
}

/// The translation files that a file-system path selects among the scanner's candidates.
pub fn selected_translation_files_from_filesystem_path(scan_root: &str, resource_path: &str, candidates: &Vec<String>) -> (r:
    Vec<String>)
    ensures
        strings_view(r@) == fs_selected_spec(scan_root@, resource_path@, strings_view(candidates@)),
{
    let t = trim(chars_of(resource_path).as_slice());
    let res = chars_of("res://");
    proof {
        reveal_strlit("res://");
    }
    if t.len() == 0 || crate::text::starts_with(t.as_slice(), res.as_slice()) {
        let out: Vec<String> = Vec::new();
        assert(strings_view(out@) =~= Seq::<Seq<char>>::empty());
        return out;
    }
    let ts = string_from(t.as_slice());
    let mut sels: Vec<String> = Vec::new();
    sels.push(normalize_resource_path(ts.as_str()));
    if is_relative_exec(t.as_slice()) {
        sels.push(normalize_resource_path(push_text_exec(scan_root, t.as_slice()).as_str()));
    }
    let ghost sv = strings_view(sels@);
    assert(sv =~= fs_selections(scan_root@, t@));
    let ghost cv = strings_view(candidates@);
    let mut out: Vec<String> = Vec::new();
    let mut i: usize = 0;
    while i < candidates.len()
        invariant
            i <= candidates@.len(),
            sv == strings_view(sels@),
            cv == strings_view(candidates@),
            strings_view(out@) == keep_selected(sv, cv.take(i as int)),
        decreases candidates.len() - i,
    {
        let c = normalize_resource_path(candidates[i].as_str());
        let cc = chars_of(c.as_str());
        let mut hit = false;
        let mut j: usize = 0;
        while j < sels.len()
            invariant
                j <= sels@.len(),
                sv == strings_view(sels@),
                cc@ == normalize_resource_spec(cv[i as int]),
                0 <= i < cv.len(),
                hit == exists|k: int| 0 <= k < j && crate::resources::same_or_child_spec(cc@, #[trigger] sv[k]),
            decreases sels.len() - j,
        {
            assert(sv[j as int] == sels@[j as int]@);
            if crate::resources::path_is_same_or_child(cc.as_slice(), chars_of(sels[j].as_str()).as_slice()) {
                hit = true;
            }
            j += 1;
        }
        proof {
            assert(candidates@[i as int]@ == cv[i as int]);
            assert(cv.take(i + 1).drop_last() =~= cv.take(i as int));
            assert(cv.take(i + 1).last() == cv[i as int]);
        }
        let ghost before = strings_view(out@);
        if hit {
            out.push(candidates[i].clone());
            assert(strings_view(out@) =~= before.push(cv[i as int]));
        }
        i += 1;
    }
    assert(cv.take(cv.len() as int) =~= cv);
    out
}

/// The translation files a resource path selects: the scanner's candidates (`None` where
/// the scan failed) whose resource path the selection covers; else those the path selects
/// on disk; else the hard-coded files it selects (`hardcoded`, from the hard-coded
/// scanner). The result is in path order, each once, except that a failed scan gives
/// `hardcoded` as it is.
pub fn selected_translation_files(
    scan_root: &str,
    resource_path: &str,
    candidates: Option<&Vec<String>>,
    hardcoded: &Vec<String>,
) -> (r: Vec<String>)
    ensures
        match candidates {
            None => strings_view(r@) == strings_view(hardcoded@),
            Some(c) => {
                let norm = normalize_resource_spec(resource_path@);
                let chosen = candidates_matching(strings_view(c@), norm);
                let picked = if chosen.len() > 0 {
                    chosen
                } else if fs_selected_spec(scan_root@, resource_path@, strings_view(c@)).len() > 0 {
                    fs_selected_spec(scan_root@, resource_path@, strings_view(c@))
                } else {
                    strings_view(hardcoded@)
                };
                sorted_paths_ok(picked, strings_view(r@))
            },
        },
{
    let cands = match candidates {
        None => {
            return copy_strings(hardcoded);
        },
        Some(c) => c,
    };
    let norm = normalize_resource_path(resource_path);
    let ghost cv = strings_view(cands@);
    let mut selected: Vec<String> = Vec::new();
    let mut i: usize = 0;
    while i < cands.len()
        invariant
            i <= cands@.len(),
            cv == strings_view(cands@),
            strings_view(selected@) == candidates_matching(cv.take(i as int), norm@),
        decreases cands.len() - i,
    {
        let d = normalize_resource_path(crate::paths::resource_display_path(cands[i].as_str()).as_str());
        proof {
            assert(cands@[i as int]@ == cv[i as int]);
            assert(cv.take(i + 1).drop_last() =~= cv.take(i as int));
            assert(cv.take(i + 1).last() == cv[i as int]);
        }
        let ghost before = strings_view(selected@);
        if crate::resources::resource_path_matches_selection(d.as_str(), norm.as_str()) {
            selected.push(cands[i].clone());
            assert(strings_view(selected@) =~= before.push(cv[i as int]));
        }
        i += 1;
    }
    assert(cv.take(cv.len() as int) =~= cv);
    if selected.len() == 0 {
        selected = selected_translation_files_from_filesystem_path(scan_root, resource_path, cands);
    }
    if selected.len() == 0 {
        selected = copy_strings(hardcoded);
    }
    sort_paths(&selected)
}

fn copy_strings(v: &Vec<String>) -> (r: Vec<String>)
    ensures
        strings_view(r@) == strings_view(v@),
{
    let mut out: Vec<String> = Vec::new();
    let mut i: usize = 0;
    while i < v.len()
        invariant
            i <= v@.len(),
            strings_view(out@) == strings_view(v@).take(i as int),
        decreases v.len() - i,
    {
        let ghost before = strings_view(out@);
        assert(v@[i as int]@ == strings_view(v@)[i as int]);
        out.push(v[i].clone());
        assert(strings_view(out@) =~= before.push(strings_view(v@)[i as int]));
        i += 1;
        assert(strings_view(out@) =~= strings_view(v@).take(i as int));
    }
    assert(strings_view(v@).take(i as int) =~= strings_view(v@));
    out
}

/// The candidates whose resource path the normalised selection covers, in order.
pub open spec fn candidates_matching(cands: Seq<Seq<char>>, norm: Seq<char>) -> Seq<Seq<char>>
    decreases cands.len(),
{
    if cands.len() == 0 {
        Seq::empty()
    } else if crate::resources::matches_selection_spec(
        normalize_resource_spec(crate::paths::resource_display_spec(cands.last())),
        norm,
    ) {
        candidates_matching(cands.drop_last(), norm).push(cands.last())
    } else {
        candidates_matching(cands.drop_last(), norm)
    }
}

/// For a selected source file, the file of the target language beside it that the scan
/// holds, and where its copy goes in the translated folder: the same place below each
/// folder, with the language folder swapped. None where the file has no language folder
/// or already is in the target language.
pub open spec fn language_copy_target(
    scan_root: Seq<char>,
    translated_root: Seq<char>,
    source_file: Seq<char>,
    language: Seq<char>,
) -> Option<(Seq<char>, Seq<char>)> {
    let rel = crate::node::copy_relative_spec(scan_root, source_file, "translation.json"@);
    match crate::paths::replace_language_spec(rel, language) {
        Some(t) => if crate::logs::same_components(t, rel) {
            None
        } else {
            Some((push_text(scan_root, t), push_text(translated_root, t)))
        },
        None => None,
    }
}

pub open spec fn target_view(o: Option<(String, String)>) -> Option<(Seq<char>, Seq<char>)> {
    match o {
        Some((a, b)) => Some((a@, b@)),
        None => None,
    }
}

pub open spec fn copy_targets_view(v: Seq<Option<(String, String)>>) -> Seq<Option<(Seq<char>, Seq<char>)>> {
    Seq::new(v.len(), |i: int| target_view(v[i]))
}

/// The copies that bring the target language's existing files into the translated folder,
/// one per source file (see `language_copy_target`); a copy is made where its first path
/// is a file.
pub fn language_copy_targets(
    scan_root: &str,
    source_files: &Vec<String>,
    translated_root: &str,
    target_language: &str,
) -> (r: Vec<Option<(String, String)>>)
    ensures
        copy_targets_view(r@) == Seq::new(
            source_files@.len(),
            |i: int| language_copy_target(scan_root@, translated_root@, source_files@[i]@, target_language@),
        ),
{
    let mut out: Vec<Option<(String, String)>> = Vec::new();
    let mut i: usize = 0;
    while i < source_files.len()
        invariant
            i <= source_files@.len(),
            out@.len() == i,
            copy_targets_view(out@) == Seq::new(
                i as nat,
                |k: int| language_copy_target(scan_root@, translated_root@, source_files@[k]@, target_language@),
            ),
        decreases source_files.len() - i,
    {
        let rel = crate::node::node_copy_relative_path(scan_root, source_files[i].as_str());
        let item = match crate::paths::replace_resource_language(rel.as_str(), target_language) {
            Some(t) => if crate::logs::same_components_exec(t.as_str(), rel.as_str()) {
                None
            } else {
                let tc = chars_of(t.as_str());
                Some((push_text_exec(scan_root, tc.as_slice()), push_text_exec(translated_root, tc.as_slice())))
            },
            None => None,
        };
        assert(target_view(item) == language_copy_target(
            scan_root@,
            translated_root@,
            source_files@[i as int]@,
            target_language@,
        ));
        let ghost before = out@;
        out.push(item);
        proof {
            assert forall|k: int| 0 <= k < i implies #[trigger] out@[k] == before[k] by {}
            assert(copy_targets_view(out@) =~= Seq::new(
                (i + 1) as nat,
                |k: int| language_copy_target(scan_root@, translated_root@, source_files@[k]@, target_language@),
            )) by {
                assert forall|k: int| 0 <= k < i + 1 implies copy_targets_view(out@)[k] == language_copy_target(
                    scan_root@,
                    translated_root@,
                    source_files@[k]@,
                    target_language@,
                ) by {
                    if k < i {
                        assert(copy_targets_view(before)[k] == target_view(before[k]));
                    }
                }
            }
        }
        i += 1;
    }
    out
}

/// The normalised resource path of a relative path inside a PCK.
pub open spec fn wanted_spec(relative: Seq<char>) -> Seq<char> {
    normalize_resource_spec("res://"@ + crate::paths::join_slash(components(relative)))
}

/// A candidate's resource path names the wanted file, or ends in it after a `/`.
pub open spec fn names_wanted(candidate: Seq<char>, wanted: Seq<char>) -> bool {
    let d = normalize_resource_spec(crate::paths::resource_display_spec(candidate));
    let suffix = seq!['/'] + crate::resources::strip_res_spec(wanted);
    d == wanted || (d.len() >= suffix.len() && d.skip(d.len() - suffix.len()) == suffix)
}

pub open spec fn wanted_matches(cands: Seq<Seq<char>>, wanted: Seq<char>) -> Seq<Seq<char>>
    decreases cands.len(),
{
    if cands.len() == 0 {
        Seq::empty()
    } else if names_wanted(cands.last(), wanted) {
        wanted_matches(cands.drop_last(), wanted).push(cands.last())
    } else {
        wanted_matches(cands.drop_last(), wanted)
    }
}

/// Where the file at `relative` is found for copying: below the scanned folder where that
/// is a file (`direct_is_file`), else the first (in path order) of the scanner's candidates
/// whose resource path names it. None where neither gives one or the scan failed.
pub fn find_resource_file_by_relative(
    scan_root: &str,
    relative: &str,
    direct_is_file: bool,
    candidates: Option<&Vec<String>>,
) -> (r: Option<String>)
    ensures
        direct_is_file ==> (r matches Some(p) && p@ == push_text(scan_root@, relative@)),
        !direct_is_file ==> match candidates {
            None => r is None,
            Some(c) => {
                let m = wanted_matches(strings_view(c@), wanted_spec(relative@));
                match r {
                    None => m.len() == 0,
                    Some(p) => exists|i: int| crate::node::first_in_path_order(m, i) && m[i] == p@,
                }
            },
        },
{
    if direct_is_file {
        let rc = chars_of(relative);
        return Some(push_text_exec(scan_root, rc.as_slice()));
    }
    let cands = match candidates {
        None => {
            return None;
        },
        Some(c) => c,
    };
    let mut w = chars_of("res://");
    crate::text::push_all(&mut w, chars_of(crate::paths::slash_path(relative).as_str()).as_slice());
    let wanted = normalize_resource_path(string_from(w.as_slice()).as_str());
    assert(wanted@ == wanted_spec(relative@));
    let stripped = crate::resources::strip_res(chars_of(wanted.as_str()).as_slice());
    let mut suffix: Vec<char> = Vec::new();
    suffix.push('/');
    crate::text::push_all(&mut suffix, stripped.as_slice());
    let wc = chars_of(wanted.as_str());
    let ghost cv = strings_view(cands@);
    let mut found: Vec<String> = Vec::new();
    let mut i: usize = 0;
    while i < cands.len()
        invariant
            i <= cands@.len(),
            cv == strings_view(cands@),
            wc@ == wanted_spec(relative@),
            suffix@ == seq!['/'] + crate::resources::strip_res_spec(wanted_spec(relative@)),
            strings_view(found@) == wanted_matches(cv.take(i as int), wanted_spec(relative@)),
        decreases cands.len() - i,
    {
        let d = chars_of(normalize_resource_path(crate::paths::resource_display_path(cands[i].as_str()).as_str()).as_str());
        let hit = seq_eq(d.as_slice(), wc.as_slice()) || crate::text::ends_with(d.as_slice(), suffix.as_slice());
        proof {
            assert(cands@[i as int]@ == cv[i as int]);
            assert(cv.take(i + 1).drop_last() =~= cv.take(i as int));
            assert(cv.take(i + 1).last() == cv[i as int]);
        }
        let ghost before = strings_view(found@);
        if hit {
            found.push(cands[i].clone());
            assert(strings_view(found@) =~= before.push(cv[i as int]));
        }
        i += 1;
    }
    assert(cv.take(cv.len() as int) =~= cv);
    if found.len() == 0 {
        return None;
    }
    let k = crate::node::first_path_index(&found);
    Some(found[k].clone())
}

/// Every file below a node (or the node itself), in walk order.
pub open spec fn all_files(n: FsNode) -> Seq<Seq<char>>
    decreases n, 0nat,
{
    if n.is_file {
        seq![n.path@]
    } else if n.is_dir {
        all_files_list(n.children@)
    } else {
        Seq::empty()
    }
}

pub open spec fn all_files_list(c: Seq<FsNode>) -> Seq<Seq<char>>
    decreases c, 1nat,
{
    if c.len() == 0 {
        Seq::empty()
    } else {
        all_files_list(c.drop_last()) + all_files(c[c.len() - 1])
    }
}

fn push_all_files(node: &FsNode, out: &mut Vec<String>)
    ensures
        strings_view(final(out)@) == strings_view(old(out)@) + all_files(*node),
    decreases node,
{
    if node.is_file {
        out.push(node.path.clone());
        assert(strings_view(out@) =~= strings_view(old(out)@) + seq![node.path@]);
        return;
    }
    if !node.is_dir {
        assert(strings_view(out@) =~= strings_view(old(out)@) + Seq::<Seq<char>>::empty());
        return;
    }
    let ghost start = strings_view(out@);
    let mut i: usize = 0;
    assert(start + all_files_list(node.children@.take(0)) =~= start);
    while i < node.children.len()
        invariant
            i <= node.children@.len(),
            strings_view(out@) == start + all_files_list(node.children@.take(i as int)),
        decreases node.children.len() - i,
    {
        proof {
            let t = node.children@.take(i + 1);
            assert(t.drop_last() =~= node.children@.take(i as int));
            assert(t[t.len() - 1] == node.children@[i as int]);
            assert(decreases_to!(node => node.children));
        }
        push_all_files(&node.children[i], out);
        i += 1;
        proof {
            assert(strings_view(out@) =~= start + all_files_list(node.children@.take(i as int)));
        }
    }
    assert(node.children@.take(i as int) =~= node.children@);
}

/// How many more files a list holding `have` takes under `limit`.
pub open spec fn room(have: nat, limit: nat) -> nat {
    if have < limit {
        (limit - have) as nat
    } else {
        0
    }
}

/// Adds the files below `root` that the extraction tree shows, in path order, until
/// `files` holds `limit` of them.
pub fn collect_preview_files(root: &FsNode, files: &mut Vec<String>, limit: usize)
    ensures
        exists|sorted: Seq<Seq<char>>|
            sorted_paths_ok(all_files(*root), sorted) && strings_view(final(files)@) == strings_view(old(files)@)
                + sorted.take(
                if room(old(files)@.len(), limit as nat) < sorted.len() {
                    room(old(files)@.len(), limit as nat) as int
                } else {
                    sorted.len() as int
                },
            ),
{
    let mut all: Vec<String> = Vec::new();
    push_all_files(root, &mut all);
    assert(strings_view(all@) =~= all_files(*root));
    let sorted = sort_paths(&all);
    let ghost sv = strings_view(sorted@);
    let ghost start = strings_view(files@);
    let mut i: usize = 0;
    while i < sorted.len() && files.len() < limit
        invariant
            sv == strings_view(sorted@),
            i <= sorted@.len(),
            start.len() + i == files@.len() || i == 0,
            i > 0 ==> start.len() < limit,
            strings_view(files@) == start + sv.take(i as int),
            i <= room(start.len(), limit as nat),
        decreases sorted.len() - i,
    {
        let ghost before = strings_view(files@);
        files.push(sorted[i].clone());
        proof {
            assert(strings_view(files@) =~= before.push(sv[i as int]));
            assert(sv.take(i + 1) =~= sv.take(i as int).push(sv[i as int]));
        }
        i += 1;
        assert(strings_view(files@) =~= start + sv.take(i as int));
    }
    proof {
        let k = if room(start.len(), limit as nat) < sv.len() {
            room(start.len(), limit as nat) as int
        } else {
            sv.len() as int
        };
        assert(i == k);
    }
}

} // verus!
