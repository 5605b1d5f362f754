//! The tree of a mod's extracted files that the translation view shows: folders by name,
//! each file marked as a language file, a hard-coded string source, or a plain file.
use vstd::prelude::*;
use crate::text::{chars_of, seq_eq};
use crate::order::{lex_lt, lex_lt_exec, strings_view};
use crate::text::{string_from, starts_with, join_seqs};
use crate::paths::{components, rooted, join_path, join_slash, res_prefix, vv, comps_of, join_comps, is_rooted_exec, sub_comps};
use crate::rows::ExtractionTreeNodeDto;
use crate::logs::{same_components, same_components_exec};
use crate::paths::{file_name_spec, file_name_exec};

verus! {

broadcast use vstd::string::group_string_axioms;

/// A node of the tree being built; its children are kept in order of name.
pub struct TreeNodeBuilder {
    pub name: String,
    pub path: String,
    pub source_path: String,
    pub kind: String,
    pub children: Vec<TreeNodeBuilder>,
}

/// What the tree says of one node: its shown path, its source path and its kind.
pub open spec fn node_info(n: TreeNodeBuilder) -> (Seq<char>, Seq<char>, Seq<char>) {
    (n.path@, n.source_path@, n.kind@)
}

pub open spec fn first_child(cs: Seq<TreeNodeBuilder>, name: Seq<char>, i: int) -> bool {
    0 <= i < cs.len() && cs[i].name@ == name && forall|j: int| 0 <= j < i ==> (#[trigger] cs[j]).name@ != name
}

/// The node reached from `n` by the names in `p`, one level per name.
pub open spec fn lookup(n: TreeNodeBuilder, p: Seq<Seq<char>>) -> Option<(Seq<char>, Seq<char>, Seq<char>)>
    decreases p.len(),
{
    if p.len() == 0 {
        None
    } else if exists|i: int| first_child(n.children@, p[0], i) {
        let c = n.children@[choose|i: int| first_child(n.children@, p[0], i)];
        if p.len() == 1 {
            Some(node_info(c))
        } else {
            lookup(c, p.skip(1))
        }
    } else {
        None
    }
}

pub open spec fn text_at(s: Seq<Seq<char>>, k: int) -> Seq<char> {
    if 0 <= k < s.len() {
        s[k]
    } else {
        Seq::empty()
    }
}

/// What the node at depth `k` (1 for the first name) of an inserted path says afterwards:
/// the shown and source paths at `base + k - 1` (empty past their ends), and the leaf's kind
/// at the end; a folder on the way keeps its kind, and one that is new is a `dir`.
pub open spec fn inserted_info(
    old: TreeNodeBuilder,
    comps: Seq<Seq<char>>,
    dps: Seq<Seq<char>>,
    sps: Seq<Seq<char>>,
    base: int,
    leaf: Seq<char>,
    k: int,
) -> (Seq<char>, Seq<char>, Seq<char>) {
    (text_at(dps, base + k - 1), text_at(sps, base + k - 1), if k == comps.len() {
        leaf
    } else {
        match lookup(old, comps.take(k)) {
            Some(i) => i.2,
            None => "dir"@,
        }
    })
}

pub open spec fn on_path(p: Seq<Seq<char>>, comps: Seq<Seq<char>>) -> bool {
    1 <= p.len() <= comps.len() && p == comps.take(p.len() as int)
}

/// Inserting a path: every node along it says what `inserted_info` gives, every other node
/// is as it was, and the node itself keeps its own name and fields.
pub open spec fn insert_ok(
    old: TreeNodeBuilder,
    new: TreeNodeBuilder,
    comps: Seq<Seq<char>>,
    dps: Seq<Seq<char>>,
    sps: Seq<Seq<char>>,
    base: int,
    leaf: Seq<char>,
) -> bool {
    &&& new.name@ == old.name@
    &&& node_info(new) == node_info(old)
    &&& forall|p: Seq<Seq<char>>|
        #![trigger lookup(new, p)]
        lookup(new, p) == if on_path(p, comps) {
            Some(inserted_info(old, comps, dps, sps, base, leaf, p.len() as int))
        } else {
            lookup(old, p)
        }
}

/// The children are in order of name, each name once.
pub open spec fn names_sorted(cs: Seq<TreeNodeBuilder>) -> bool {
    forall|i: int, j: int| 0 <= i < j < cs.len() ==> lex_lt((#[trigger] cs[i]).name@, (#[trigger] cs[j]).name@)
}

pub fn root() -> (r: TreeNodeBuilder)
    ensures
        r.name@.len() == 0 && r.path@.len() == 0 && r.source_path@.len() == 0,
        r.kind@ == "dir"@,
        r.children@.len() == 0,
{
    TreeNodeBuilder {
        name: String::new(),
        path: String::new(),
        source_path: String::new(),
        kind: "dir".to_string(),
        children: Vec::new(),
    }
}

pub fn named(name: &str, path: &str) -> (r: TreeNodeBuilder)
    ensures
        r.name@ == name@ && r.path@ == path@ && r.source_path@.len() == 0,
        r.kind@ == "dir"@,
        r.children@.len() == 0,
{
    TreeNodeBuilder {
        name: name.to_string(),
        path: path.to_string(),
        source_path: String::new(),
        kind: "dir".to_string(),
        children: Vec::new(),
    }
}

fn text_at_exec(s: &Vec<String>, k: usize) -> (r: String)
    ensures
        r@ == text_at(strings_view(s@), k as int),
{
    if k < s.len() {
        s[k].clone()
    } else {
        String::new()
    }
}

/// Where a child named `name` goes among children in order of name.
fn sorted_position(cs: &Vec<TreeNodeBuilder>, name: &Vec<char>) -> (r: usize)
    ensures
        r <= cs@.len(),
        forall|j: int| 0 <= j < r ==> !lex_lt(name@, (#[trigger] cs@[j]).name@),
        r < cs@.len() ==> lex_lt(name@, cs@[r as int].name@),
{
    let mut k: usize = 0;
    while k < cs.len() && !lex_lt_exec(name.as_slice(), chars_of(cs[k].name.as_str()).as_slice())
        invariant
            k <= cs@.len(),
            forall|j: int| 0 <= j < k ==> !lex_lt(name@, (#[trigger] cs@[j]).name@),
        decreases cs.len() - k,
    {
        k += 1;
    }
    k
}

fn find_child(cs: &Vec<TreeNodeBuilder>, name: &Vec<char>) -> (r: Option<usize>)
    ensures
        match r {
            Some(i) => first_child(cs@, name@, i as int),
            None => forall|j: int| 0 <= j < cs@.len() ==> (#[trigger] cs@[j]).name@ != name@,
        },
{
    let mut i: usize = 0;
    while i < cs.len()
        invariant
            i <= cs@.len(),
            forall|j: int| 0 <= j < i ==> (#[trigger] cs@[j]).name@ != name@,
        decreases cs.len() - i,
    {
        if seq_eq(chars_of(cs[i].name.as_str()).as_slice(), name.as_slice()) {
            return Some(i);
        }
        i += 1;
    }
    None
}

proof fn lemma_first_child_unique(cs: Seq<TreeNodeBuilder>, name: Seq<char>, i: int, j: int)
    requires
        first_child(cs, name, i),
        first_child(cs, name, j),
    ensures
        i == j,
{
    if i < j {
        assert(cs[i].name@ != name);
    } else if j < i {
        assert(cs[j].name@ != name);
    }
}

/// Replacing a child by one of the same name leaves the other names where they were.
proof fn lemma_first_child_update(m: Seq<TreeNodeBuilder>, i: int, c: TreeNodeBuilder, q: Seq<char>)
    requires
        0 <= i < m.len(),
        c.name@ == m[i].name@,
        q != m[i].name@,
    ensures
        forall|j: int| first_child(m.update(i, c), q, j) <==> first_child(m, q, j),
{
    let u = m.update(i, c);
    assert forall|j: int| first_child(u, q, j) <==> first_child(m, q, j) by {
        if 0 <= j < m.len() {
            assert(u[j].name@ == m[j].name@);
            if first_child(u, q, j) {
                assert forall|x: int| 0 <= x < j implies (#[trigger] m[x]).name@ != q by {
                    assert(u[x].name@ == m[x].name@);
                }
            }
            if first_child(m, q, j) {
                assert forall|x: int| 0 <= x < j implies (#[trigger] u[x]).name@ != q by {
                    assert(u[x].name@ == m[x].name@);
                }
            }
        }
    }
}

/// Adding a child of another name keeps the first child of each name, shifted past it.
proof fn lemma_first_child_insert(o: Seq<TreeNodeBuilder>, k: int, f: TreeNodeBuilder, q: Seq<char>)
    requires
        0 <= k <= o.len(),
        f.name@ != q,
    ensures
        forall|j: int| first_child(o, q, j) ==> first_child(o.insert(k, f), q, if j < k { j } else { j + 1 }),
        forall|j: int| first_child(o.insert(k, f), q, j) ==> first_child(o, q, if j < k { j } else { j - 1 }),
{
    let b = o.insert(k, f);
    assert forall|j: int| first_child(o, q, j) implies first_child(b, q, if j < k { j } else { j + 1 }) by {
        let jj = if j < k { j } else { j + 1 };
        assert(b[jj] == o[j]);
        assert forall|x: int| 0 <= x < jj implies (#[trigger] b[x]).name@ != q by {
            if x < k {
                assert(b[x] == o[x]);
            } else if x > k {
                assert(b[x] == o[x - 1]);
            }
        }
    }
    assert forall|j: int| first_child(b, q, j) implies first_child(o, q, if j < k { j } else { j - 1 }) by {
        let jj = if j < k { j } else { j - 1 };
        assert(j != k);
        assert(b[j] == o[jj]);
        assert forall|x: int| 0 <= x < jj implies (#[trigger] o[x]).name@ != q by {
            if x < k {
                assert(b[x] == o[x]);
            } else {
                assert(b[x + 1] == o[x]);
            }
        }
    }
}

/// Paths through other names look up the same in two nodes whose children differ only in
/// the child named `name`.
proof fn lemma_lookup_other(old: TreeNodeBuilder, new: TreeNodeBuilder, name: Seq<char>, p: Seq<Seq<char>>)
    requires
        p.len() >= 1,
        p[0] != name,
        forall|j: int| first_child(new.children@, p[0], j) ==> exists|jo: int| #[trigger] first_child(old.children@, p[0], jo)
            && new.children@[j] == old.children@[jo],
        forall|jo: int| first_child(old.children@, p[0], jo) ==> exists|j: int| #[trigger] first_child(new.children@, p[0], j)
            && new.children@[j] == old.children@[jo],
    ensures
        lookup(new, p) == lookup(old, p),
{
    if exists|j: int| first_child(new.children@, p[0], j) {
        let j = choose|j: int| first_child(new.children@, p[0], j);
        let jo = choose|jo: int| first_child(old.children@, p[0], jo) && new.children@[j] == old.children@[jo];
        let co = choose|c: int| first_child(old.children@, p[0], c);
        lemma_first_child_unique(old.children@, p[0], jo, co);
    } else if exists|jo: int| first_child(old.children@, p[0], jo) {
        let jo = choose|jo: int| first_child(old.children@, p[0], jo);
        let j = choose|j: int| first_child(new.children@, p[0], j) && new.children@[j] == old.children@[jo];
        assert(first_child(new.children@, p[0], j));
    }
}

/// A node's lookups depend on its children alone.
proof fn lemma_lookup_children(a: TreeNodeBuilder, b: TreeNodeBuilder, p: Seq<Seq<char>>)
    requires
        a.children@ == b.children@,
    ensures
        lookup(a, p) == lookup(b, p),
{
}

/// One level down an inserted path: the path below the first name, and what it says.
proof fn lemma_path_step(
    old: TreeNodeBuilder,
    child: TreeNodeBuilder,
    c: Seq<Seq<char>>,
    d: Seq<Seq<char>>,
    s: Seq<Seq<char>>,
    base: int,
    leaf: Seq<char>,
    p: Seq<Seq<char>>,
)
    requires
        c.len() >= 1,
        p.len() >= 2,
        p[0] == c[0],
        forall|q: Seq<Seq<char>>| q.len() >= 2 && q[0] == c[0] ==> #[trigger] lookup(old, q) == lookup(child, q.skip(1)),
    ensures
        on_path(p, c) == on_path(p.skip(1), c.skip(1)),
        on_path(p, c) ==> inserted_info(old, c, d, s, base, leaf, p.len() as int) == inserted_info(
            child,
            c.skip(1),
            d,
            s,
            base + 1,
            leaf,
            p.len() - 1,
        ),
{
    let k = p.len() as int;
    if on_path(p, c) {
        assert(p.skip(1) =~= c.skip(1).take(k - 1));
        assert(c.take(k).skip(1) =~= c.skip(1).take(k - 1));
        assert(c.take(k)[0] == c[0]);
        assert(lookup(old, c.take(k)) == lookup(child, c.take(k).skip(1)));
    }
    if on_path(p.skip(1), c.skip(1)) {
        assert(p =~= c.take(k)) by {
            assert forall|x: int| 0 <= x < k implies p[x] == c.take(k)[x] by {
                if x > 0 {
                    assert(p[x] == p.skip(1)[x - 1]);
                    assert(c.skip(1).take(k - 1)[x - 1] == c[x]);
                }
            }
        }
    }
}

impl TreeNodeBuilder {
    /// Adds the path `comps[from..]` below this node: `dps` and `sps` give, level by level,
    /// the shown and source path of each node on the way, and `leaf_kind` the last one's kind.
    pub fn insert_components(
        &mut self,
        comps: &Vec<String>,
        dps: &Vec<String>,
        sps: &Vec<String>,
        leaf_kind: &str,
        from: usize,
    )
        requires
            from <= comps@.len(),
        ensures
            insert_ok(
                *old(self),
                *final(self),
                strings_view(comps@).skip(from as int),
                strings_view(dps@),
                strings_view(sps@),
                from as int,
                leaf_kind@,
            ),
            names_sorted(old(self).children@) ==> names_sorted(final(self).children@),
        decreases comps@.len() - from,
    {
        let ghost c = strings_view(comps@).skip(from as int);
        let ghost dv = strings_view(dps@);
        let ghost sv = strings_view(sps@);
        let ghost o = *self;
        if from >= comps.len() {
            proof {
                assert forall|p: Seq<Seq<char>>| #![trigger lookup(*self, p)] !on_path(p, c) by {
                }
            }
            return;
        }
        let name = chars_of(comps[from].as_str());
        assert(name@ == c[0]);
        let d = text_at_exec(dps, from);
        let sp = text_at_exec(sps, from);
        proof {
            assert(d@ == text_at(dv, from as int));
            assert(sp@ == text_at(sv, from as int));
        }
        let last = from + 1 == comps.len();
        let found = find_child(&self.children, &name);
        let ghost existed = found is Some;
        let i = match found {
            Some(i) => i,
            None => {
                let k = sorted_position(&self.children, &name);
                let kind = if last {
                    leaf_kind.to_string()
                } else {
                    "dir".to_string()
                };
                let fresh = TreeNodeBuilder {
                    name: comps[from].clone(),
                    path: String::new(),
                    source_path: String::new(),
                    kind,
                    children: Vec::new(),
                };
                let ghost before = self.children@;
                self.children.insert(k, fresh);
                proof {
                    assert(self.children@ == before.insert(k as int, self.children@[k as int]));
                    assert forall|j: int| 0 <= j < k implies (#[trigger] self.children@[j]).name@ != name@ by {
                        assert(self.children@[j] == before[j]);
                    }
                    assert(first_child(self.children@, name@, k as int));
                    if names_sorted(before) {
                        assert forall|a: int, b: int| 0 <= a < b < self.children@.len() implies lex_lt(
                            (#[trigger] self.children@[a]).name@,
                            (#[trigger] self.children@[b]).name@,
                        ) by {
                            crate::order::lemma_lex_total(name@, name@);
                            if b < k {
                                assert(self.children@[a] == before[a] && self.children@[b] == before[b]);
                            } else if b == k {
                                assert(self.children@[a] == before[a]);
                                assert(!lex_lt(name@, before[a].name@));
                                assert(before[a].name@ != name@);
                                crate::order::lemma_lex_total(before[a].name@, name@);
                            } else if a < k {
                                assert(self.children@[a] == before[a] && self.children@[b] == before[b - 1]);
                                if a < b - 1 {
                                    assert(lex_lt(before[a].name@, before[b - 1].name@));
                                }
                            } else if a == k {
                                assert(self.children@[b] == before[b - 1]);
                                if b - 1 > k {
                                    assert(lex_lt(before[k as int].name@, before[b - 1].name@));
                                    crate::order::lemma_lex_transitive(name@, before[k as int].name@, before[b - 1].name@);
                                }
                            } else {
                                assert(self.children@[a] == before[a - 1] && self.children@[b] == before[b - 1]);
                            }
                        }
                    }
                }
                k
            },
        };
        let ghost base = self.children@;
        let ghost cb = base[i as int];
        let mut child = self.children.remove(i);
        child.path = d;
        child.source_path = sp;
        if last {
            child.kind = leaf_kind.to_string();
        } else {
            let ghost before = child;
            child.insert_components(comps, dps, sps, leaf_kind, from + 1);
            proof {
                assert(strings_view(comps@).skip(from + 1) =~= c.skip(1));
                lemma_info_children(before, cb, c.skip(1), dv, sv, from + 1, leaf_kind@);
            }
        }
        self.children.insert(i, child);
        proof {
            let n = self.children@;
            assert(n =~= base.update(i as int, n[i as int]));
            if existed {
                assert(base == o.children@);
            } else {
                assert(base == o.children@.insert(i as int, cb));
            }
            assert(step_shape(o, *self, cb, n[i as int], i as int, c[0], existed));
            lemma_insert_step(o, *self, cb, n[i as int], i as int, c, dv, sv, from as int, leaf_kind@, existed);
        }
    }
}

/// Lookups agree on nodes with the same children, and so does what an insertion says.
proof fn lemma_info_children(
    a: TreeNodeBuilder,
    b: TreeNodeBuilder,
    c: Seq<Seq<char>>,
    dv: Seq<Seq<char>>,
    sv: Seq<Seq<char>>,
    base: int,
    leaf: Seq<char>,
)
    requires
        a.children@ == b.children@,
    ensures
        forall|k: int| #[trigger] inserted_info(a, c, dv, sv, base, leaf, k) == inserted_info(b, c, dv, sv, base, leaf, k),
        forall|p: Seq<Seq<char>>| #[trigger] lookup(a, p) == lookup(b, p),
{
    assert forall|p: Seq<Seq<char>>| #[trigger] lookup(a, p) == lookup(b, p) by {
        lemma_lookup_children(a, b, p);
    }
}

/// The facts of one level of an insertion: the child named `name` was found, or added where
/// it was missing, at `i`, and then replaced by `cn`.
pub open spec fn step_shape(o: TreeNodeBuilder, nw: TreeNodeBuilder, cb: TreeNodeBuilder, cn: TreeNodeBuilder, i: int, name: Seq<char>, existed: bool) -> bool {
    &&& existed ==> first_child(o.children@, name, i) && o.children@[i] == cb && nw.children@ == o.children@.update(i, cn)
    &&& !existed ==> {
        &&& 0 <= i <= o.children@.len()
        &&& forall|x: int| 0 <= x < o.children@.len() ==> (#[trigger] o.children@[x]).name@ != name
        &&& cb.children@.len() == 0
        &&& nw.children@ == o.children@.insert(i, cb).update(i, cn)
    }
    &&& cb.name@ == name
    &&& cn.name@ == name
}

proof fn lemma_step_first(o: TreeNodeBuilder, nw: TreeNodeBuilder, cb: TreeNodeBuilder, cn: TreeNodeBuilder, i: int, name: Seq<char>, existed: bool)
    requires
        step_shape(o, nw, cb, cn, i, name, existed),
    ensures
        first_child(nw.children@, name, i),
        nw.children@[i] == cn,
        forall|q: Seq<Seq<char>>| q.len() >= 2 && q[0] == name ==> #[trigger] lookup(o, q) == lookup(cb, q.skip(1)),
        forall|q: Seq<Seq<char>>| q.len() == 1 && q[0] == name ==> #[trigger] lookup(o, q) == if existed {
            Some(node_info(cb))
        } else {
            None
        },
{
    let b = if existed { o.children@ } else { o.children@.insert(i, cb) };
    let n = nw.children@;
    assert(b[i] == cb);
    assert(first_child(b, name, i)) by {
        if !existed {
            assert forall|x: int| 0 <= x < i implies (#[trigger] b[x]).name@ != name by {
                assert(b[x] == o.children@[x]);
            }
        }
    }
    assert(first_child(n, name, i)) by {
        assert forall|x: int| 0 <= x < i implies (#[trigger] n[x]).name@ != name by {
            assert(n[x] == b[x]);
        }
    }
    assert forall|q: Seq<Seq<char>>| q.len() >= 1 && q[0] == name implies #[trigger] lookup(o, q) == if q.len() == 1 {
        if existed { Some(node_info(cb)) } else { None }
    } else {
        lookup(cb, q.skip(1))
    } by {
        if existed {
            let ch = choose|x: int| first_child(o.children@, q[0], x);
            lemma_first_child_unique(o.children@, q[0], i, ch);
        } else {
            assert forall|x: int| !first_child(o.children@, q[0], x) by {
                if 0 <= x < o.children@.len() {
                    assert(o.children@[x].name@ != name);
                }
            }
        }
    }
}

proof fn lemma_step_other(o: TreeNodeBuilder, nw: TreeNodeBuilder, cb: TreeNodeBuilder, cn: TreeNodeBuilder, i: int, name: Seq<char>, existed: bool)
    requires
        step_shape(o, nw, cb, cn, i, name, existed),
    ensures
        forall|p: Seq<Seq<char>>| p.len() >= 1 && p[0] != name ==> #[trigger] lookup(nw, p) == lookup(o, p),
{
    let b = if existed { o.children@ } else { o.children@.insert(i, cb) };
    let n = nw.children@;
    assert(b[i] == cb);
    assert forall|p: Seq<Seq<char>>| p.len() >= 1 && p[0] != name implies #[trigger] lookup(nw, p) == lookup(o, p) by {
        lemma_first_child_update(b, i, cn, p[0]);
        if existed {
            assert forall|j: int| first_child(n, p[0], j) implies exists|jo: int| #[trigger] first_child(o.children@, p[0], jo)
                && n[j] == o.children@[jo] by {
                assert(n[j] == b[j]);
                assert(first_child(o.children@, p[0], j));
            }
            assert forall|jo: int| first_child(o.children@, p[0], jo) implies exists|j: int| #[trigger] first_child(n, p[0], j)
                && n[j] == o.children@[jo] by {
                assert(n[jo] == b[jo]);
                assert(first_child(n, p[0], jo));
            }
        } else {
            lemma_first_child_insert(o.children@, i, cb, p[0]);
            assert forall|j: int| first_child(n, p[0], j) implies exists|jo: int| #[trigger] first_child(o.children@, p[0], jo)
                && n[j] == o.children@[jo] by {
                let jo = if j < i { j } else { j - 1 };
                assert(first_child(b, p[0], j));
                assert(first_child(o.children@, p[0], jo));
                assert(n[j] == b[j]);
            }
            assert forall|jo: int| first_child(o.children@, p[0], jo) implies exists|j: int| #[trigger] first_child(n, p[0], j)
                && n[j] == o.children@[jo] by {
                let j = if jo < i { jo } else { jo + 1 };
                assert(first_child(b, p[0], j));
                assert(first_child(n, p[0], j));
                assert(n[j] == b[j]);
            }
        }
        lemma_lookup_other(o, nw, name, p);
    }
}

/// One level of an insertion, put together.
proof fn lemma_insert_step(
    o: TreeNodeBuilder,
    nw: TreeNodeBuilder,
    cb: TreeNodeBuilder,
    cn: TreeNodeBuilder,
    i: int,
    c: Seq<Seq<char>>,
    dv: Seq<Seq<char>>,
    sv: Seq<Seq<char>>,
    from: int,
    leaf: Seq<char>,
    existed: bool,
)
    requires
        c.len() >= 1,
        step_shape(o, nw, cb, cn, i, c[0], existed),
        !existed ==> cb.kind@ == (if c.len() == 1 { leaf } else { "dir"@ }),
        cn.path@ == text_at(dv, from),
        cn.source_path@ == text_at(sv, from),
        c.len() == 1 ==> cn.kind@ == leaf && cn.children@ == cb.children@,
        c.len() > 1 ==> cn.kind@ == cb.kind@,
        c.len() > 1 ==> forall|p: Seq<Seq<char>>|
            #![trigger lookup(cn, p)]
            lookup(cn, p) == if on_path(p, c.skip(1)) {
                Some(inserted_info(cb, c.skip(1), dv, sv, from + 1, leaf, p.len() as int))
            } else {
                lookup(cb, p)
            },
    ensures
        forall|p: Seq<Seq<char>>|
            #![trigger lookup(nw, p)]
            lookup(nw, p) == if on_path(p, c) {
                Some(inserted_info(o, c, dv, sv, from, leaf, p.len() as int))
            } else {
                lookup(o, p)
            },
{
    let name = c[0];
    lemma_step_first(o, nw, cb, cn, i, name, existed);
    lemma_step_other(o, nw, cb, cn, i, name, existed);
    assert forall|p: Seq<Seq<char>>| #![trigger lookup(nw, p)]
        lookup(nw, p) == if on_path(p, c) {
            Some(inserted_info(o, c, dv, sv, from, leaf, p.len() as int))
        } else {
            lookup(o, p)
        } by {
        if p.len() == 0 {
            assert(!on_path(p, c));
        } else if p[0] != name {
            if on_path(p, c) {
                assert(p[0] == c.take(p.len() as int)[0]);
            }
            assert(lookup(nw, p) == lookup(o, p));
        } else {
            let ch = choose|x: int| first_child(nw.children@, p[0], x);
            lemma_first_child_unique(nw.children@, p[0], i, ch);
            if p.len() == 1 {
                assert(p =~= c.take(1));
                assert(on_path(p, c));
                assert(lookup(nw, p) == Some(node_info(cn)));
                if c.len() > 1 {
                    assert(lookup(o, c.take(1)) == lookup(o, p));
                    assert(lookup(o, p) == if existed { Some(node_info(cb)) } else { None });
                }
                assert(node_info(cn) == inserted_info(o, c, dv, sv, from, leaf, 1));
            } else {
                assert(lookup(nw, p) == lookup(cn, p.skip(1)));
                lemma_path_step(o, cb, c, dv, sv, from, leaf, p);
                assert(lookup(o, p) == lookup(cb, p.skip(1)));
                if c.len() == 1 {
                    lemma_lookup_children(cn, cb, p.skip(1));
                    assert(!on_path(p, c));
                }
            }
        }
    }
}

/// The folder `n` levels above `leaf`, by its components (none where it has fewer).
pub open spec fn base_comps(leaf: Seq<char>, n: int) -> Seq<Seq<char>> {
    let lc = components(leaf);
    if n <= lc.len() {
        lc.take(lc.len() - n)
    } else {
        Seq::empty()
    }
}

/// The source path of each node on the way to a file: the folder as many levels above the
/// file as there are components, then one component more at each level.
pub open spec fn source_paths_spec(comps: Seq<Seq<char>>, leaf: Seq<char>) -> Seq<Seq<char>> {
    Seq::new(comps.len(), |i: int| join_path(rooted(leaf), base_comps(leaf, comps.len() as int) + comps.take(i + 1)))
}

/// The shown path of each node on the way: `res://` paths where the file is shown as one,
/// else the source paths.
pub open spec fn display_paths_spec(comps: Seq<Seq<char>>, display: Seq<char>, leaf: Seq<char>) -> Seq<Seq<char>> {
    if display.len() >= 6 && display.take(6) == res_prefix() {
        Seq::new(comps.len(), |i: int| res_prefix() + join_slash(comps.take(i + 1)))
    } else {
        source_paths_spec(comps, leaf)
    }
}

pub fn tree_source_paths(comps: &Vec<String>, leaf_source: &str) -> (r: Vec<String>)
    ensures
        strings_view(r@) == source_paths_spec(strings_view(comps@), leaf_source@),
{
    let leaf = chars_of(leaf_source);
    let lc = comps_of(leaf.as_slice());
    let is_rooted = is_rooted_exec(leaf.as_slice());
    let n = comps.len();
    let base: Vec<Vec<char>> = if n <= lc.len() {
        sub_comps(lc.as_slice(), 0, lc.len() - n)
    } else {
        Vec::new()
    };
    proof {
        assert(vv(lc@).len() == lc@.len());
        if n <= lc.len() {
            assert(vv(lc@).subrange(0, lc@.len() - n) =~= base_comps(leaf_source@, n as int));
        } else {
            assert(vv(base@) =~= base_comps(leaf_source@, n as int));
        }
    }
    let ghost cv = strings_view(comps@);
    let mut cur = base;
    let mut out: Vec<String> = Vec::new();
    let mut i: usize = 0;
    while i < comps.len()
        invariant
            i <= comps@.len(),
            n == comps@.len(),
            cv == strings_view(comps@),
            is_rooted == rooted(leaf_source@),
            vv(cur@) == base_comps(leaf_source@, n as int) + cv.take(i as int),
            strings_view(out@) == source_paths_spec(cv, leaf_source@).take(i as int),
        decreases comps.len() - i,
    {
        let ghost before = vv(cur@);
        cur.push(chars_of(comps[i].as_str()));
        assert(vv(cur@) =~= before.push(cv[i as int]));
        assert(cv.take(i + 1) =~= cv.take(i as int).push(cv[i as int]));
        let joined = join_comps(is_rooted, cur.as_slice(), '\\');
        let ghost ob = strings_view(out@);
        out.push(string_from(joined.as_slice()));
        assert(strings_view(out@) =~= ob.push(joined@));
        i += 1;
        assert(strings_view(out@) =~= source_paths_spec(cv, leaf_source@).take(i as int));
    }
    assert(source_paths_spec(cv, leaf_source@).take(i as int) =~= source_paths_spec(cv, leaf_source@));
    out
}

pub fn tree_display_paths(comps: &Vec<String>, leaf_display: &str, leaf_source: &str) -> (r: Vec<String>)
    ensures
        strings_view(r@) == display_paths_spec(strings_view(comps@), leaf_display@, leaf_source@),
{
    let prefix = vec!['r', 'e', 's', ':', '/', '/'];
    assert(prefix@ =~= res_prefix());
    let disp = chars_of(leaf_display);
    if !starts_with(disp.as_slice(), prefix.as_slice()) {
        return tree_source_paths(comps, leaf_source);
    }
    proof {
        assert(leaf_display@.take(6) =~= leaf_display@.subrange(0, 6));
    }
    let ghost cv = strings_view(comps@);
    let mut parts: Vec<Vec<char>> = Vec::new();
    let mut out: Vec<String> = Vec::new();
    let mut i: usize = 0;
    while i < comps.len()
        invariant
            i <= comps@.len(),
            cv == strings_view(comps@),
            prefix@ == res_prefix(),
            vv(parts@) == cv.take(i as int),
            strings_view(out@) == Seq::new(i as nat, |k: int| res_prefix() + join_slash(cv.take(k + 1))),
        decreases comps.len() - i,
    {
        let ghost before = vv(parts@);
        parts.push(chars_of(comps[i].as_str()));
        assert(vv(parts@) =~= before.push(cv[i as int]));
        assert(cv.take(i + 1) =~= cv.take(i as int).push(cv[i as int]));
        let joined = join_comps(false, parts.as_slice(), '/');
        let mut text = prefix.clone();
        crate::text::push_all(&mut text, joined.as_slice());
        let ghost ob = strings_view(out@);
        out.push(string_from(text.as_slice()));
        assert(strings_view(out@) =~= ob.push(res_prefix() + join_slash(cv.take(i + 1))));
        i += 1;
        assert(strings_view(out@) =~= Seq::new(i as nat, |k: int| res_prefix() + join_slash(cv.take(k + 1))));
    }
    out
}

/// A node shown as the node it was built as, with its children in the same order.
pub open spec fn dto_ok(b: TreeNodeBuilder, d: ExtractionTreeNodeDto) -> bool
    decreases b, 0nat,
{
    &&& d.name@ == b.name@
    &&& d.path@ == b.path@
    &&& d.source_path@ == b.source_path@
    &&& d.kind@ == b.kind@
    &&& dtos_ok(b.children@, d.children@)
}

pub open spec fn dtos_ok(bs: Seq<TreeNodeBuilder>, ds: Seq<ExtractionTreeNodeDto>) -> bool
    decreases bs, 1nat,
{
    &&& bs.len() == ds.len()
    &&& bs.len() > 0 ==> dtos_ok(bs.drop_last(), ds.drop_last()) && dto_ok(bs[bs.len() - 1], ds[ds.len() - 1])
}

proof fn lemma_dtos_push(bs: Seq<TreeNodeBuilder>, ds: Seq<ExtractionTreeNodeDto>, b: TreeNodeBuilder, d: ExtractionTreeNodeDto)
    requires
        dtos_ok(bs, ds),
        dto_ok(b, d),
    ensures
        dtos_ok(bs.push(b), ds.push(d)),
{
    assert(bs.push(b).drop_last() =~= bs);
    assert(ds.push(d).drop_last() =~= ds);
}

/// The children, each shown as a node.
fn children_into_dtos(children: Vec<TreeNodeBuilder>) -> (r: Vec<ExtractionTreeNodeDto>)
    ensures
        dtos_ok(children@, r@),
    decreases children, 1nat,
{
    let ghost all = children@;
    assert(all.len() == children.len());
    let mut rest = children;
    let mut out: Vec<ExtractionTreeNodeDto> = Vec::new();
    let mut k: usize = 0;
    while rest.len() > 0
        invariant
            all == children@,
            all.len() <= usize::MAX,
            k + rest@.len() == all.len(),
            rest@ == all.skip(k as int),
            dtos_ok(all.take(k as int), out@),
        decreases rest.len(),
    {
        let c = rest.remove(0);
        proof {
            assert(c == all[k as int]);
            assert(rest@ =~= all.skip(k + 1));
            assert(decreases_to!(children => children@));
            assert(decreases_to!(children@ => children@[k as int]));
            assert(decreases_to!(children, 1nat => c, 0nat));
        }
        let d = into_dto_node(c);
        proof {
            lemma_dtos_push(all.take(k as int), out@, all[k as int], d);
            assert(all.take(k + 1) =~= all.take(k as int).push(all[k as int]));
        }
        out.push(d);
        k += 1;
    }
    assert(all.take(k as int) =~= all);
    out
}

fn into_dto_node(b: TreeNodeBuilder) -> (r: ExtractionTreeNodeDto)
    ensures
        dto_ok(b, r),
    decreases b, 0nat,
{
    let TreeNodeBuilder { name, path, source_path, kind, children } = b;
    proof {
        assert(decreases_to!(b => b.children));
    }
    let cs = children_into_dtos(children);
    ExtractionTreeNodeDto { name, path, kind, source_path, children: cs }
}

impl TreeNodeBuilder {
    /// The tree as the view shows it.
    pub fn into_dto(self) -> (r: ExtractionTreeNodeDto)
        ensures
            dto_ok(self, r),
    {
        into_dto_node(self)
    }

    /// The children of this node as the view shows them.
    pub fn into_children(self) -> (r: Vec<ExtractionTreeNodeDto>)
        ensures
            dtos_ok(self.children@, r@),
    {
        children_into_dtos(self.children)
    }
}

impl TreeNodeBuilder {
    /// Adds a file at `relative` below this node, shown as `display`, found at `source_path`.
    pub fn insert_display(&mut self, relative: &str, display: &str, source_path: &str, leaf_kind: &str)
        ensures
            insert_ok(
                *old(self),
                *final(self),
                components(relative@),
                display_paths_spec(components(relative@), display@, source_path@),
                source_paths_spec(components(relative@), source_path@),
                0,
                leaf_kind@,
            ),
            names_sorted(old(self).children@) ==> names_sorted(final(self).children@),
    {
        let cs = comps_of(chars_of(relative).as_slice());
        let mut comps: Vec<String> = Vec::new();
        let mut i: usize = 0;
        while i < cs.len()
            invariant
                i <= cs@.len(),
                strings_view(comps@) == vv(cs@).take(i as int),
            decreases cs.len() - i,
        {
            let ghost before = strings_view(comps@);
            comps.push(string_from(cs[i].as_slice()));
            assert(strings_view(comps@) =~= before.push(cs@[i as int]@));
            assert(vv(cs@).take(i + 1) =~= vv(cs@).take(i as int).push(cs@[i as int]@));
            i += 1;
        }
        assert(vv(cs@).take(i as int) =~= vv(cs@));
        let dps = tree_display_paths(&comps, display, source_path);
        let sps = tree_source_paths(&comps, source_path);
        self.insert_components(&comps, &dps, &sps, leaf_kind, 0);
        assert(strings_view(comps@).skip(0) =~= strings_view(comps@));
    }

    /// Adds a file at `relative` below this node, shown and found at `absolute`.
    pub fn insert(&mut self, relative: &str, absolute: &str, leaf_kind: &str)
        ensures
            insert_ok(
                *old(self),
                *final(self),
                components(relative@),
                display_paths_spec(components(relative@), absolute@, absolute@),
                source_paths_spec(components(relative@), absolute@),
                0,
                leaf_kind@,
            ),
            names_sorted(old(self).children@) ==> names_sorted(final(self).children@),
    {
        self.insert_display(relative, absolute, absolute, leaf_kind);
    }
}

pub open spec fn listed(paths: Seq<String>, p: Seq<char>) -> bool {
    exists|i: int| 0 <= i < paths.len() && same_components(#[trigger] paths[i]@, p)
}

/// How a file is marked in the tree: a language file, else a hard-coded string source,
/// else a plain file.
pub open spec fn file_kind_spec(file: Seq<char>, language_paths: Seq<String>, hardcoded_paths: Seq<String>) -> Seq<char> {
    if listed(language_paths, file) {
        "language"@
    } else if listed(hardcoded_paths, file) {
        "hardcoded"@
    } else {
        "file"@
    }
}

fn listed_exec(paths: &Vec<String>, p: &str) -> (r: bool)
    ensures
        r == listed(paths@, p@),
{
    let mut i: usize = 0;
    while i < paths.len()
        invariant
            i <= paths@.len(),
            forall|j: int| 0 <= j < i ==> !same_components(#[trigger] paths@[j]@, p@),
        decreases paths.len() - i,
    {
        if same_components_exec(paths[i].as_str(), p) {
            return true;
        }
        i += 1;
    }
    false
}

pub fn tree_file_kind(file: &str, language_paths: &Vec<String>, hardcoded_paths: &Vec<String>) -> (r: &'static str)
    ensures
        r@ == file_kind_spec(file@, language_paths@, hardcoded_paths@),
{
    if listed_exec(language_paths, file) {
        "language"
    } else if listed_exec(hardcoded_paths, file) {
        "hardcoded"
    } else {
        "file"
    }
}

/// The tree of a single file that cannot be extracted: the file alone, named by its file
/// name (its path where it has none).
pub fn single_file_tree(source: &str) -> (r: Vec<ExtractionTreeNodeDto>)
    ensures
        r@.len() == 1,
        r@[0].name@ == match file_name_spec(source@) {
            Some(n) => n,
            None => source@,
        },
        r@[0].path@ == source@ && r@[0].source_path@ == source@ && r@[0].kind@ == "file"@,
        r@[0].children@.len() == 0,
{
    let name = match file_name_exec(chars_of(source).as_slice()) {
        Some(n) => string_from(n.as_slice()),
        None => source.to_string(),
    };
    let node = ExtractionTreeNodeDto {
        name,
        path: source.to_string(),
        kind: "file".to_string(),
        source_path: source.to_string(),
        children: Vec::new(),
    };
    vec![node]
}

} // verus!
