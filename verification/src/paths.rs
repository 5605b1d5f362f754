//! Paths as text, with Windows separators: a path is a rooted flag and a list of
//! non-empty components split on `\` or `/`, and is written back with `\`.
use vstd::prelude::*;
use crate::roots::opt_view;
use crate::text::{
    ascii_lower, chars_of, copy_chars, ends_with, eq_ignore_case, join_seqs, lower_seq, push_all,
    seq_eq,
    string_from,
};

verus! {

pub open spec fn is_sep(c: char) -> bool {
    c == '/' || c == '\\'
}

pub open spec fn vv(v: Seq<Vec<char>>) -> Seq<Seq<char>> {
    Seq::new(v.len(), |i: int| v[i]@)
}

/// Components read so far and the piece being read.
pub open spec fn comp_state(p: Seq<char>) -> (Seq<Seq<char>>, Seq<char>)
    decreases p.len(),
{
    if p.len() == 0 {
        (Seq::<Seq<char>>::empty(), Seq::<char>::empty())
    } else {
        let prev = comp_state(p.drop_last());
        if is_sep(p.last()) {
            if prev.1.len() > 0 {
                (prev.0.push(prev.1), Seq::<char>::empty())
            } else {
                (prev.0, Seq::<char>::empty())
            }
        } else {
            (prev.0, prev.1.push(p.last()))
        }
    }
}

/// The non-empty pieces between separators.
pub open spec fn components(p: Seq<char>) -> Seq<Seq<char>> {
    let st = comp_state(p);
    if st.1.len() > 0 {
        st.0.push(st.1)
    } else {
        st.0
    }
}

pub open spec fn rooted(p: Seq<char>) -> bool {
    p.len() > 0 && is_sep(p[0])
}

/// A path written back from its parts.
pub open spec fn join_path(is_rooted: bool, comps: Seq<Seq<char>>) -> Seq<char> {
    (if is_rooted {
        seq!['\\']
    } else {
        Seq::<char>::empty()
    }) + join_seqs(comps, seq!['\\'])
}

pub open spec fn join_slash(comps: Seq<Seq<char>>) -> Seq<char> {
    join_seqs(comps, seq!['/'])
}

/// Index of the first component equal to `name` ignoring ASCII case.
pub open spec fn first_named(comps: Seq<Seq<char>>, name: Seq<char>, i: int) -> bool {
    0 <= i < comps.len() && lower_seq(comps[i]) == lower_seq(name) && forall|j: int|
        0 <= j < i ==> lower_seq(#[trigger] comps[j]) != lower_seq(name)
}

pub open spec fn has_named(comps: Seq<Seq<char>>, name: Seq<char>) -> bool {
    exists|i: int| 0 <= i < comps.len() && lower_seq(#[trigger] comps[i]) == lower_seq(name)
}

/// Index of the last component equal to `name` ignoring ASCII case.
pub open spec fn last_named(comps: Seq<Seq<char>>, name: Seq<char>, i: int) -> bool {
    0 <= i < comps.len() && lower_seq(comps[i]) == lower_seq(name) && forall|j: int|
        i < j < comps.len() ==> lower_seq(#[trigger] comps[j]) != lower_seq(name)
}

pub open spec fn pck_contents_suffix() -> Seq<char> {
    seq!['.', 'p', 'c', 'k', '.', 'c', 'o', 'n', 't', 'e', 'n', 't', 's']
}

pub open spec fn is_pck_contents_name(c: Seq<char>) -> bool {
    pck_contents_suffix().len() <= c.len() && lower_seq(c).skip(c.len() - pck_contents_suffix().len())
        == pck_contents_suffix()
}

pub open spec fn first_pck_contents(comps: Seq<Seq<char>>, i: int) -> bool {
    0 <= i < comps.len() && is_pck_contents_name(comps[i]) && forall|j: int|
        0 <= j < i ==> !is_pck_contents_name(#[trigger] comps[j])
}

/// What `Path::file_name` gives.
pub open spec fn file_name_spec(p: Seq<char>) -> Option<Seq<char>> {
    let c = components(p);
    if c.len() == 0 {
        None
    } else {
        Some(c.last())
    }
}

pub open spec fn last_dot(name: Seq<char>, i: int) -> bool {
    0 <= i < name.len() && name[i] == '.' && forall|j: int| i < j < name.len() ==> name[j] != '.'
}

/// What `Path::extension` gives for a file name: the text after the last dot, unless the only
/// dot leads the name.
pub open spec fn extension_of(name: Seq<char>) -> Option<Seq<char>> {
    if exists|i: int| last_dot(name, i) && i > 0 {
        let i = choose|i: int| last_dot(name, i) && i > 0;
        Some(name.skip(i + 1))
    } else {
        None
    }
}

/// What `Path::file_stem` gives for a file name.
pub open spec fn stem_of(name: Seq<char>) -> Seq<char> {
    if exists|i: int| last_dot(name, i) && i > 0 {
        let i = choose|i: int| last_dot(name, i) && i > 0;
        name.take(i)
    } else {
        name
    }
}

pub open spec fn extension_spec(p: Seq<char>) -> Option<Seq<char>> {
    match file_name_spec(p) {
        Some(n) => extension_of(n),
        None => None,
    }
}

pub open spec fn ext_is(p: Seq<char>, e: Seq<char>) -> bool {
    match extension_spec(p) {
        Some(x) => lower_seq(x) == e,
        None => false,
    }
}

pub open spec fn is_prefix_comps(a: Seq<Seq<char>>, b: Seq<Seq<char>>) -> bool {
    a.len() <= b.len() && b.take(a.len() as int) == a
}

pub proof fn lemma_vv_push(v: Seq<Vec<char>>, x: Vec<char>)
    ensures
        vv(v.push(x)) == vv(v).push(x@),
{
    assert(vv(v.push(x)) =~= vv(v).push(x@));
}

pub proof fn lemma_join_push(comps: Seq<Seq<char>>, x: Seq<char>, sep: Seq<char>)
    ensures
        comps.len() > 0 ==> join_seqs(comps.push(x), sep) == join_seqs(comps, sep) + sep + x,
        comps.len() == 0 ==> join_seqs(comps.push(x), sep) == x,
{
    assert(comps.push(x).drop_last() =~= comps);
}

/// Splits a path into its components.
pub fn comps_of(p: &[char]) -> (r: Vec<Vec<char>>)
    ensures
        vv(r@) == components(p@),
        forall|i: int| 0 <= i < r@.len() ==> r@[i]@.len() > 0,
{
    let mut done: Vec<Vec<char>> = Vec::new();
    let mut cur: Vec<char> = Vec::new();
    let mut i: usize = 0;
    while i < p.len()
        invariant
            i <= p.len(),
            vv(done@) == comp_state(p@.take(i as int)).0,
            cur@ == comp_state(p@.take(i as int)).1,
            forall|k: int| 0 <= k < done@.len() ==> done@[k]@.len() > 0,
        decreases p.len() - i,
    {
        let c = p[i];
        proof {
            assert(p@.take(i + 1).drop_last() =~= p@.take(i as int));
        }
        if c == '/' || c == '\\' {
            if cur.len() > 0 {
                proof {
                    lemma_vv_push(done@, cur);
                }
                done.push(cur);
            }
            cur = Vec::new();
            assert(cur@ =~= Seq::<char>::empty());
        } else {
            cur.push(c);
        }
        i += 1;
    }
    assert(p@.take(p.len() as int) =~= p@);
    if cur.len() > 0 {
        proof {
            lemma_vv_push(done@, cur);
        }
        done.push(cur);
    }
    done
}

/// Writes components back as a path, `\` between them.
pub fn join_comps(is_rooted: bool, comps: &[Vec<char>], sep: char) -> (r: Vec<char>)
    ensures
        r@ == (if is_rooted {
            seq![sep]
        } else {
            Seq::<char>::empty()
        }) + join_seqs(vv(comps@), seq![sep]),
{
    let mut out: Vec<char> = Vec::new();
    if is_rooted {
        out.push(sep);
    }
    let ghost head = out@;
    let mut i: usize = 0;
    while i < comps.len()
        invariant
            i <= comps.len(),
            head == (if is_rooted {
                seq![sep]
            } else {
                Seq::<char>::empty()
            }),
            out@ == head + join_seqs(vv(comps@.take(i as int)), seq![sep]),
        decreases comps.len() - i,
    {
        proof {
            assert(vv(comps@.take(i + 1)) =~= vv(comps@.take(i as int)).push(comps@[i as int]@));
            lemma_join_push(vv(comps@.take(i as int)), comps@[i as int]@, seq![sep]);
        }
        if i > 0 {
            out.push(sep);
        }
        push_all(&mut out, comps[i].as_slice());
        i += 1;
        assert(out@ =~= head + join_seqs(vv(comps@.take(i as int)), seq![sep]));
    }
    assert(comps@.take(comps.len() as int) =~= comps@);
    out
}

pub fn is_rooted_exec(p: &[char]) -> (r: bool)
    ensures
        r == rooted(p@),
{
    p.len() > 0 && (p[0] == '/' || p[0] == '\\')
}

/// Position of the first component equal to `name`, ignoring ASCII case.
pub fn find_named(comps: &[Vec<char>], name: &[char]) -> (r: Option<usize>)
    ensures
        r matches Some(i) ==> first_named(vv(comps@), name@, i as int),
        r is None ==> !has_named(vv(comps@), name@),
{
    let mut i: usize = 0;
    while i < comps.len()
        invariant
            i <= comps.len(),
            forall|j: int| 0 <= j < i ==> lower_seq(#[trigger] vv(comps@)[j]) != lower_seq(name@),
        decreases comps.len() - i,
    {
        if eq_ignore_case(comps[i].as_slice(), name) {
            return Some(i);
        }
        i += 1;
    }
    None
}

/// Position of the last component equal to `name`, ignoring ASCII case.
pub fn rfind_named(comps: &[Vec<char>], name: &[char]) -> (r: Option<usize>)
    ensures
        r matches Some(i) ==> last_named(vv(comps@), name@, i as int),
        r is None ==> !has_named(vv(comps@), name@),
{
    let mut i: usize = comps.len();
    while i > 0
        invariant
            i <= comps.len(),
            forall|j: int| i <= j < comps.len() ==> lower_seq(#[trigger] vv(comps@)[j]) != lower_seq(
                name@,
            ),
        decreases i,
    {
        if eq_ignore_case(comps[i - 1].as_slice(), name) {
            return Some(i - 1);
        }
        i -= 1;
    }
    None
}

pub fn is_pck_contents_name_exec(c: &[char]) -> (r: bool)
    ensures
        r == is_pck_contents_name(c@),
{
    let lower = ascii_lower(c);
    let suffix: Vec<char> = vec!['.', 'p', 'c', 'k', '.', 'c', 'o', 'n', 't', 'e', 'n', 't', 's'];
    assert(suffix@ =~= pck_contents_suffix());
    ends_with(lower.as_slice(), suffix.as_slice())
}

pub fn find_pck_contents(comps: &[Vec<char>]) -> (r: Option<usize>)
    ensures
        r matches Some(i) ==> first_pck_contents(vv(comps@), i as int),
        r is None ==> forall|j: int| 0 <= j < comps@.len() ==> !is_pck_contents_name(#[trigger] vv(comps@)[j]),
{
    let mut i: usize = 0;
    while i < comps.len()
        invariant
            i <= comps.len(),
            forall|j: int| 0 <= j < i ==> !is_pck_contents_name(#[trigger] vv(comps@)[j]),
        decreases comps.len() - i,
    {
        if is_pck_contents_name_exec(comps[i].as_slice()) {
            return Some(i);
        }
        i += 1;
    }
    None
}

pub fn sub_comps(comps: &[Vec<char>], from: usize, to: usize) -> (r: Vec<Vec<char>>)
    requires
        from <= to <= comps@.len(),
    ensures
        vv(r@) == vv(comps@).subrange(from as int, to as int),
{
    let mut out: Vec<Vec<char>> = Vec::new();
    let mut i: usize = from;
    while i < to
        invariant
            from <= i <= to <= comps@.len(),
            vv(out@) == vv(comps@).subrange(from as int, i as int),
        decreases to - i,
    {
        let c = copy_chars(comps[i].as_slice());
        proof {
            lemma_vv_push(out@, c);
        }
        out.push(c);
        i += 1;
        assert(vv(out@) =~= vv(comps@).subrange(from as int, i as int));
    }
    out
}

/// The part of a path after the first component named `name`, as a relative path.
pub fn relative_after_named_component(path: &str, name: &str) -> (r: Option<String>)
    ensures
        ({
            let c = components(path@);
            match r {
                Some(s) => exists|i: int|
                    first_named(c, name@, i) && i + 1 < c.len() && s@ == join_path(
                        false,
                        c.skip(i + 1),
                    ),
                None => !has_named(c, name@) || exists|i: int|
                    first_named(c, name@, i) && i + 1 >= c.len(),
            }
        }),
{
    let p = chars_of(path);
    let n = chars_of(name);
    let comps = comps_of(p.as_slice());
    match find_named(comps.as_slice(), n.as_slice()) {
        None => None,
        Some(i) => {
            assert(vv(comps@).len() == comps@.len());
            assert(first_named(vv(comps@), n@, i as int));
            assert(i < comps.len());
            if i + 1 >= comps.len() {
                None
            } else {
                let rest = sub_comps(comps.as_slice(), i + 1, comps.len());
                let out = join_comps(false, rest.as_slice(), '\\');
                assert(vv(comps@).subrange(i + 1, comps@.len() as int) =~= vv(comps@).skip(i + 1));
                Some(string_from(out.as_slice()))
            }
        },
    }
}

/// The path up to and including the first component named `name`.
pub fn root_through_named_component(path: &str, name: &str) -> (r: Option<String>)
    ensures
        ({
            let c = components(path@);
            match r {
                Some(s) => exists|i: int|
                    first_named(c, name@, i) && s@ == join_path(rooted(path@), c.take(i + 1)),
                None => !has_named(c, name@),
            }
        }),
{
    let p = chars_of(path);
    let n = chars_of(name);
    let comps = comps_of(p.as_slice());
    match find_named(comps.as_slice(), n.as_slice()) {
        None => None,
        Some(i) => {
            assert(vv(comps@).len() == comps@.len());
            assert(first_named(vv(comps@), n@, i as int));
            assert(i < comps.len());
            let head = sub_comps(comps.as_slice(), 0, i + 1);
            let out = join_comps(is_rooted_exec(p.as_slice()), head.as_slice(), '\\');
            assert(vv(comps@).subrange(0, i + 1) =~= vv(comps@).take(i + 1));
            Some(string_from(out.as_slice()))
        },
    }
}

pub open spec fn source_name() -> Seq<char> {
    seq!['s', 'o', 'u', 'r', 'c', 'e']
}

/// The nearest ancestor of a path (the path included) whose name is `source`.
pub open spec fn selected_source_root_spec(p: Seq<char>) -> Option<Seq<char>> {
    let c = components(p);
    if has_named(c, source_name()) {
        let j = choose|j: int| last_named(c, source_name(), j);
        Some(join_path(rooted(p), c.take(j + 1)))
    } else {
        None
    }
}

pub proof fn lemma_last_named_unique(c: Seq<Seq<char>>, name: Seq<char>, i: int, j: int)
    requires
        last_named(c, name, i),
        last_named(c, name, j),
    ensures
        i == j,
{
    if i < j {
        assert(lower_seq(c[j]) != lower_seq(name));
    } else if j < i {
        assert(lower_seq(c[i]) != lower_seq(name));
    }
}

pub proof fn lemma_first_named_unique(c: Seq<Seq<char>>, name: Seq<char>, i: int, j: int)
    requires
        first_named(c, name, i),
        first_named(c, name, j),
    ensures
        i == j,
{
    if i < j {
        assert(lower_seq(c[i]) != lower_seq(name));
    } else if j < i {
        assert(lower_seq(c[j]) != lower_seq(name));
    }
}

/// Index of the nearest `source` component and the components, for the callers below.
pub fn source_root_index(p: &[char], comps: &[Vec<char>]) -> (r: Option<usize>)
    requires
        vv(comps@) == components(p@),
    ensures
        r matches Some(j) ==> last_named(components(p@), source_name(), j as int)
            && selected_source_root_spec(p@) == Some(join_path(
            rooted(p@),
            components(p@).take(j + 1),
        )),
        r is None ==> selected_source_root_spec(p@) is None,
{
    let name: Vec<char> = vec!['s', 'o', 'u', 'r', 'c', 'e'];
    assert(name@ =~= source_name());
    let found = rfind_named(comps, name.as_slice());
    proof {
        if let Some(j) = found {
            let c = components(p@);
            assert(has_named(c, source_name()));
            let k = choose|k: int| last_named(c, source_name(), k);
            lemma_last_named_unique(c, source_name(), j as int, k);
        }
    }
    found
}

/// The nearest ancestor named `source` (ignoring case) of a working file.
pub fn selected_source_root(source_path: &str) -> (r: Option<String>)
    ensures
        match r {
            Some(s) => selected_source_root_spec(source_path@) == Some(s@),
            None => selected_source_root_spec(source_path@) is None,
        },
{
    let p = chars_of(source_path);
    let comps = comps_of(p.as_slice());
    match source_root_index(p.as_slice(), comps.as_slice()) {
        None => None,
        Some(j) => {
            let head = sub_comps(comps.as_slice(), 0, j + 1);
            assert(vv(comps@).subrange(0, j + 1) =~= vv(comps@).take(j + 1));
            let out = join_comps(is_rooted_exec(p.as_slice()), head.as_slice(), '\\');
            Some(string_from(out.as_slice()))
        },
    }
}


pub proof fn lemma_last_dot_unique(name: Seq<char>, i: int, j: int)
    requires
        last_dot(name, i),
        last_dot(name, j),
    ensures
        i == j,
{
    if i < j {
        assert(name[j] != '.');
    } else if j < i {
        assert(name[i] != '.');
    }
}

/// Position of the last dot of a file name.
pub fn find_last_dot(name: &[char]) -> (r: Option<usize>)
    ensures
        r matches Some(i) ==> last_dot(name@, i as int),
        r is None ==> forall|i: int| !last_dot(name@, i),
{
    let mut i: usize = name.len();
    while i > 0
        invariant
            i <= name.len(),
            forall|j: int| i <= j < name.len() ==> name@[j] != '.',
        decreases i,
    {
        if name[i - 1] == '.' {
            return Some(i - 1);
        }
        i -= 1;
    }
    proof {
        assert forall|k: int| !last_dot(name@, k) by {
            if 0 <= k < name@.len() {
                assert(name@[k] != '.');
            }
        }
    }
    None
}

/// `Path::extension` of a file name.
pub fn extension_exec(name: &[char]) -> (r: Option<Vec<char>>)
    ensures
        match r {
            Some(e) => extension_of(name@) == Some(e@),
            None => extension_of(name@) is None,
        },
{
    match find_last_dot(name) {
        Some(i) => {
            if i == 0 {
                proof {
                    assert forall|k: int| !(last_dot(name@, k) && k > 0) by {
                        if last_dot(name@, k) {
                            lemma_last_dot_unique(name@, k, 0);
                        }
                    }
                }
                None
            } else {
                assert(last_dot(name@, i as int));
                assert(i < name.len());
                let mut out: Vec<char> = Vec::new();
                let mut k: usize = i + 1;
                while k < name.len()
                    invariant
                        i < name.len(),
                        i + 1 <= k <= name.len(),
                        out@ == name@.subrange(i + 1, k as int),
                    decreases name.len() - k,
                {
                    out.push(name[k]);
                    k += 1;
                    assert(out@ =~= name@.subrange(i + 1, k as int));
                }
                proof {
                    let c = choose|c: int| last_dot(name@, c) && c > 0;
                    lemma_last_dot_unique(name@, c, i as int);
                    assert(out@ =~= name@.skip(i + 1));
                }
                Some(out)
            }
        },
        None => None,
    }
}

/// `Path::file_stem` of a file name.
pub fn stem_exec(name: &[char]) -> (r: Vec<char>)
    ensures
        r@ == stem_of(name@),
{
    let cut: usize = match find_last_dot(name) {
        Some(i) => {
            if i == 0 {
                proof {
                    assert forall|k: int| !(last_dot(name@, k) && k > 0) by {
                        if last_dot(name@, k) {
                            lemma_last_dot_unique(name@, k, 0);
                        }
                    }
                }
                name.len()
            } else {
                proof {
                    let c = choose|c: int| last_dot(name@, c) && c > 0;
                    lemma_last_dot_unique(name@, c, i as int);
                }
                i
            }
        },
        None => name.len(),
    };
    let mut out: Vec<char> = Vec::new();
    let mut k: usize = 0;
    while k < cut
        invariant
            cut <= name.len(),
            k <= cut,
            out@ == name@.take(k as int),
        decreases cut - k,
    {
        out.push(name[k]);
        k += 1;
        assert(out@ =~= name@.take(k as int));
    }
    assert(name@.take(name@.len() as int) =~= name@);
    out
}

/// The last component of a path, as `Path::file_name` gives it.
pub fn file_name_exec(p: &[char]) -> (r: Option<Vec<char>>)
    ensures
        match r {
            Some(n) => file_name_spec(p@) == Some(n@),
            None => file_name_spec(p@) is None,
        },
{
    let comps = comps_of(p);
    assert(vv(comps@).len() == comps@.len());
    if comps.len() == 0 {
        None
    } else {
        Some(copy_chars(comps[comps.len() - 1].as_slice()))
    }
}

/// The extension of a path, as `Path::extension` gives it.
pub fn path_extension(p: &[char]) -> (r: Option<Vec<char>>)
    ensures
        match r {
            Some(e) => extension_spec(p@) == Some(e@),
            None => extension_spec(p@) is None,
        },
{
    match file_name_exec(p) {
        Some(n) => extension_exec(n.as_slice()),
        None => None,
    }
}

/// Whether the extension of a path is `e` (given in lower case), ignoring ASCII case.
pub fn ext_is_exec(p: &[char], e: &[char]) -> (r: bool)
    ensures
        r == ext_is(p@, e@),
{
    match path_extension(p) {
        Some(x) => {
            let l = ascii_lower(x.as_slice());
            seq_eq(l.as_slice(), e)
        },
        None => false,
    }
}

pub open spec fn pck_relative_spec(p: Seq<char>) -> Option<Seq<char>> {
    let c = components(p);
    if exists|i: int| first_pck_contents(c, i) {
        let i = choose|i: int| first_pck_contents(c, i);
        if i + 1 < c.len() {
            Some(join_path(false, c.skip(i + 1)))
        } else {
            None
        }
    } else {
        None
    }
}

pub proof fn lemma_first_pck_unique(c: Seq<Seq<char>>, i: int, j: int)
    requires
        first_pck_contents(c, i),
        first_pck_contents(c, j),
    ensures
        i == j,
{
    if i < j {
        assert(!is_pck_contents_name(c[i]));
    } else if j < i {
        assert(!is_pck_contents_name(c[j]));
    }
}

/// The part of a path inside the first `*.pck.contents` folder, as a relative path.
pub fn pck_resource_relative_path(path: &str) -> (r: Option<String>)
    ensures
        match r {
            Some(s) => pck_relative_spec(path@) == Some(s@),
            None => pck_relative_spec(path@) is None,
        },
{
    let p = chars_of(path);
    pck_relative_chars(p.as_slice())
}

pub fn pck_relative_chars(p: &[char]) -> (r: Option<String>)
    ensures
        match r {
            Some(s) => pck_relative_spec(p@) == Some(s@),
            None => pck_relative_spec(p@) is None,
        },
{
    let comps = comps_of(p);
    assert(vv(comps@).len() == comps@.len());
    match find_pck_contents(comps.as_slice()) {
        None => None,
        Some(i) => {
            proof {
                let c = components(p@);
                let k = choose|k: int| first_pck_contents(c, k);
                lemma_first_pck_unique(c, i as int, k);
            }
            if i + 1 >= comps.len() {
                None
            } else {
                let rest = sub_comps(comps.as_slice(), i + 1, comps.len());
                assert(vv(comps@).subrange(i + 1, comps@.len() as int) =~= vv(comps@).skip(i + 1));
                let out = join_comps(false, rest.as_slice(), '\\');
                Some(string_from(out.as_slice()))
            }
        },
    }
}

pub open spec fn pck_root_spec(p: Seq<char>) -> Option<Seq<char>> {
    let c = components(p);
    if exists|i: int| first_pck_contents(c, i) {
        let i = choose|i: int| first_pck_contents(c, i);
        Some(join_path(rooted(p), c.take(i + 1)))
    } else {
        None
    }
}

/// The path through the first `*.pck.contents` folder.
pub fn pck_contents_root_for_path(path: &str) -> (r: Option<String>)
    ensures
        match r {
            Some(s) => pck_root_spec(path@) == Some(s@),
            None => pck_root_spec(path@) is None,
        },
{
    let p = chars_of(path);
    let comps = comps_of(p.as_slice());
    assert(vv(comps@).len() == comps@.len());
    match find_pck_contents(comps.as_slice()) {
        None => None,
        Some(i) => {
            proof {
                let c = components(p@);
                let k = choose|k: int| first_pck_contents(c, k);
                lemma_first_pck_unique(c, i as int, k);
            }
            let head = sub_comps(comps.as_slice(), 0, i + 1);
            assert(vv(comps@).subrange(0, i + 1) =~= vv(comps@).take(i + 1));
            let out = join_comps(is_rooted_exec(p.as_slice()), head.as_slice(), '\\');
            Some(string_from(out.as_slice()))
        },
    }
}

/// Whether some component of a path is a `*.pck.contents` folder.
pub fn path_inside_pck_contents(path: &str) -> (r: bool)
    ensures
        r == exists|i: int|
            0 <= i < components(path@).len() && is_pck_contents_name(
                #[trigger] components(path@)[i],
            ),
{
    let p = chars_of(path);
    let comps = comps_of(p.as_slice());
    assert(vv(comps@).len() == comps@.len());
    match find_pck_contents(comps.as_slice()) {
        Some(i) => true,
        None => false,
    }
}

pub open spec fn localization_name() -> Seq<char> {
    seq!['l', 'o', 'c', 'a', 'l', 'i', 'z', 'a', 't', 'i', 'o', 'n']
}

pub open spec fn language_component_spec(p: Seq<char>) -> Option<Seq<char>> {
    let c = components(p);
    if has_named(c, localization_name()) {
        let i = choose|i: int| first_named(c, localization_name(), i);
        if i + 1 < c.len() {
            Some(c[i + 1])
        } else {
            None
        }
    } else {
        None
    }
}

pub proof fn lemma_has_named_first(c: Seq<Seq<char>>, name: Seq<char>)
    requires
        has_named(c, name),
    ensures
        exists|i: int| first_named(c, name, i),
    decreases c.len(),
{
    let k = choose|k: int| 0 <= k < c.len() && lower_seq(#[trigger] c[k]) == lower_seq(name);
    if lower_seq(c[0]) == lower_seq(name) {
        assert(first_named(c, name, 0));
    } else {
        let t = c.drop_first();
        assert(lower_seq(t[k - 1]) == lower_seq(name));
        lemma_has_named_first(t, name);
        let j = choose|j: int| first_named(t, name, j);
        assert forall|m: int| 0 <= m < j + 1 implies lower_seq(#[trigger] c[m]) != lower_seq(name) by {
            if m > 0 {
                assert(c[m] == t[m - 1]);
            }
        }
        assert(first_named(c, name, j + 1));
    }
}

/// The folder name right below the first `localization` component (the language folder).
pub fn localization_language_component(path: &str) -> (r: Option<String>)
    ensures
        match r {
            Some(s) => language_component_spec(path@) == Some(s@),
            None => language_component_spec(path@) is None,
        },
{
    let p = chars_of(path);
    let comps = comps_of(p.as_slice());
    assert(vv(comps@).len() == comps@.len());
    let name = chars_of("localization");
    proof {
        reveal_strlit("localization");
        assert(name@ =~= localization_name());
    }
    match find_named(comps.as_slice(), name.as_slice()) {
        None => None,
        Some(i) => {
            proof {
                let c = components(p@);
                let k = choose|k: int| first_named(c, localization_name(), k);
                lemma_first_named_unique(c, localization_name(), i as int, k);
            }
            assert(first_named(vv(comps@), name@, i as int));
            assert(i < comps.len());
            if i + 1 >= comps.len() {
                None
            } else {
                Some(string_from(comps[i + 1].as_slice()))
            }
        },
    }
}

pub open spec fn replace_language_spec(p: Seq<char>, language: Seq<char>) -> Option<Seq<char>> {
    let c = components(p);
    if has_named(c, localization_name()) {
        let i = choose|i: int| first_named(c, localization_name(), i);
        if i + 1 < c.len() {
            Some(join_path(rooted(p), c.update(i + 1, language)))
        } else {
            None
        }
    } else {
        None
    }
}

/// The same path with the language folder under `localization` replaced.
pub fn replace_resource_language(path: &str, language: &str) -> (r: Option<String>)
    ensures
        match r {
            Some(s) => replace_language_spec(path@, language@) == Some(s@),
            None => replace_language_spec(path@, language@) is None,
        },
{
    let p = chars_of(path);
    let lang = chars_of(language);
    let mut comps = comps_of(p.as_slice());
    assert(vv(comps@).len() == comps@.len());
    let name = chars_of("localization");
    proof {
        reveal_strlit("localization");
        assert(name@ =~= localization_name());
    }
    match find_named(comps.as_slice(), name.as_slice()) {
        None => None,
        Some(i) => {
            proof {
                let c = components(p@);
                let k = choose|k: int| first_named(c, localization_name(), k);
                lemma_first_named_unique(c, localization_name(), i as int, k);
            }
            assert(first_named(vv(comps@), name@, i as int));
            assert(i < comps.len());
            if i + 1 >= comps.len() {
                None
            } else {
                let ghost before = vv(comps@);
                comps.set(i + 1, lang);
                assert(vv(comps@) =~= before.update(i + 1, language@));
                let out = join_comps(is_rooted_exec(p.as_slice()), comps.as_slice(), '\\');
                Some(string_from(out.as_slice()))
            }
        },
    }
}

/// The components of a path up to its language folder (the one right below the first
/// `localization`); none where it has no language folder.
pub open spec fn language_root_spec(p: Seq<char>) -> Option<Seq<Seq<char>>> {
    let c = components(p);
    if has_named(c, localization_name()) {
        let i = choose|i: int| first_named(c, localization_name(), i);
        if i + 1 < c.len() {
            Some(c.take(i + 2))
        } else {
            None
        }
    } else {
        None
    }
}

/// `file` placed under the language folder of `sample`: the sample's components up to its
/// language folder, then the file's.
pub open spec fn under_language_root_spec(sample: Seq<char>, file: Seq<char>) -> Option<Seq<char>> {
    match language_root_spec(sample) {
        Some(root) => Some(join_path(rooted(sample), root + components(file))),
        None => None,
    }
}

pub fn under_language_root(sample: &str, file: &str) -> (r: Option<String>)
    ensures
        opt_view(r) == under_language_root_spec(sample@, file@),
{
    let p = chars_of(sample);
    let mut comps = comps_of(p.as_slice());
    let name = chars_of("localization");
    proof {
        reveal_strlit("localization");
        assert(name@ =~= localization_name());
    }
    match find_named(comps.as_slice(), name.as_slice()) {
        None => None,
        Some(i) => {
            proof {
                let c = components(p@);
                let k = choose|k: int| first_named(c, localization_name(), k);
                lemma_first_named_unique(c, localization_name(), i as int, k);
            }
            assert(first_named(vv(comps@), name@, i as int));
            assert(vv(comps@).len() == comps@.len());
            assert(i < comps.len());
            if i + 1 >= comps.len() {
                None
            } else {
                let ghost before = vv(comps@);
                comps.truncate(i + 2);
                assert(vv(comps@) =~= before.take(i + 2));
                let f = chars_of(file);
                let fc = comps_of(f.as_slice());
                let mut k: usize = 0;
                let ghost base = vv(comps@);
                while k < fc.len()
                    invariant
                        k <= fc@.len(),
                        vv(comps@) == base + vv(fc@).take(k as int),
                    decreases fc.len() - k,
                {
                    let ghost prev = comps@;
                    comps.push(crate::text::copy_chars(fc[k].as_slice()));
                    assert(comps@ == prev.push(comps@.last()));
                    assert(vv(comps@) =~= vv(prev).push(vv(fc@)[k as int]));
                    assert(vv(comps@) =~= base + vv(fc@).take(k + 1));
                    k += 1;
                }
                assert(vv(fc@).take(k as int) =~= vv(fc@));
                let out = join_comps(is_rooted_exec(p.as_slice()), comps.as_slice(), '\\');
                Some(string_from(out.as_slice()))
            }
        },
    }
}

/// A path written with `/` between its components.
pub fn slash_path(path: &str) -> (r: String)
    ensures
        r@ == join_slash(components(path@)),
{
    let p = chars_of(path);
    let comps = comps_of(p.as_slice());
    let out = join_comps(false, comps.as_slice(), '/');
    string_from(out.as_slice())
}

pub open spec fn res_prefix() -> Seq<char> {
    seq!['r', 'e', 's', ':', '/', '/']
}

/// How a file is shown: `res://` and its place inside a `.pck.contents` folder, else its path.
pub open spec fn resource_display_spec(p: Seq<char>) -> Seq<char> {
    match pck_relative_spec(p) {
        Some(rel) => res_prefix() + join_slash(components(rel)),
        None => p,
    }
}

pub fn resource_display_path(path: &str) -> (r: String)
    ensures
        r@ == resource_display_spec(path@),
{
    match pck_resource_relative_path(path) {
        Some(rel) => {
            let slashed = slash_path(rel.as_str());
            let mut out = chars_of("res://");
            proof {
                reveal_strlit("res://");
                assert(out@ =~= res_prefix());
            }
            let tail = chars_of(slashed.as_str());
            push_all(&mut out, tail.as_slice());
            string_from(out.as_slice())
        },
        None => path.to_string(),
    }
}


pub open spec fn relative_after_spec(p: Seq<char>, name: Seq<char>) -> Option<Seq<char>> {
    let c = components(p);
    if has_named(c, name) {
        let i = choose|i: int| first_named(c, name, i);
        if i + 1 < c.len() {
            Some(join_path(false, c.skip(i + 1)))
        } else {
            None
        }
    } else {
        None
    }
}

pub open spec fn root_through_spec(p: Seq<char>, name: Seq<char>) -> Option<Seq<char>> {
    let c = components(p);
    if has_named(c, name) {
        let i = choose|i: int| first_named(c, name, i);
        Some(join_path(rooted(p), c.take(i + 1)))
    } else {
        None
    }
}

pub open spec fn after_named_spec(p: Seq<char>, name: Seq<char>) -> Option<Seq<char>> {
    let c = components(p);
    if has_named(c, name) {
        let i = choose|i: int| first_named(c, name, i);
        if i + 1 < c.len() {
            Some(c[i + 1])
        } else {
            None
        }
    } else {
        None
    }
}

/// The first component named `name`, found and pinned for the proofs of its callers.
pub fn named_index(p: &[char], comps: &[Vec<char>], name: &[char]) -> (r: Option<usize>)
    requires
        vv(comps@) == components(p@),
    ensures
        r matches Some(i) ==> i < comps@.len() && first_named(components(p@), name@, i as int)
            && has_named(components(p@), name@) && (choose|k: int|
            first_named(components(p@), name@, k)) == i,
        r is None ==> !has_named(components(p@), name@),
{
    assert(vv(comps@).len() == comps@.len());
    let found = find_named(comps, name);
    proof {
        if let Some(i) = found {
            let c = components(p@);
            assert(lower_seq(c[i as int]) == lower_seq(name@));
            assert(has_named(c, name@));
            let k = choose|k: int| first_named(c, name@, k);
            lemma_first_named_unique(c, name@, i as int, k);
        }
    }
    found
}

pub fn relative_after_chars(p: &[char], name: &[char]) -> (r: Option<Vec<char>>)
    ensures
        match r {
            Some(s) => relative_after_spec(p@, name@) == Some(s@),
            None => relative_after_spec(p@, name@) is None,
        },
{
    let comps = comps_of(p);
    match named_index(p, comps.as_slice(), name) {
        None => None,
        Some(i) => {
            if i + 1 >= comps.len() {
                None
            } else {
                let rest = sub_comps(comps.as_slice(), i + 1, comps.len());
                assert(vv(comps@).subrange(i + 1, comps@.len() as int) =~= vv(comps@).skip(i + 1));
                Some(join_comps(false, rest.as_slice(), '\\'))
            }
        },
    }
}

pub fn root_through_chars(p: &[char], name: &[char]) -> (r: Option<Vec<char>>)
    ensures
        match r {
            Some(s) => root_through_spec(p@, name@) == Some(s@),
            None => root_through_spec(p@, name@) is None,
        },
{
    let comps = comps_of(p);
    match named_index(p, comps.as_slice(), name) {
        None => None,
        Some(i) => {
            let head = sub_comps(comps.as_slice(), 0, i + 1);
            assert(vv(comps@).subrange(0, i + 1) =~= vv(comps@).take(i + 1));
            Some(join_comps(is_rooted_exec(p), head.as_slice(), '\\'))
        },
    }
}

/// The component right after the first one named `name`.
pub fn after_named_chars(p: &[char], name: &[char]) -> (r: Option<Vec<char>>)
    ensures
        match r {
            Some(s) => after_named_spec(p@, name@) == Some(s@),
            None => after_named_spec(p@, name@) is None,
        },
{
    let comps = comps_of(p);
    match named_index(p, comps.as_slice(), name) {
        None => None,
        Some(i) => {
            if i + 1 >= comps.len() {
                None
            } else {
                assert(vv(comps@)[i + 1] == comps@[i + 1]@);
                Some(copy_chars(comps[i + 1].as_slice()))
            }
        },
    }
}

pub open spec fn selected_name() -> Seq<char> {
    seq!['s', 'e', 'l', 'e', 'c', 't', 'e', 'd']
}

/// The mod key of a working file: the component after the first `selected` folder.
pub fn mod_key_from_selected_source(source_path: &str) -> (r: Option<String>)
    ensures
        match r {
            Some(s) => after_named_spec(source_path@, selected_name()) == Some(s@),
            None => after_named_spec(source_path@, selected_name()) is None,
        },
{
    let p = chars_of(source_path);
    let name = chars_of("selected");
    proof {
        reveal_strlit("selected");
        assert(name@ =~= selected_name());
    }
    match after_named_chars(p.as_slice(), name.as_slice()) {
        Some(v) => Some(string_from(v.as_slice())),
        None => None,
    }
}

/// A drive prefix such as `C:`.
pub open spec fn is_drive(c: Seq<char>) -> bool {
    c.len() == 2 && c[1] == ':' && (('a' <= c[0] && c[0] <= 'z') || ('A' <= c[0] && c[0] <= 'Z'))
}

/// A path that begins with a drive prefix, such as `C:` or `C:\x`.
pub open spec fn drive_first(p: Seq<char>) -> bool {
    !rooted(p) && components(p).len() > 0 && is_drive(components(p)[0])
}

/// A path that begins with a drive and the root after it, such as `C:\x`.
pub open spec fn drive_rooted(p: Seq<char>) -> bool {
    drive_first(p) && p.len() > 2
}

/// The path of the first `k` components of `p`, written back with `\`; the root after a
/// drive prefix is kept (`C:\`).
pub open spec fn prefix_path(p: Seq<char>, k: int) -> Seq<char> {
    let j = join_path(rooted(p), components(p).take(k));
    if drive_rooted(p) && k == 1 {
        j + seq!['\\']
    } else {
        j
    }
}

/// `Path::parent`: none for a path without components or for a drive alone (`C:`, `C:\`).
pub open spec fn parent_spec(p: Seq<char>) -> Option<Seq<char>> {
    let c = components(p);
    if c.len() == 0 || (c.len() == 1 && drive_first(p)) {
        None
    } else {
        Some(prefix_path(p, c.len() - 1))
    }
}

pub fn is_drive_exec(c: &[char]) -> (r: bool)
    ensures
        r == is_drive(c@),
{
    c.len() == 2 && c[1] == ':' && (('a' <= c[0] && c[0] <= 'z') || ('A' <= c[0] && c[0] <= 'Z'))
}

/// `prefix_path` computed from the path and its components.
pub fn prefix_path_exec(p: &[char], comps: &[Vec<char>], k: usize) -> (r: Vec<char>)
    requires
        vv(comps@) == components(p@),
        k <= comps@.len(),
    ensures
        r@ == prefix_path(p@, k as int),
{
    let rooted_p = is_rooted_exec(p);
    let head = sub_comps(comps, 0, k);
    assert(vv(comps@).subrange(0, k as int) =~= vv(comps@).take(k as int));
    let mut out = join_comps(rooted_p, head.as_slice(), '\\');
    assert(vv(comps@).len() == comps@.len());
    let dr = !rooted_p && comps.len() > 0 && is_drive_exec(comps[0].as_slice()) && p.len() > 2;
    assert(comps.len() > 0 ==> vv(comps@)[0] == comps@[0]@);
    if dr && k == 1 {
        out.push('\\');
    }
    out
}

/// `Path::parent`.
pub fn parent_chars(p: &[char]) -> (r: Option<Vec<char>>)
    ensures
        match r {
            Some(s) => parent_spec(p@) == Some(s@),
            None => parent_spec(p@) is None,
        },
{
    let comps = comps_of(p);
    assert(vv(comps@).len() == comps@.len());
    if comps.len() == 0 {
        return None;
    }
    assert(vv(comps@)[0] == comps@[0]@);
    if comps.len() == 1 && !is_rooted_exec(p) && is_drive_exec(comps[0].as_slice()) {
        return None;
    }
    Some(prefix_path_exec(p, comps.as_slice(), comps.len() - 1))
}

/// A path with one more component, as `Path::join` with a single name does.
pub open spec fn join_name_spec(p: Seq<char>, name: Seq<char>) -> Seq<char> {
    join_path(rooted(p), components(p).push(name))
}

pub fn join_name(p: &[char], name: &[char]) -> (r: Vec<char>)
    ensures
        r@ == join_name_spec(p@, name@),
{
    let mut comps = comps_of(p);
    let n = copy_chars(name);
    proof {
        lemma_vv_push(comps@, n);
    }
    comps.push(n);
    join_comps(is_rooted_exec(p), comps.as_slice(), '\\')
}

pub fn join_name_str(p: &str, name: &str) -> (r: String)
    ensures
        r@ == join_name_spec(p@, name@),
{
    let pc = chars_of(p);
    let nc = chars_of(name);
    let out = join_name(pc.as_slice(), nc.as_slice());
    string_from(out.as_slice())
}

/// What `Path::strip_prefix` gives: the components after those of `root`, when `root`'s
/// components lead `p`'s and both are rooted alike.
pub open spec fn strip_prefix_spec(p: Seq<char>, root: Seq<char>) -> Option<Seq<char>> {
    if rooted(p) == rooted(root) && is_prefix_comps(components(root), components(p)) {
        Some(join_path(false, components(p).skip(components(root).len() as int)))
    } else {
        None
    }
}

pub fn comps_prefix(a: &[Vec<char>], b: &[Vec<char>]) -> (r: bool)
    ensures
        r == is_prefix_comps(vv(a@), vv(b@)),
{
    if a.len() > b.len() {
        return false;
    }
    let mut i: usize = 0;
    while i < a.len()
        invariant
            a.len() <= b.len(),
            i <= a.len(),
            forall|j: int| 0 <= j < i ==> vv(a@)[j] == vv(b@)[j],
        decreases a.len() - i,
    {
        if !seq_eq(a[i].as_slice(), b[i].as_slice()) {
            assert(vv(b@).take(vv(a@).len() as int)[i as int] != vv(a@)[i as int]);
            return false;
        }
        i += 1;
    }
    assert(vv(b@).take(vv(a@).len() as int) =~= vv(a@));
    true
}

pub fn strip_prefix_chars(p: &[char], root: &[char]) -> (r: Option<Vec<char>>)
    ensures
        match r {
            Some(s) => strip_prefix_spec(p@, root@) == Some(s@),
            None => strip_prefix_spec(p@, root@) is None,
        },
{
    let pc = comps_of(p);
    let rc = comps_of(root);
    if is_rooted_exec(p) != is_rooted_exec(root) || !comps_prefix(rc.as_slice(), pc.as_slice()) {
        return None;
    }
    assert(vv(rc@).len() == rc@.len());
    assert(vv(pc@).len() == pc@.len());
    let rest = sub_comps(pc.as_slice(), rc.len(), pc.len());
    assert(vv(pc@).subrange(rc@.len() as int, pc@.len() as int) =~= vv(pc@).skip(rc@.len() as int));
    Some(join_comps(false, rest.as_slice(), '\\'))
}

pub open spec fn translated_name() -> Seq<char> {
    seq!['t', 'r', 'a', 'n', 's', 'l', 'a', 't', 'e', 'd']
}


/// Where a translated language output goes inside the PCK: inside the `.pck.contents`
/// folder, else after the `translated` folder, else relative to the working `source` folder.
pub open spec fn language_output_relative_spec(source: Seq<char>, out: Seq<char>) -> Option<Seq<char>> {
    match pck_relative_spec(out) {
        Some(r) => Some(r),
        None => match relative_after_spec(out, translated_name()) {
            Some(r) => Some(r),
            None => match selected_source_root_spec(source) {
                Some(root) => strip_prefix_spec(out, root),
                None => None,
            },
        },
    }
}

pub fn language_output_relative_chars(source: &[char], out: &[char]) -> (r: Option<Vec<char>>)
    ensures
        match r {
            Some(s) => language_output_relative_spec(source@, out@) == Some(s@),
            None => language_output_relative_spec(source@, out@) is None,
        },
{
    let out_str = string_from(out);
    if let Some(rel) = pck_relative_chars(out) {
        return Some(chars_of(rel.as_str()));
    }
    let name = chars_of("translated");
    proof {
        reveal_strlit("translated");
        assert(name@ =~= translated_name());
    }
    if let Some(rel) = relative_after_chars(out, name.as_slice()) {
        return Some(rel);
    }
    let sc = comps_of(source);
    match source_root_index(source, sc.as_slice()) {
        None => None,
        Some(j) => {
            assert(vv(sc@).len() == sc@.len());
            assert(last_named(vv(sc@), source_name(), j as int));
            assert(j < sc.len());
            let head = sub_comps(sc.as_slice(), 0, j + 1);
            assert(vv(sc@).subrange(0, j + 1) =~= vv(sc@).take(j + 1));
            let root = join_comps(is_rooted_exec(source), head.as_slice(), '\\');
            strip_prefix_chars(out, root.as_slice())
        },
    }
}

/// The place inside the PCK that a translated language output replaces.
pub fn language_output_relative_to_pck(source_path: &str, language_output_path: &str) -> (r: Result<
    String,
    String,
>)
    ensures
        match r {
            Ok(s) => language_output_relative_spec(source_path@, language_output_path@) == Some(s@),
            Err(_) => language_output_relative_spec(source_path@, language_output_path@) is None,
        },
{
    let s = chars_of(source_path);
    let o = chars_of(language_output_path);
    match language_output_relative_chars(s.as_slice(), o.as_slice()) {
        Some(v) => Ok(string_from(v.as_slice())),
        None => Err("PCK 내부 언어 경로를 계산하지 못했습니다.".to_string()),
    }
}

/// The PCK target fitted to the output: a folder output takes a folder target and a file
/// output a file target.
pub open spec fn adjust_target_spec(out: Seq<char>, out_is_dir: bool, target: Seq<char>) -> Seq<char> {
    let output_is_dir = out_is_dir || extension_spec(out) is None;
    let target_looks_file = extension_spec(target) is Some;
    if output_is_dir && target_looks_file {
        match parent_spec(target) {
            Some(p) => p,
            None => target,
        }
    } else if !output_is_dir && !target_looks_file && file_name_spec(out) is Some {
        join_name_spec(target, file_name_spec(out)->0)
    } else {
        target
    }
}

pub fn adjust_target_chars(out: &[char], out_is_dir: bool, target: &[char]) -> (r: Vec<char>)
    ensures
        r@ == adjust_target_spec(out@, out_is_dir, target@),
{
    let output_is_dir = out_is_dir || path_extension(out).is_none();
    let target_looks_file = path_extension(target).is_some();
    if output_is_dir && target_looks_file {
        match parent_chars(target) {
            Some(p) => p,
            None => copy_chars(target),
        }
    } else if !output_is_dir && !target_looks_file {
        match file_name_exec(out) {
            Some(f) => join_name(target, f.as_slice()),
            None => copy_chars(target),
        }
    } else {
        copy_chars(target)
    }
}

/// Fits a PCK target path to the language output: `output_is_dir` tells whether the output
/// path is an existing folder.
pub fn adjust_pck_target_for_language_output(
    language_output_path: &str,
    output_is_dir: bool,
    target_relative: String,
) -> (r: String)
    ensures
        r@ == adjust_target_spec(language_output_path@, output_is_dir, target_relative@),
{
    let o = chars_of(language_output_path);
    let t = chars_of(target_relative.as_str());
    let v = adjust_target_chars(o.as_slice(), output_is_dir, t.as_slice());
    string_from(v.as_slice())
}

/// The folder that a translation patch mod packs: the `translated` folder beside the working
/// `source` folder, else the output path up to its `translated` folder, else the output
/// folder itself.
pub open spec fn payload_root_spec(source: Seq<char>, out: Seq<char>, out_is_dir: bool) -> Option<
    Seq<char>,
> {
    let c = components(source);
    if has_named(c, source_name()) {
        let j = choose|j: int| last_named(c, source_name(), j);
        Some(join_path(rooted(source), c.take(j).push(translated_name())))
    } else {
        match root_through_spec(out, translated_name()) {
            Some(r) => Some(r),
            None => if out_is_dir {
                Some(out)
            } else {
                parent_spec(out)
            },
        }
    }
}

pub fn translation_patch_payload_root(
    source_path: &str,
    language_output_path: &str,
    output_is_dir: bool,
) -> (r: Option<String>)
    ensures
        match r {
            Some(s) => payload_root_spec(source_path@, language_output_path@, output_is_dir) == Some(s@),
            None => payload_root_spec(source_path@, language_output_path@, output_is_dir) is None,
        },
{
    let s = chars_of(source_path);
    let o = chars_of(language_output_path);
    let sc = comps_of(s.as_slice());
    let name = chars_of("translated");
    proof {
        reveal_strlit("translated");
        assert(name@ =~= translated_name());
    }
    match source_root_index(s.as_slice(), sc.as_slice()) {
        Some(j) => {
            assert(vv(sc@).len() == sc@.len());
            let mut head = sub_comps(sc.as_slice(), 0, j);
            assert(vv(sc@).subrange(0, j as int) =~= vv(sc@).take(j as int));
            proof {
                let c = components(s@);
                let k = choose|k: int| last_named(c, source_name(), k);
                lemma_last_named_unique(c, source_name(), j as int, k);
                lemma_vv_push(head@, name);
            }
            head.push(name);
            let out = join_comps(is_rooted_exec(s.as_slice()), head.as_slice(), '\\');
            Some(string_from(out.as_slice()))
        },
        None => {
            match root_through_chars(o.as_slice(), name.as_slice()) {
                Some(r) => Some(string_from(r.as_slice())),
                None => {
                    if output_is_dir {
                        Some(language_output_path.to_string())
                    } else {
                        match parent_chars(o.as_slice()) {
                            Some(p) => Some(string_from(p.as_slice())),
                            None => None,
                        }
                    }
                },
            }
        },
    }
}

} // verus!
