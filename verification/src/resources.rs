//! Godot resource paths (`res://...`): how a chosen path selects files, and the paths found
//! in the listing that the PCK tool prints.
use vstd::prelude::*;
use crate::text::{
    chars_of, string_from, starts_with, find, match_at, contains_seq, push_all, is_ws, is_ws_exec,
    trim, trim_seq, lines, lines_seq, is_ascii_alnum, is_ascii_alnum_exec,
};
use crate::model::keys_set;
use crate::order::{sort_dedup, strictly_sorted, strings_view};

verus! {

broadcast use vstd::string::group_string_axioms;

/// `path` is `parent`, or lies below it: `parent`, then `/` and more.
pub open spec fn same_or_child_spec(path: Seq<char>, parent: Seq<char>) -> bool {
    path == parent || (path.len() > parent.len() && path.take(parent.len() as int) == parent
        && path[parent.len() as int] == '/')
}

pub fn path_is_same_or_child(path: &[char], parent: &[char]) -> (r: bool)
    ensures
        r == same_or_child_spec(path@, parent@),
{
    if path.len() == parent.len() {
        let b = starts_with(path, parent);
        proof {
            assert(path@.take(parent@.len() as int) =~= path@);
        }
        return b;
    }
    if path.len() < parent.len() {
        return false;
    }
    starts_with(path, parent) && path[parent.len()] == '/'
}

pub open spec fn res_marker() -> Seq<char> {
    "res://"@
}

/// The text after a leading `res://`, or the whole text where it has none.
pub open spec fn strip_res_spec(s: Seq<char>) -> Seq<char> {
    if s.len() >= 6 && s.take(6) == res_marker() {
        s.skip(6)
    } else {
        s
    }
}

pub(crate) fn strip_res(s: &[char]) -> (r: Vec<char>)
    ensures
        r@ == strip_res_spec(s@),
{
    let m = chars_of("res://");
    proof {
        reveal_strlit("res://");
    }
    let mut out: Vec<char> = Vec::new();
    let start: usize = if starts_with(s, m.as_slice()) { 6 } else { 0 };
    let mut i: usize = start;
    while i < s.len()
        invariant
            start <= i <= s@.len(),
            out@ == s@.subrange(start as int, i as int),
        decreases s.len() - i,
    {
        out.push(s[i]);
        i += 1;
        assert(out@ =~= s@.subrange(start as int, i as int));
    }
    assert(out@ =~= s@.skip(start as int));
    out
}

/// Where `n` first occurs in `h`, as `str::find` finds it.
#[verifier::opaque]
pub open spec fn first_match(h: Seq<char>, n: Seq<char>) -> Option<int> {
    if contains_seq(h, n) {
        Some(choose|i: int| match_at(h, n, i) && forall|j: int| 0 <= j < i ==> !match_at(h, n, j))
    } else {
        None
    }
}

fn find_first(h: &[char], n: &[char]) -> (r: Option<usize>)
    ensures
        match r {
            Some(i) => first_match(h@, n@) == Some(i as int) && match_at(h@, n@, i as int),
            None => first_match(h@, n@) is None,
        },
{
    let r = find(h, n);
    proof {
        reveal(first_match);
    }
    match r {
        Some(i) => {
            proof {
                assert(contains_seq(h@, n@));
                let c = choose|k: int| match_at(h@, n@, k) && forall|j: int| 0 <= j < k ==> !match_at(h@, n@, j);
                assert(match_at(h@, n@, c) && forall|j: int| 0 <= j < c ==> !match_at(h@, n@, j));
                if c < i {
                } else if c > i {
                    assert(!match_at(h@, n@, i as int));
                }
            }
            Some(i)
        },
        None => None,
    }
}

/// Whether a resource path is chosen by a selection: `res://` chooses all; else the path is
/// the selection or below it, with or without `res://` before both; else the selection's
/// path appears in it as whole folders, at its first place after a `/`.
pub open spec fn matches_selection_spec(display: Seq<char>, selection: Seq<char>) -> bool {
    if selection == res_marker() {
        true
    } else if same_or_child_spec(display, selection) {
        true
    } else {
        let dr = strip_res_spec(display);
        let sr = strip_res_spec(selection);
        if sr.len() == 0 {
            false
        } else if same_or_child_spec(dr, sr) {
            true
        } else {
            let scoped = seq!['/'] + sr;
            match first_match(dr, scoped) {
                Some(i) => {
                    let rest = dr.skip(i + scoped.len());
                    rest.len() == 0 || rest[0] == '/'
                },
                None => false,
            }
        }
    }
}

pub fn resource_path_matches_selection(display: &str, selection: &str) -> (r: bool)
    ensures
        r == matches_selection_spec(display@, selection@),
{
    let d = chars_of(display);
    let s = chars_of(selection);
    let m = chars_of("res://");
    proof {
        reveal_strlit("res://");
    }
    if s.len() == m.len() && starts_with(s.as_slice(), m.as_slice()) {
        proof {
            assert(s@.take(6) =~= s@);
        }
        return true;
    }
    proof {
        if selection@ == res_marker() {
            assert(s@.take(6) =~= s@);
        }
    }
    if path_is_same_or_child(d.as_slice(), s.as_slice()) {
        return true;
    }
    let dr = strip_res(d.as_slice());
    let sr = strip_res(s.as_slice());
    if sr.len() == 0 {
        return false;
    }
    if path_is_same_or_child(dr.as_slice(), sr.as_slice()) {
        return true;
    }
    let mut scoped: Vec<char> = Vec::new();
    scoped.push('/');
    push_all(&mut scoped, sr.as_slice());
    assert(scoped@ =~= seq!['/'] + sr@);
    match find_first(dr.as_slice(), scoped.as_slice()) {
        Some(i) => {
            let dl = dr.len();
            let sl = scoped.len();
            assert(i + sl <= dl);
            let at = i + sl;
            at == dr.len() || dr[at] == '/'
        },
        None => false,
    }
}

/// A character that ends a resource path in a line of text.
pub open spec fn path_stop(c: char) -> bool {
    is_ws(c) || c == '"' || c == '\'' || c == ',' || c == ';' || c == ']' || c == ')' || c == '>'
}

/// How many characters of `s`, from its start, belong to a path.
pub open spec fn path_run(s: Seq<char>) -> nat
    decreases s.len(),
{
    if s.len() > 0 && !path_stop(s[0]) {
        1 + path_run(s.drop_first())
    } else {
        0
    }
}

proof fn lemma_path_run(s: Seq<char>, k: int)
    requires
        0 <= k <= s.len(),
        forall|j: int| 0 <= j < k ==> !path_stop(#[trigger] s[j]),
        k == s.len() || path_stop(s[k]),
    ensures
        path_run(s) == k,
    decreases k,
{
    if k > 0 {
        assert forall|j: int| 0 <= j < k - 1 implies !path_stop(#[trigger] s.drop_first()[j]) by {
            assert(s.drop_first()[j] == s[j + 1]);
        }
        if k < s.len() {
            assert(s.drop_first()[k - 1] == s[k]);
        }
        lemma_path_run(s.drop_first(), k - 1);
    }
}

/// The path that starts at the first `marker` in a line, up to a space or a closing mark;
/// none where the line has no marker or nothing follows it.
pub open spec fn after_marker_spec(line: Seq<char>, marker: Seq<char>) -> Option<Seq<char>> {
    match first_match(line, marker) {
        Some(i) => {
            let rest = line.skip(i + marker.len());
            let k = path_run(rest);
            if k > 0 {
                Some(marker + rest.take(k as int))
            } else {
                None
            }
        },
        None => None,
    }
}

fn path_stop_exec(c: char) -> (r: bool)
    ensures
        r == path_stop(c),
{
    is_ws_exec(c) || c == '"' || c == '\'' || c == ',' || c == ';' || c == ']' || c == ')' || c == '>'
}

pub fn resource_path_after_marker(line: &str, marker: &str) -> (r: Option<String>)
    ensures
        match r {
            Some(p) => after_marker_spec(line@, marker@) == Some(p@),
            None => after_marker_spec(line@, marker@) is None,
        },
{
    let l = chars_of(line);
    let m = chars_of(marker);
    match after_marker_chars(l.as_slice(), m.as_slice()) {
        Some(p) => Some(string_from(p.as_slice())),
        None => None,
    }
}

fn after_marker_chars(l: &[char], m: &[char]) -> (r: Option<Vec<char>>)
    ensures
        match r {
            Some(p) => after_marker_spec(l@, m@) == Some(p@),
            None => after_marker_spec(l@, m@) is None,
        },
{
    match find_first(l, m) {
        None => None,
        Some(i) => {
            let ll = l.len();
            let ml = m.len();
            assert(i + ml <= ll);
            let start = i + ml;
            let ghost rest = l@.skip(start as int);
            let mut out: Vec<char> = Vec::new();
            push_all(&mut out, m);
            let mut j: usize = start;
            while j < l.len() && !path_stop_exec(l[j])
                invariant
                    start <= j <= l@.len(),
                    start == i + m@.len(),
                    rest == l@.skip(start as int),
                    out@ == m@ + l@.subrange(start as int, j as int),
                    forall|k: int| start <= k < j ==> !path_stop(#[trigger] l@[k]),
                decreases l.len() - j,
            {
                out.push(l[j]);
                j += 1;
                assert(out@ =~= m@ + l@.subrange(start as int, j as int));
            }
            proof {
                let k = j - start;
                assert forall|x: int| 0 <= x < k implies !path_stop(#[trigger] rest[x]) by {
                    assert(rest[x] == l@[start + x]);
                }
                if j < l@.len() {
                    assert(rest[k] == l@[j as int]);
                }
                lemma_path_run(rest, k);
                assert(rest.take(k) =~= l@.subrange(start as int, j as int));
            }
            if j > start {
                Some(out)
            } else {
                None
            }
        },
    }
}

/// The text with its NUL characters taken out.
pub open spec fn drop_nul(s: Seq<char>) -> Seq<char>
    decreases s.len(),
{
    if s.len() == 0 {
        Seq::empty()
    } else if s.last() == '\0' {
        drop_nul(s.drop_last())
    } else {
        drop_nul(s.drop_last()).push(s.last())
    }
}

/// How many characters at the start of `s` have the property.
pub open spec fn lead_count(s: Seq<char>, p: spec_fn(char) -> bool) -> nat
    decreases s.len(),
{
    if s.len() > 0 && p(s[0]) {
        1 + lead_count(s.drop_first(), p)
    } else {
        0
    }
}

/// How many characters at the end of `s` have the property.
pub open spec fn trail_count(s: Seq<char>, p: spec_fn(char) -> bool) -> nat
    decreases s.len(),
{
    if s.len() > 0 && p(s.last()) {
        1 + trail_count(s.drop_last(), p)
    } else {
        0
    }
}

proof fn lemma_lead_count(s: Seq<char>, p: spec_fn(char) -> bool, k: int)
    requires
        0 <= k <= s.len(),
        forall|j: int| 0 <= j < k ==> p(#[trigger] s[j]),
        k == s.len() || !p(s[k]),
    ensures
        lead_count(s, p) == k,
    decreases k,
{
    if k > 0 {
        assert forall|j: int| 0 <= j < k - 1 implies p(#[trigger] s.drop_first()[j]) by {
            assert(s.drop_first()[j] == s[j + 1]);
        }
        if k < s.len() {
            assert(s.drop_first()[k - 1] == s[k]);
        }
        lemma_lead_count(s.drop_first(), p, k - 1);
    }
}

pub(crate) proof fn lemma_trail_count(s: Seq<char>, p: spec_fn(char) -> bool, k: int)
    requires
        0 <= k <= s.len(),
        forall|j: int| s.len() - k <= j < s.len() ==> p(#[trigger] s[j]),
        k == s.len() || !p(s[s.len() - k - 1]),
    ensures
        trail_count(s, p) == k,
    decreases k,
{
    if k > 0 {
        let d = s.drop_last();
        assert(p(s[s.len() - 1]));
        assert forall|j: int| d.len() - (k - 1) <= j < d.len() implies p(#[trigger] d[j]) by {
            assert(d[j] == s[j]);
        }
        if k < s.len() {
            assert(d[d.len() - (k - 1) - 1] == s[s.len() - k - 1]);
        }
        lemma_trail_count(d, p, k - 1);
    }
}

/// The marks that `parse_pck_resource_paths` trims from a word.
pub open spec fn word_mark(c: char) -> bool {
    c == '"' || c == '\'' || c == ',' || c == ';' || c == '[' || c == ']' || c == '(' || c == ')'
        || c == '<' || c == '>'
}

pub open spec fn trim_marks(s: Seq<char>) -> Seq<char> {
    let t = s.skip(lead_count(s, |c: char| word_mark(c)) as int);
    t.take(t.len() - trail_count(t, |c: char| word_mark(c)))
}

/// A word ends in `.` and letters or digits only (an empty extension counts).
pub open spec fn ext_ok(t: Seq<char>) -> bool {
    exists|d: int| 0 <= d < t.len() && t[d] == '.' && forall|j: int| d < j < t.len() ==> is_ascii_alnum(#[trigger] t[j])
}

/// The resource path a word of the listing names: the word without its marks, where it holds
/// a `/` and ends in an extension, as `res://` and the word without leading `/`.
pub open spec fn word_path(w: Seq<char>) -> Option<Seq<char>> {
    let t = trim_marks(w);
    if t.contains('/') && ext_ok(t) {
        Some(res_marker() + t.skip(lead_count(t, |c: char| c == '/') as int))
    } else {
        None
    }
}

/// What `str::split(char::is_whitespace)` yields.
pub open spec fn ws_split(s: Seq<char>) -> Seq<Seq<char>>
    decreases s.len(),
{
    if s.len() == 0 {
        seq![Seq::<char>::empty()]
    } else {
        let prev = ws_split(s.drop_last());
        if is_ws(s.last()) {
            prev.push(Seq::<char>::empty())
        } else {
            prev.update(prev.len() - 1, prev.last().push(s.last()))
        }
    }
}

proof fn lemma_ws_split_nonempty(s: Seq<char>)
    ensures
        ws_split(s).len() >= 1,
    decreases s.len(),
{
    if s.len() > 0 {
        lemma_ws_split_nonempty(s.drop_last());
    }
}

/// The paths of the non-empty words, in order.
pub open spec fn word_paths(parts: Seq<Seq<char>>) -> Seq<Seq<char>>
    decreases parts.len(),
{
    if parts.len() == 0 {
        Seq::empty()
    } else {
        let prev = word_paths(parts.drop_last());
        if parts.last().len() > 0 {
            match word_path(parts.last()) {
                Some(p) => prev.push(p),
                None => prev,
            }
        } else {
            prev
        }
    }
}

/// The paths one line of the listing gives: the `res://` path it holds, or else those of its
/// words. A blank line gives none.
pub open spec fn line_paths(line: Seq<char>) -> Seq<Seq<char>> {
    let t = trim_seq(line);
    if t.len() == 0 {
        Seq::empty()
    } else {
        match after_marker_spec(t, res_marker()) {
            Some(p) => seq![p],
            None => word_paths(ws_split(t)),
        }
    }
}

pub open spec fn all_line_paths(ls: Seq<Seq<char>>) -> Seq<Seq<char>>
    decreases ls.len(),
{
    if ls.len() == 0 {
        Seq::empty()
    } else {
        all_line_paths(ls.drop_last()) + line_paths(ls.last())
    }
}

/// Every path the listing names, line by line.
pub open spec fn listed_paths(output: Seq<char>) -> Seq<Seq<char>> {
    all_line_paths(lines_seq(drop_nul(output)))
}

fn drop_nul_exec(s: &[char]) -> (r: Vec<char>)
    ensures
        r@ == drop_nul(s@),
{
    let mut out: Vec<char> = Vec::new();
    let mut i: usize = 0;
    while i < s.len()
        invariant
            i <= s@.len(),
            out@ == drop_nul(s@.take(i as int)),
        decreases s.len() - i,
    {
        proof {
            assert(s@.take(i + 1).drop_last() =~= s@.take(i as int));
        }
        if s[i] != '\0' {
            out.push(s[i]);
        }
        i += 1;
    }
    assert(s@.take(s@.len() as int) =~= s@);
    out
}

fn word_mark_exec(c: char) -> (r: bool)
    ensures
        r == word_mark(c),
{
    c == '"' || c == '\'' || c == ',' || c == ';' || c == '[' || c == ']' || c == '(' || c == ')' || c == '<'
        || c == '>'
}

fn trim_marks_exec(s: &[char]) -> (r: Vec<char>)
    ensures
        r@ == trim_marks(s@),
{
    let ghost p = |c: char| word_mark(c);
    let mut a: usize = 0;
    while a < s.len() && word_mark_exec(s[a])
        invariant
            a <= s@.len(),
            forall|j: int| 0 <= j < a ==> word_mark(#[trigger] s@[j]),
        decreases s.len() - a,
    {
        a += 1;
    }
    proof {
        lemma_lead_count(s@, p, a as int);
    }
    let ghost t = s@.skip(a as int);
    let mut b: usize = s.len();
    while b > a && word_mark_exec(s[b - 1])
        invariant
            a <= b <= s@.len(),
            forall|j: int| b <= j < s@.len() ==> word_mark(#[trigger] s@[j]),
        decreases b,
    {
        b -= 1;
    }
    proof {
        let k = s@.len() - b;
        assert forall|j: int| t.len() - k <= j < t.len() implies p(#[trigger] t[j]) by {
            assert(t[j] == s@[a + j]);
        }
        if k < t.len() {
            assert(t[t.len() - k - 1] == s@[b - 1]);
        }
        lemma_trail_count(t, p, k);
    }
    let mut out: Vec<char> = Vec::new();
    let mut i: usize = a;
    while i < b
        invariant
            a <= i <= b <= s@.len(),
            out@ == s@.subrange(a as int, i as int),
        decreases b - i,
    {
        out.push(s[i]);
        i += 1;
        assert(out@ =~= s@.subrange(a as int, i as int));
    }
    assert(out@ =~= t.take(t.len() - (s@.len() - b)));
    out
}

fn ext_ok_exec(t: &[char]) -> (r: bool)
    ensures
        r == ext_ok(t@),
{
    let mut j: usize = t.len();
    while j > 0 && is_ascii_alnum_exec(t[j - 1])
        invariant
            j <= t@.len(),
            forall|k: int| j <= k < t@.len() ==> is_ascii_alnum(#[trigger] t@[k]),
        decreases j,
    {
        j -= 1;
    }
    let ok = j > 0 && t[j - 1] == '.';
    proof {
        if ok {
            let d = j - 1;
            assert(forall|k: int| d < k < t@.len() ==> is_ascii_alnum(#[trigger] t@[k]));
        } else if ext_ok(t@) {
            let d = choose|d: int| 0 <= d < t@.len() && t@[d] == '.' && forall|k: int| d < k < t@.len() ==> is_ascii_alnum(#[trigger] t@[k]);
            assert(!is_ascii_alnum(t@[d]));
            if j > 0 {
                assert(!is_ascii_alnum(t@[j - 1]));
                if d < j - 1 {
                    assert(is_ascii_alnum(t@[j - 1]));
                }
            }
        }
    }
    ok
}

fn has_slash(t: &[char]) -> (r: bool)
    ensures
        r == t@.contains('/'),
{
    let mut i: usize = 0;
    while i < t.len()
        invariant
            i <= t@.len(),
            forall|k: int| 0 <= k < i ==> t@[k] != '/',
        decreases t.len() - i,
    {
        if t[i] == '/' {
            assert(t@[i as int] == '/');
            return true;
        }
        i += 1;
    }
    false
}

fn word_path_exec(w: &[char]) -> (r: Option<Vec<char>>)
    ensures
        match r {
            Some(p) => word_path(w@) == Some(p@),
            None => word_path(w@) is None,
        },
{
    let t = trim_marks_exec(w);
    if !(has_slash(t.as_slice()) && ext_ok_exec(t.as_slice())) {
        return None;
    }
    let mut a: usize = 0;
    while a < t.len() && t[a] == '/'
        invariant
            a <= t@.len(),
            forall|j: int| 0 <= j < a ==> #[trigger] t@[j] == '/',
        decreases t.len() - a,
    {
        a += 1;
    }
    proof {
        let p = |c: char| c == '/';
        assert forall|j: int| 0 <= j < a implies p(#[trigger] t@[j]) by {}
        lemma_lead_count(t@, p, a as int);
    }
    let m = chars_of("res://");
    let mut out: Vec<char> = Vec::new();
    push_all(&mut out, m.as_slice());
    let mut i: usize = a;
    while i < t.len()
        invariant
            a <= i <= t@.len(),
            out@ == m@ + t@.subrange(a as int, i as int),
        decreases t.len() - i,
    {
        out.push(t[i]);
        i += 1;
        assert(out@ =~= m@ + t@.subrange(a as int, i as int));
    }
    assert(out@ =~= res_marker() + t@.skip(a as int));
    Some(out)
}

fn push_word_path(out: &mut Vec<String>, w: &[char])
    ensures
        strings_view(final(out)@) == strings_view(old(out)@) + (if w@.len() > 0 {
            match word_path(w@) {
                Some(p) => seq![p],
                None => Seq::empty(),
            }
        } else {
            Seq::empty()
        }),
{
    if w.len() > 0 {
        match word_path_exec(w) {
            Some(p) => {
                out.push(string_from(p.as_slice()));
                assert(strings_view(out@) =~= strings_view(old(out)@) + seq![p@]);
            },
            None => {
                assert(strings_view(out@) =~= strings_view(old(out)@) + Seq::empty());
            },
        }
    } else {
        assert(strings_view(out@) =~= strings_view(old(out)@) + Seq::empty());
    }
}

fn push_line_paths(out: &mut Vec<String>, line: &[char])
    ensures
        strings_view(final(out)@) == strings_view(old(out)@) + line_paths(line@),
{
    let t = trim(line);
    if t.len() == 0 {
        assert(strings_view(out@) =~= strings_view(old(out)@) + line_paths(line@));
        return;
    }
    let m = chars_of("res://");
    match after_marker_chars(t.as_slice(), m.as_slice()) {
        Some(p) => {
            out.push(string_from(p.as_slice()));
            assert(strings_view(out@) =~= strings_view(old(out)@) + line_paths(line@));
            return;
        },
        None => {},
    }
    let ghost start = strings_view(out@);
    let mut cur: Vec<char> = Vec::new();
    let mut i: usize = 0;
    while i < t.len()
        invariant
            i <= t@.len(),
            ws_split(t@.take(i as int)).len() >= 1,
            strings_view(out@) == start + word_paths(ws_split(t@.take(i as int)).drop_last()),
            cur@ == ws_split(t@.take(i as int)).last(),
        decreases t.len() - i,
    {
        let c = t[i];
        let ghost sp = ws_split(t@.take(i as int));
        proof {
            assert(t@.take(i + 1).drop_last() =~= t@.take(i as int));
            assert(t@.take(i + 1).last() == c);
        }
        if is_ws_exec(c) {
            push_word_path(out, cur.as_slice());
            proof {
                let sp2 = ws_split(t@.take(i + 1));
                assert(sp2 == sp.push(Seq::<char>::empty()));
                assert(sp2.drop_last() =~= sp);
                assert(sp.drop_last() =~= sp.take(sp.len() - 1));
                assert(strings_view(out@) =~= start + word_paths(sp2.drop_last()));
            }
            cur = Vec::new();
            proof {
                assert(cur@ =~= ws_split(t@.take(i + 1)).last());
            }
        } else {
            cur.push(c);
            proof {
                let sp2 = ws_split(t@.take(i + 1));
                assert(sp2 == sp.update(sp.len() - 1, sp.last().push(c)));
                assert(sp2.drop_last() =~= sp.drop_last());
            }
        }
        i += 1;
    }
    push_word_path(out, cur.as_slice());
    proof {
        assert(t@.take(t@.len() as int) =~= t@);
        let sp = ws_split(t@);
        assert(strings_view(out@) =~= start + word_paths(sp));
        assert(strings_view(out@) =~= strings_view(old(out)@) + line_paths(line@));
    }
}

/// The resource paths that a PCK listing names, sorted and each once, as the tool's output
/// is read: NUL characters dropped, then line by line.
pub fn parse_pck_resource_paths(output: &str) -> (r: Vec<String>)
    ensures
        strictly_sorted(strings_view(r@)),
        keys_set(r@) == Set::new(|p: Seq<char>| listed_paths(output@).contains(p)),
{
    let o = chars_of(output);
    let n = drop_nul_exec(o.as_slice());
    let ls = lines(n.as_slice());
    let ghost lsq = lines_seq(n@);
    let mut found: Vec<String> = Vec::new();
    let mut i: usize = 0;
    while i < ls.len()
        invariant
            i <= ls@.len(),
            ls@.len() == lsq.len(),
            forall|k: int| 0 <= k < ls@.len() ==> #[trigger] ls@[k]@ == lsq[k],
            strings_view(found@) == all_line_paths(lsq.take(i as int)),
        decreases ls.len() - i,
    {
        push_line_paths(&mut found, ls[i].as_slice());
        proof {
            assert(lsq.take(i + 1).drop_last() =~= lsq.take(i as int));
            assert(lsq.take(i + 1).last() == lsq[i as int]);
        }
        i += 1;
    }
    proof {
        assert(lsq.take(ls@.len() as int) =~= lsq);
        let all = listed_paths(output@);
        assert(strings_view(found@) == all);
        assert(keys_set(found@) =~= Set::new(|p: Seq<char>| all.contains(p))) by {
            assert forall|p: Seq<char>| keys_set(found@).contains(p) implies all.contains(p) by {
                let k = choose|k: int| 0 <= k < found@.len() && (#[trigger] found@[k])@ == p;
                assert(strings_view(found@)[k] == p);
            }
            assert forall|p: Seq<char>| all.contains(p) implies keys_set(found@).contains(p) by {
                let k = choose|k: int| 0 <= k < all.len() && all[k] == p;
                assert(strings_view(found@)[k] == found@[k]@);
            }
        }
    }
    sort_dedup(found)
}

/// A file the language preview keeps beside the translation files: a `.json` file, not
/// inside a `*.pck.contents` folder, at most three levels below the preview root.
pub open spec fn preview_metadata_spec(path: Seq<char>, root: Seq<char>) -> bool {
    let pc = crate::paths::components(path);
    let rc = crate::paths::components(root);
    &&& !exists|i: int| 0 <= i < pc.len() && crate::paths::is_pck_contents_name(#[trigger] pc[i])
    &&& crate::paths::ext_is(path, "json"@)
    &&& crate::paths::strip_prefix_spec(path, root) is Some
    &&& pc.len() - rc.len() <= 3
}

pub fn is_preview_metadata_file(path: &str, root: &str) -> (r: bool)
    ensures
        r == preview_metadata_spec(path@, root@),
{
    if crate::paths::path_inside_pck_contents(path) {
        return false;
    }
    let p = chars_of(path);
    let j = chars_of("json");
    if !crate::paths::ext_is_exec(p.as_slice(), j.as_slice()) {
        return false;
    }
    let rt = chars_of(root);
    match crate::paths::strip_prefix_chars(p.as_slice(), rt.as_slice()) {
        None => false,
        Some(_) => {
            let pc = crate::paths::comps_of(p.as_slice());
            let rc = crate::paths::comps_of(rt.as_slice());
            proof {
                assert(crate::paths::vv(pc@).len() == pc@.len());
                assert(crate::paths::vv(rc@).len() == rc@.len());
            }
            pc.len() - rc.len() <= 3
        },
    }
}

} // verus!
