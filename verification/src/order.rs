//! The order in which texts are sorted: character by character, a shorter text before a
//! longer one that it begins, as `String`'s order gives it.
use vstd::prelude::*;
use crate::text::chars_of;
use crate::model::keys_set;

verus! {

pub open spec fn lex_lt(a: Seq<char>, b: Seq<char>) -> bool
    decreases a.len(),
{
    if a.len() == 0 {
        b.len() > 0
    } else if b.len() == 0 {
        false
    } else if a[0] != b[0] {
        (a[0] as int) < (b[0] as int)
    } else {
        lex_lt(a.skip(1), b.skip(1))
    }
}

pub proof fn lemma_lex_irreflexive(a: Seq<char>)
    ensures
        !lex_lt(a, a),
    decreases a.len(),
{
    if a.len() > 0 {
        lemma_lex_irreflexive(a.skip(1));
    }
}

pub proof fn lemma_lex_asymmetric(a: Seq<char>, b: Seq<char>)
    ensures
        !(lex_lt(a, b) && lex_lt(b, a)),
    decreases a.len(),
{
    if a.len() > 0 && b.len() > 0 && a[0] == b[0] {
        lemma_lex_asymmetric(a.skip(1), b.skip(1));
    }
}

pub proof fn lemma_lex_total(a: Seq<char>, b: Seq<char>)
    ensures
        a == b || lex_lt(a, b) || lex_lt(b, a),
    decreases a.len(),
{
    if a.len() > 0 && b.len() > 0 && a[0] == b[0] {
        lemma_lex_total(a.skip(1), b.skip(1));
        if a.skip(1) == b.skip(1) {
            assert(a =~= seq![a[0]] + a.skip(1));
            assert(b =~= seq![b[0]] + b.skip(1));
        }
    } else if a.len() > 0 && b.len() > 0 {
        assert((a[0] as int) != (b[0] as int));
    } else if a.len() == 0 && b.len() == 0 {
        assert(a =~= b);
    }
}

pub proof fn lemma_lex_transitive(a: Seq<char>, b: Seq<char>, c: Seq<char>)
    requires
        lex_lt(a, b),
        lex_lt(b, c),
    ensures
        lex_lt(a, c),
    decreases a.len(),
{
    if a.len() > 0 && b.len() > 0 && c.len() > 0 && a[0] == b[0] && b[0] == c[0] {
        lemma_lex_transitive(a.skip(1), b.skip(1), c.skip(1));
    }
}

/// `a < b` for texts.
pub fn lex_lt_exec(a: &[char], b: &[char]) -> (r: bool)
    ensures
        r == lex_lt(a@, b@),
{
    let mut i: usize = 0;
    assert(a@.skip(0) =~= a@);
    assert(b@.skip(0) =~= b@);
    while i < a.len() && i < b.len() && a[i] == b[i]
        invariant
            i <= a.len(),
            i <= b.len(),
            lex_lt(a@, b@) == lex_lt(a@.skip(i as int), b@.skip(i as int)),
        decreases a.len() - i,
    {
        proof {
            let x = a@.skip(i as int);
            let y = b@.skip(i as int);
            assert(x.skip(1) =~= a@.skip(i + 1));
            assert(y.skip(1) =~= b@.skip(i + 1));
        }
        i += 1;
    }
    if i == a.len() {
        i < b.len()
    } else if i == b.len() {
        false
    } else {
        proof {
            assert(a@.skip(i as int)[0] == a@[i as int]);
            assert(b@.skip(i as int)[0] == b@[i as int]);
        }
        a[i] < b[i]
    }
}

/// Each text comes before the next.
pub open spec fn strictly_sorted(v: Seq<Seq<char>>) -> bool {
    forall|i: int, j: int| 0 <= i < j < v.len() ==> lex_lt(v[i], v[j])
}

pub open spec fn strings_view(v: Seq<String>) -> Seq<Seq<char>> {
    Seq::new(v.len(), |i: int| v[i]@)
}

/// The texts sorted and each kept once, as `sort` then `dedup` leave them.
pub fn sort_dedup(v: Vec<String>) -> (r: Vec<String>)
    ensures
        strictly_sorted(strings_view(r@)),
        keys_set(r@) == keys_set(v@),
{
    let mut out: Vec<String> = Vec::new();
    let mut i: usize = 0;
    assert(keys_set(out@) =~= keys_set(v@.take(0)));
    while i < v.len()
        invariant
            i <= v@.len(),
            strictly_sorted(strings_view(out@)),
            keys_set(out@) == keys_set(v@.take(i as int)),
        decreases v.len() - i,
    {
        let x = chars_of(v[i].as_str());
        let mut k: usize = 0;
        while k < out.len() && lex_lt_exec(chars_of(out[k].as_str()).as_slice(), x.as_slice())
            invariant
                k <= out@.len(),
                x@ == v@[i as int]@,
                forall|j: int| 0 <= j < k ==> lex_lt(#[trigger] out@[j]@, x@),
            decreases out.len() - k,
        {
            k += 1;
        }
        let ghost before = out@;
        let dup = k < out.len() && crate::text::seq_eq(chars_of(out[k].as_str()).as_slice(), x.as_slice());
        if !dup {
            out.insert(k, v[i].clone());
            proof {
                assert forall|a: int, b: int| 0 <= a < b < out@.len() implies lex_lt(
                    strings_view(out@)[a],
                    strings_view(out@)[b],
                ) by {
                    if b < k {
                        assert(out@[a] == before[a] && out@[b] == before[b]);
                        assert(lex_lt(strings_view(before)[a], strings_view(before)[b]));
                    } else if b == k {
                        assert(out@[a] == before[a]);
                        assert(out@[b]@ == x@);
                    } else if a < k {
                        assert(out@[a] == before[a]);
                        assert(out@[b] == before[b - 1]);
                        lemma_lex_total(before[k as int]@, x@);
                        if b - 1 > k {
                            assert(lex_lt(strings_view(before)[k as int], strings_view(before)[b - 1]));
                        }
                        assert(lex_lt(x@, before[b - 1]@)) by {
                            lemma_lex_total(before[k as int]@, x@);
                            if b - 1 > k {
                                lemma_lex_transitive(x@, before[k as int]@, before[b - 1]@);
                            }
                        }
                        lemma_lex_transitive(before[a]@, x@, before[b - 1]@);
                    } else if a == k {
                        assert(out@[a]@ == x@);
                        assert(out@[b] == before[b - 1]);
                        lemma_lex_total(before[k as int]@, x@);
                        if b - 1 > k {
                            assert(lex_lt(strings_view(before)[k as int], strings_view(before)[b - 1]));
                            lemma_lex_transitive(x@, before[k as int]@, before[b - 1]@);
                        }
                    } else {
                        assert(out@[a] == before[a - 1] && out@[b] == before[b - 1]);
                        assert(lex_lt(strings_view(before)[a - 1], strings_view(before)[b - 1]));
                    }
                }
            }
        }
        proof {
            let t = v@.take(i + 1);
            assert(keys_set(out@) =~= keys_set(t)) by {
                assert forall|s: Seq<char>| keys_set(out@).contains(s) implies keys_set(t).contains(s) by {
                    let j = choose|j: int| 0 <= j < out@.len() && (#[trigger] out@[j])@ == s;
                    if dup {
                        assert(keys_set(before).contains(s));
                    } else if j < k {
                        assert(out@[j] == before[j]);
                        assert(keys_set(before).contains(s));
                    } else if j > k {
                        assert(out@[j] == before[j - 1]);
                        assert(keys_set(before).contains(s));
                    } else {
                        assert(t[i as int] == v@[i as int]);
                    }
                    if keys_set(before).contains(s) && s != v@[i as int]@ {
                        let m = choose|m: int| 0 <= m < i && (#[trigger] v@.take(i as int)[m])@ == s;
                        assert(t[m] == v@[m]);
                    }
                    if s == v@[i as int]@ {
                        assert(t[i as int]@ == s);
                    }
                }
                assert forall|s: Seq<char>| keys_set(t).contains(s) implies keys_set(out@).contains(s) by {
                    let m = choose|m: int| 0 <= m < t.len() && (#[trigger] t[m])@ == s;
                    if m < i {
                        assert(v@.take(i as int)[m] == t[m]);
                        assert(keys_set(before).contains(s));
                        let j = choose|j: int| 0 <= j < before.len() && (#[trigger] before[j])@ == s;
                        if dup {
                            assert(out@[j] == before[j]);
                        } else if j < k {
                            assert(out@[j] == before[j]);
                        } else {
                            assert(out@[j + 1] == before[j]);
                        }
                    } else {
                        if dup {
                            assert(out@[k as int] == before[k as int]);
                        } else {
                            assert(out@[k as int]@ == x@);
                        }
                    }
                }
            }
        }
        i += 1;
    }
    assert(v@.take(i as int) =~= v@);
    out
}

} // verus!
