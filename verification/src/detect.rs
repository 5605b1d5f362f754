//! Which languages a mod's files hold: the language a file's path names, the languages
//! counted over the files found, and the order they are shown in.
use vstd::prelude::*;
use crate::text::{chars_of, string_from, split_seq, split_char, is_ascii_alnum_exec, lower_char_exec};
use crate::deleted::{stem_char, nonempty_parts};
use crate::paths::{components, comps_of, vv, file_name_spec, file_name_exec, stem_of, stem_exec, resource_display_spec, resource_display_path};
use crate::language::{
    normalize_language_code, normalize_language_code_spec, is_known_language_code, is_known_language_code_spec,
    language_label, language_label_spec,
};
use crate::order::{lex_lt, lex_lt_exec, strings_view, lemma_lex_transitive, lemma_lex_irreflexive};
use crate::paths::{parent_spec, parent_chars, language_component_spec, localization_language_component};
use crate::paths::{strip_prefix_spec, strip_prefix_chars};
use crate::roots::opt_view;
use crate::rows::LanguagePreviewDto;
use crate::preview_cache::{PreviewView, preview_view, previews_view};
use crate::paths::{extension_spec, path_extension, ext_is, ext_is_exec};
use crate::text::{cat, u64_text, dec_seq, lower_seq};

verus! {

broadcast use vstd::string::group_string_axioms;

/// The runs of ASCII letters and digits of a text, in lower case.
pub open spec fn language_tokens(text: Seq<char>) -> Seq<Seq<char>> {
    nonempty_parts(split_seq(text.map_values(|c: char| stem_char(c)), '-'))
}

/// The tokens of a path: those of each component, then those of the file's stem.
pub open spec fn comp_tokens(comps: Seq<Seq<char>>) -> Seq<Seq<char>>
    decreases comps.len(),
{
    if comps.len() == 0 {
        Seq::empty()
    } else {
        comp_tokens(comps.drop_last()) + language_tokens(comps.last())
    }
}

pub open spec fn path_tokens(path: Seq<char>) -> Seq<Seq<char>> {
    comp_tokens(components(path)) + match file_name_spec(path) {
        Some(n) => language_tokens(stem_of(n)),
        None => Seq::empty(),
    }
}

pub open spec fn first_known(tokens: Seq<Seq<char>>) -> Option<Seq<char>>
    decreases tokens.len(),
{
    if tokens.len() == 0 {
        None
    } else if is_known_language_code_spec(normalize_language_code_spec(tokens[0])) {
        Some(normalize_language_code_spec(tokens[0]))
    } else {
        first_known(tokens.skip(1))
    }
}

/// The language a file's path names: the first of its tokens that is a known language once
/// normalized.
pub open spec fn infer_language_spec(path: Seq<char>) -> Option<Seq<char>> {
    first_known(path_tokens(path))
}

fn language_tokens_exec(text: &[char]) -> (r: Vec<Vec<char>>)
    ensures
        vv(r@) == language_tokens(text@),
{
    let mut mapped: Vec<char> = Vec::new();
    let mut i: usize = 0;
    while i < text.len()
        invariant
            i <= text@.len(),
            mapped@ == text@.take(i as int).map_values(|c: char| stem_char(c)),
        decreases text.len() - i,
    {
        let c = text[i];
        mapped.push(if is_ascii_alnum_exec(c) { lower_char_exec(c) } else { '-' });
        i += 1;
        assert(mapped@ =~= text@.take(i as int).map_values(|c: char| stem_char(c)));
    }
    assert(text@.take(i as int) =~= text@);
    let parts = split_char(mapped.as_slice(), '-');
    let ghost ps = split_seq(mapped@, '-');
    let mut out: Vec<Vec<char>> = Vec::new();
    let mut k: usize = 0;
    while k < parts.len()
        invariant
            k <= parts@.len(),
            parts@.len() == ps.len(),
            forall|j: int| 0 <= j < parts@.len() ==> #[trigger] parts@[j]@ == ps[j],
            vv(out@) == nonempty_parts(ps.take(k as int)),
        decreases parts.len() - k,
    {
        proof {
            assert(ps.take(k + 1).drop_last() =~= ps.take(k as int));
            assert(ps.take(k + 1).last() == ps[k as int]);
        }
        let ghost before = vv(out@);
        if parts[k].len() > 0 {
            out.push(crate::text::copy_chars(parts[k].as_slice()));
            assert(vv(out@) =~= before.push(ps[k as int]));
        }
        k += 1;
    }
    assert(ps.take(k as int) =~= ps);
    out
}

fn push_tokens(all: &mut Vec<Vec<char>>, text: &[char])
    ensures
        vv(final(all)@) == vv(old(all)@) + language_tokens(text@),
{
    let ts = language_tokens_exec(text);
    let mut i: usize = 0;
    let ghost start = vv(all@);
    while i < ts.len()
        invariant
            i <= ts@.len(),
            vv(all@) == start + vv(ts@).take(i as int),
        decreases ts.len() - i,
    {
        let ghost before = vv(all@);
        all.push(crate::text::copy_chars(ts[i].as_slice()));
        assert(vv(all@) =~= before.push(ts@[i as int]@));
        assert(vv(ts@).take(i + 1) =~= vv(ts@).take(i as int).push(ts@[i as int]@));
        i += 1;
    }
    assert(vv(ts@).take(i as int) =~= vv(ts@));
}

/// The language a file's path names, if any.
pub fn infer_language_code(path: &str) -> (r: Option<String>)
    ensures
        match r {
            Some(c) => infer_language_spec(path@) == Some(c@),
            None => infer_language_spec(path@) is None,
        },
{
    let p = chars_of(path);
    let comps = comps_of(p.as_slice());
    let mut all: Vec<Vec<char>> = Vec::new();
    let mut i: usize = 0;
    assert(vv(all@) =~= comp_tokens(vv(comps@).take(0)));
    while i < comps.len()
        invariant
            i <= comps@.len(),
            vv(comps@) == components(path@),
            vv(all@) == comp_tokens(vv(comps@).take(i as int)),
        decreases comps.len() - i,
    {
        push_tokens(&mut all, comps[i].as_slice());
        proof {
            assert(vv(comps@).take(i + 1).drop_last() =~= vv(comps@).take(i as int));
            assert(vv(comps@).take(i + 1).last() == comps@[i as int]@);
        }
        i += 1;
    }
    assert(vv(comps@).take(i as int) =~= components(path@));
    match file_name_exec(p.as_slice()) {
        Some(n) => {
            let st = stem_exec(n.as_slice());
            push_tokens(&mut all, st.as_slice());
        },
        None => {
            assert(vv(all@) + Seq::<Seq<char>>::empty() =~= vv(all@));
        },
    }
    let ghost tokens = vv(all@);
    assert(tokens == path_tokens(path@));
    let mut k: usize = 0;
    assert(tokens.skip(0) =~= tokens);
    while k < all.len()
        invariant
            k <= all@.len(),
            tokens == vv(all@),
            tokens == path_tokens(path@),
            first_known(tokens) == first_known(tokens.skip(k as int)),
        decreases all.len() - k,
    {
        proof {
            assert(tokens.skip(k as int)[0] == all@[k as int]@);
            assert(tokens.skip(k as int).skip(1) =~= tokens.skip(k + 1));
        }
        let t = string_from(all[k].as_slice());
        let n = normalize_language_code(t.as_str());
        if is_known_language_code(n.as_str()) {
            return Some(n);
        }
        k += 1;
    }
    assert(tokens.skip(k as int) =~= Seq::<Seq<char>>::empty());
    None
}

/// `a` is shown before `b`: more keys first, then more files, then by code.
pub open spec fn shown_before(a: PreviewView, b: PreviewView) -> bool {
    ||| a.keys > b.keys
    ||| a.keys == b.keys && a.files > b.files
    ||| a.keys == b.keys && a.files == b.files && lex_lt(a.code, b.code)
}

pub open spec fn insert_preview(s: Seq<PreviewView>, x: PreviewView) -> Seq<PreviewView>
    decreases s.len(),
{
    if s.len() == 0 {
        seq![x]
    } else if shown_before(x, s[0]) {
        seq![x] + s
    } else {
        seq![s[0]] + insert_preview(s.skip(1), x)
    }
}

/// A stable sort in the order shown, as insertion sort gives it.
pub open spec fn sort_previews_spec(s: Seq<PreviewView>) -> Seq<PreviewView>
    decreases s.len(),
{
    if s.len() == 0 {
        Seq::empty()
    } else {
        insert_preview(sort_previews_spec(s.drop_last()), s.last())
    }
}

/// Each run of neighbours with the same code kept as its first.
pub open spec fn dedup_codes(s: Seq<PreviewView>) -> Seq<PreviewView>
    decreases s.len(),
{
    if s.len() <= 1 {
        s
    } else if s.last().code == s[s.len() - 2].code {
        dedup_codes(s.drop_last())
    } else {
        dedup_codes(s.drop_last()).push(s.last())
    }
}

proof fn lemma_insert_preview_at(s: Seq<PreviewView>, x: PreviewView, k: int)
    requires
        0 <= k <= s.len(),
        forall|j: int| 0 <= j < k ==> !shown_before(x, #[trigger] s[j]),
        k == s.len() || shown_before(x, s[k]),
    ensures
        insert_preview(s, x) == s.insert(k, x),
    decreases k,
{
    if k == 0 {
        if s.len() == 0 {
            assert(s.insert(0, x) =~= seq![x]);
        } else {
            assert(s.insert(0, x) =~= seq![x] + s);
        }
    } else {
        let t = s.skip(1);
        assert forall|j: int| 0 <= j < k - 1 implies !shown_before(x, #[trigger] t[j]) by {
            assert(t[j] == s[j + 1]);
        }
        if k < s.len() {
            assert(t[k - 1] == s[k]);
        }
        lemma_insert_preview_at(t, x, k - 1);
        assert(seq![s[0]] + t.insert(k - 1, x) =~= s.insert(k, x));
    }
}

fn shown_before_exec(a: &LanguagePreviewDto, b: &LanguagePreviewDto) -> (r: bool)
    ensures
        r == shown_before(preview_view(*a), preview_view(*b)),
{
    a.keys > b.keys || (a.keys == b.keys && a.files > b.files) || (a.keys == b.keys && a.files == b.files
        && lex_lt_exec(chars_of(a.code.as_str()).as_slice(), chars_of(b.code.as_str()).as_slice()))
}

fn copy_preview(d: &LanguagePreviewDto) -> (r: LanguagePreviewDto)
    ensures
        preview_view(r) == preview_view(*d),
{
    LanguagePreviewDto {
        code: d.code.clone(),
        label: d.label.clone(),
        files: d.files,
        keys: d.keys,
        sample_path: d.sample_path.clone(),
    }
}

/// Puts languages in the order shown, each code once.
pub fn sort_language_previews(previews: &Vec<LanguagePreviewDto>) -> (r: Vec<LanguagePreviewDto>)
    ensures
        previews_view(r@) == dedup_codes(sort_previews_spec(previews_view(previews@))),
{
    let ghost pv = previews_view(previews@);
    let mut sorted: Vec<LanguagePreviewDto> = Vec::new();
    let mut i: usize = 0;
    while i < previews.len()
        invariant
            i <= previews@.len(),
            pv == previews_view(previews@),
            previews_view(sorted@) == sort_previews_spec(pv.take(i as int)),
        decreases previews.len() - i,
    {
        let mut k: usize = 0;
        while k < sorted.len() && !shown_before_exec(&previews[i], &sorted[k])
            invariant
                k <= sorted@.len(),
                i < previews@.len(),
                forall|j: int| 0 <= j < k ==> !shown_before(preview_view(previews@[i as int]), #[trigger] previews_view(sorted@)[j]),
            decreases sorted.len() - k,
        {
            k += 1;
        }
        let ghost before = previews_view(sorted@);
        proof {
            lemma_insert_preview_at(before, pv[i as int], k as int);
            assert(pv.take(i + 1).drop_last() =~= pv.take(i as int));
            assert(pv.take(i + 1).last() == pv[i as int]);
        }
        sorted.insert(k, copy_preview(&previews[i]));
        assert(previews_view(sorted@) =~= before.insert(k as int, pv[i as int]));
        i += 1;
    }
    assert(pv.take(i as int) =~= pv);
    dedup_previews(&sorted)
}

/// Drops each language whose code is that of the one before it.
pub fn dedup_previews(sorted: &Vec<LanguagePreviewDto>) -> (r: Vec<LanguagePreviewDto>)
    ensures
        previews_view(r@) == dedup_codes(previews_view(sorted@)),
{
    let ghost sv = previews_view(sorted@);
    let mut out: Vec<LanguagePreviewDto> = Vec::new();
    let mut j: usize = 0;
    while j < sorted.len()
        invariant
            j <= sorted@.len(),
            sv == previews_view(sorted@),
            previews_view(out@) == dedup_codes(sv.take(j as int)),
        decreases sorted.len() - j,
    {
        let ghost t = sv.take(j + 1);
        proof {
            assert(t.drop_last() =~= sv.take(j as int));
            assert(t.last() == sv[j as int]);
            if j >= 1 {
                assert(t[t.len() - 2] == sv[j - 1]);
            }
        }
        let ghost before = previews_view(out@);
        let dup = j > 0 && crate::text::seq_eq(
            chars_of(sorted[j].code.as_str()).as_slice(),
            chars_of(sorted[j - 1].code.as_str()).as_slice(),
        );
        if !dup {
            out.push(copy_preview(&sorted[j]));
            proof {
                if j == 0 {
                    assert(t =~= seq![sv[0]]);
                }
                assert(previews_view(out@) =~= before.push(sv[j as int]));
            }
        }
        j += 1;
    }
    assert(sv.take(j as int) =~= sv);
    out
}

/// A file found that may hold strings to translate: its path, relative to the scan root
/// (so that folders above the root, such as a parent `kor` folder, give it no language), how
/// many keys it has, and whether it is a hard-coded string source (a program file) rather
/// than a language file.
pub struct LanguageCandidate {
    pub path: String,
    pub keys: usize,
    pub hardcoded: bool,
}

pub open spec fn candidate_code(c: LanguageCandidate) -> Seq<char> {
    match infer_language_spec(c.path@) {
        Some(x) => x,
        None => "unknown"@,
    }
}

pub open spec fn code_at(s: Seq<PreviewView>, code: Seq<char>, i: int) -> bool {
    0 <= i < s.len() && s[i].code == code && forall|j: int| 0 <= j < i ==> (#[trigger] s[j]).code != code
}

/// The languages counted over the files, in order of first appearance: per language, its
/// label, the number of its files, the sum of their keys, and where the first one is shown.
pub open spec fn aggregate(cs: Seq<LanguageCandidate>) -> Seq<PreviewView>
    decreases cs.len(),
{
    if cs.len() == 0 {
        Seq::empty()
    } else {
        let prev = aggregate(cs.drop_last());
        let c = cs.last();
        if c.hardcoded {
            prev
        } else {
            let code = candidate_code(c);
            if exists|i: int| code_at(prev, code, i) {
                let i = choose|i: int| code_at(prev, code, i);
                prev.update(i, PreviewView { files: (prev[i].files + 1) as usize, keys: (prev[i].keys + c.keys) as usize, ..prev[i] })
            } else {
                prev.push(
                    PreviewView {
                        code,
                        label: language_label_spec(code),
                        files: 1,
                        keys: c.keys,
                        sample_path: resource_display_spec(c.path@),
                    },
                )
            }
        }
    }
}

pub open spec fn language_keys_total(cs: Seq<LanguageCandidate>) -> int
    decreases cs.len(),
{
    if cs.len() == 0 {
        0
    } else {
        language_keys_total(cs.drop_last()) + if cs.last().hardcoded {
            0
        } else {
            cs.last().keys as int
        }
    }
}

/// The languages a mod's files hold, at most eight, in the order shown.
pub open spec fn previews_spec(cs: Seq<LanguageCandidate>) -> Seq<PreviewView> {
    let s = dedup_codes(sort_previews_spec(aggregate(cs)));
    if s.len() <= 8 {
        s
    } else {
        s.take(8)
    }
}

proof fn lemma_aggregate_bounds(cs: Seq<LanguageCandidate>)
    requires
        language_keys_total(cs) <= usize::MAX,
        cs.len() <= usize::MAX,
    ensures
        forall|i: int| 0 <= i < aggregate(cs).len() ==> (#[trigger] aggregate(cs)[i]).keys <= language_keys_total(cs)
            && aggregate(cs)[i].files <= cs.len(),
        language_keys_total(cs) >= 0,
    decreases cs.len(),
{
    if cs.len() > 0 {
        lemma_total_nonneg(cs.drop_last());
        lemma_aggregate_bounds(cs.drop_last());
        let prev = aggregate(cs.drop_last());
        let c = cs.last();
        if !c.hardcoded {
            let code = candidate_code(c);
            if exists|i: int| code_at(prev, code, i) {
                let i = choose|i: int| code_at(prev, code, i);
                assert(prev[i].keys + c.keys <= language_keys_total(cs));
                assert(prev[i].files + 1 <= cs.len());
            }
        }
    }
}

proof fn lemma_total_nonneg(cs: Seq<LanguageCandidate>)
    ensures
        language_keys_total(cs) >= 0,
    decreases cs.len(),
{
    if cs.len() > 0 {
        lemma_total_nonneg(cs.drop_last());
    }
}

pub fn language_previews_from_candidates(candidates: &Vec<LanguageCandidate>) -> (r: Vec<LanguagePreviewDto>)
    requires
        language_keys_total(candidates@) <= usize::MAX,
    ensures
        previews_view(r@) == previews_spec(candidates@),
{
    let mut agg: Vec<LanguagePreviewDto> = Vec::new();
    let mut i: usize = 0;
    while i < candidates.len()
        invariant
            i <= candidates@.len(),
            language_keys_total(candidates@) <= usize::MAX,
            previews_view(agg@) == aggregate(candidates@.take(i as int)),
        decreases candidates.len() - i,
    {
        let ghost t = candidates@.take(i + 1);
        proof {
            assert(t.drop_last() =~= candidates@.take(i as int));
            assert(t.last() == candidates@[i as int]);
            lemma_total_prefix(candidates@, i as int);
            lemma_total_prefix(candidates@, i + 1);
            lemma_aggregate_bounds(candidates@.take(i as int));
        }
        let c = &candidates[i];
        if !c.hardcoded {
            let code = match infer_language_code(c.path.as_str()) {
                Some(x) => x,
                None => "unknown".to_string(),
            };
            let ghost prev = previews_view(agg@);
            let cc = chars_of(code.as_str());
            let mut k: usize = 0;
            while k < agg.len() && !crate::text::seq_eq(chars_of(agg[k].code.as_str()).as_slice(), cc.as_slice())
                invariant
                    k <= agg@.len(),
                    cc@ == code@,
                    prev == previews_view(agg@),
                    forall|j: int| 0 <= j < k ==> (#[trigger] prev[j]).code != code@,
                decreases agg.len() - k,
            {
                k += 1;
            }
            if k < agg.len() {
                proof {
                    assert(code_at(prev, code@, k as int));
                    let ch = choose|x: int| code_at(prev, code@, x);
                    if ch < k {
                        assert(prev[ch].code != code@);
                    } else if ch > k {
                        assert(prev[k as int].code != code@);
                    }
                    assert(prev[k as int].keys <= language_keys_total(candidates@.take(i as int)));
                    assert(prev[k as int].files <= i);
                }
                let old = agg.remove(k);
                let updated = LanguagePreviewDto {
                    code: old.code,
                    label: old.label,
                    files: old.files + 1,
                    keys: old.keys + c.keys,
                    sample_path: old.sample_path,
                };
                agg.insert(k, updated);
                assert(previews_view(agg@) =~= prev.update(
                    k as int,
                    PreviewView { files: (prev[k as int].files + 1) as usize, keys: (prev[k as int].keys + c.keys) as usize, ..prev[k as int] },
                ));
            } else {
                proof {
                    assert forall|x: int| !code_at(prev, code@, x) by {
                        if 0 <= x < prev.len() {
                            assert(prev[x].code != code@);
                        }
                    }
                }
                let label = language_label(code.as_str()).to_string();
                let sample_path = resource_display_path(c.path.as_str());
                agg.push(LanguagePreviewDto { code, label, files: 1, keys: c.keys, sample_path });
                assert(previews_view(agg@) =~= prev.push(preview_view(agg@[agg@.len() - 1])));
            }
        }
        i += 1;
    }
    assert(candidates@.take(i as int) =~= candidates@);
    let sorted = sort_language_previews(&agg);
    let mut out: Vec<LanguagePreviewDto> = Vec::new();
    let ghost sv = previews_view(sorted@);
    let limit: usize = if sorted.len() < 8 { sorted.len() } else { 8 };
    let mut j: usize = 0;
    while j < limit
        invariant
            j <= limit,
            limit <= sorted@.len(),
            sv == previews_view(sorted@),
            previews_view(out@) == sv.take(j as int),
        decreases limit - j,
    {
        let ghost before = previews_view(out@);
        out.push(copy_preview(&sorted[j]));
        assert(previews_view(out@) =~= before.push(sv[j as int]));
        assert(previews_view(out@) =~= sv.take(j + 1));
        j += 1;
    }
    assert(sv.len() <= 8 ==> sv.take(j as int) =~= sv);
    out
}

proof fn lemma_total_prefix(cs: Seq<LanguageCandidate>, k: int)
    requires
        0 <= k <= cs.len(),
    ensures
        language_keys_total(cs.take(k)) <= language_keys_total(cs),
        0 <= language_keys_total(cs.take(k)),
    decreases cs.len() - k,
{
    lemma_total_nonneg(cs.take(k));
    if k < cs.len() {
        lemma_total_prefix(cs, k + 1);
        assert(cs.take(k + 1).drop_last() =~= cs.take(k));
    } else {
        assert(cs.take(k) =~= cs);
    }
}

/// The labels of the first `n` languages joined by `, `.
pub open spec fn labels_joined(ls: Seq<PreviewView>) -> Seq<char>
    decreases ls.len(),
{
    if ls.len() == 0 {
        Seq::empty()
    } else if ls.len() == 1 {
        ls[0].label
    } else {
        labels_joined(ls.drop_last()) + ", "@ + ls.last().label
    }
}

fn labels_joined_exec(ls: &Vec<LanguagePreviewDto>, n: usize) -> (r: String)
    requires
        n <= ls@.len(),
    ensures
        r@ == labels_joined(previews_view(ls@).take(n as int)),
{
    let ghost pv = previews_view(ls@);
    let mut out: Vec<char> = Vec::new();
    let mut i: usize = 0;
    assert(pv.take(0) =~= Seq::<PreviewView>::empty());
    while i < n
        invariant
            i <= n,
            n <= ls@.len(),
            pv == previews_view(ls@),
            out@ == labels_joined(pv.take(i as int)),
        decreases n - i,
    {
        if i > 0 {
            push_all_str(&mut out, ", ");
        }
        push_all_str(&mut out, ls[i].label.as_str());
        proof {
            let t = pv.take(i + 1);
            assert(t.drop_last() =~= pv.take(i as int));
            assert(t.last() == pv[i as int]);
            if i == 0 {
                assert(out@ =~= t[0].label);
            } else {
                assert(out@ =~= labels_joined(pv.take(i as int)) + ", "@ + pv[i as int].label);
            }
        }
        i += 1;
    }
    string_from(out.as_slice())
}

fn push_all_str(out: &mut Vec<char>, s: &str)
    ensures
        final(out)@ == old(out)@ + s@,
{
    let c = chars_of(s);
    crate::text::push_all(out, c.as_slice());
}

/// What a mod's row says of its translation: its languages (up to four named), else
/// hard-coded strings, else why no language was found for its kind of file.
pub open spec fn translation_state_spec(
    languages: Seq<PreviewView>,
    has_hardcoded: bool,
    source: Seq<char>,
    source_is_dir: bool,
) -> (Seq<char>, Seq<char>) {
    if languages.len() > 0 {
        (
            dec_seq(languages.len()) + "개 언어"@,
            labels_joined(if languages.len() <= 4 { languages } else { languages.take(4) }) + " 자동 감지"@,
        )
    } else if has_hardcoded {
        ("하드코딩"@, "DLL/EXE 내부 고정 문자열 후보 감지"@)
    } else if ext_is(source, "zip"@) {
        ("언어 없음"@, "ZIP 내부에서 localization 언어 파일을 찾지 못함"@)
    } else if ext_is(source, "7z"@) || ext_is(source, "rar"@) {
        ("언어 없음"@, "압축 내부에서 localization 언어 파일을 찾지 못함"@)
    } else if ext_is(source, "pck"@) || ext_is(source, "pak"@) {
        ("언어 없음"@, "PCK 내부에서 localization 언어 파일을 찾지 못함"@)
    } else if source_is_dir {
        ("언어 없음"@, "폴더에서 localization 언어 파일을 찾지 못함"@)
    } else {
        ("검토 필요"@, "지원 형식 확인 필요"@)
    }
}

/// `has_hardcoded` tells whether hard-coded string sources were found in the source, and
/// `source_is_dir` whether it is a folder.
pub fn translation_state(
    extraction_source: &str,
    language_preview: &Vec<LanguagePreviewDto>,
    has_hardcoded: bool,
    source_is_dir: bool,
) -> (r: (String, String))
    ensures
        (r.0@, r.1@) == translation_state_spec(previews_view(language_preview@), has_hardcoded, extraction_source@, source_is_dir),
{
    let n = language_preview.len();
    if n > 0 {
        let count = u64_text(n as u64);
        let first = cat(count.as_str(), "개 언어");
        let shown: usize = if n <= 4 { n } else { 4 };
        let labels = labels_joined_exec(language_preview, shown);
        proof {
            let pv = previews_view(language_preview@);
            if n <= 4 {
                assert(pv.take(n as int) =~= pv);
            }
        }
        return (first, cat(labels.as_str(), " 자동 감지"));
    }
    if has_hardcoded {
        return ("하드코딩".to_string(), "DLL/EXE 내부 고정 문자열 후보 감지".to_string());
    }
    let src = chars_of(extraction_source);
    if ext_is_exec(src.as_slice(), chars_of("zip").as_slice()) {
        ("언어 없음".to_string(), "ZIP 내부에서 localization 언어 파일을 찾지 못함".to_string())
    } else if ext_is_exec(src.as_slice(), chars_of("7z").as_slice()) || ext_is_exec(src.as_slice(), chars_of("rar").as_slice()) {
        ("언어 없음".to_string(), "압축 내부에서 localization 언어 파일을 찾지 못함".to_string())
    } else if ext_is_exec(src.as_slice(), chars_of("pck").as_slice()) || ext_is_exec(src.as_slice(), chars_of("pak").as_slice()) {
        ("언어 없음".to_string(), "PCK 내부에서 localization 언어 파일을 찾지 못함".to_string())
    } else if source_is_dir {
        ("언어 없음".to_string(), "폴더에서 localization 언어 파일을 찾지 못함".to_string())
    } else {
        ("검토 필요".to_string(), "지원 형식 확인 필요".to_string())
    }
}

/// What a mod's row says can be extracted: its language files, else hard-coded strings,
/// else where such files would be for its kind of file.
pub open spec fn extraction_target_spec(languages: Seq<PreviewView>, has_hardcoded: bool, source: Seq<char>, source_is_dir: bool) -> Seq<
    char,
> {
    if languages.len() > 0 {
        labels_joined(languages) + " 언어 파일 "@ + dec_seq(languages.len()) + "개"@
    } else if has_hardcoded {
        "DLL/EXE 내부 고정 문자열 후보"@
    } else if ext_is(source, "zip"@) {
        "ZIP 내부 localization/lang/strings 계열 파일"@
    } else if ext_is(source, "7z"@) || ext_is(source, "rar"@) {
        "압축 내부 localization/lang/strings 계열 파일"@
    } else if ext_is(source, "pck"@) || ext_is(source, "pak"@) {
        "PCK 내부 파일"@
    } else if source_is_dir {
        "폴더 내부 localization/lang/strings 계열 파일"@
    } else {
        "지원 형식 검토 필요"@
    }
}

pub fn extraction_target(source: &str, language_preview: &Vec<LanguagePreviewDto>, has_hardcoded: bool, source_is_dir: bool) -> (r: String)
    ensures
        r@ == extraction_target_spec(previews_view(language_preview@), has_hardcoded, source@, source_is_dir),
{
    let n = language_preview.len();
    if n > 0 {
        let labels = labels_joined_exec(language_preview, n);
        assert(previews_view(language_preview@).take(n as int) =~= previews_view(language_preview@));
        let a = cat(labels.as_str(), " 언어 파일 ");
        let count = u64_text(n as u64);
        let b = cat(a.as_str(), count.as_str());
        return cat(b.as_str(), "개");
    }
    if has_hardcoded {
        return "DLL/EXE 내부 고정 문자열 후보".to_string();
    }
    let src = chars_of(source);
    if ext_is_exec(src.as_slice(), chars_of("zip").as_slice()) {
        "ZIP 내부 localization/lang/strings 계열 파일".to_string()
    } else if ext_is_exec(src.as_slice(), chars_of("7z").as_slice()) || ext_is_exec(src.as_slice(), chars_of("rar").as_slice()) {
        "압축 내부 localization/lang/strings 계열 파일".to_string()
    } else if ext_is_exec(src.as_slice(), chars_of("pck").as_slice()) || ext_is_exec(src.as_slice(), chars_of("pak").as_slice()) {
        "PCK 내부 파일".to_string()
    } else if source_is_dir {
        "폴더 내부 localization/lang/strings 계열 파일".to_string()
    } else {
        "지원 형식 검토 필요".to_string()
    }
}

/// The language a translation was applied in, as the language list shows it: at least one
/// file counted.
pub fn applied_language_preview(target_language: &str, json_files: usize, keys: usize, sample_path: String) -> (r: LanguagePreviewDto)
    ensures
        r.code@ == target_language@,
        r.label@ == language_label_spec(target_language@),
        r.files == if json_files == 0 { 1 } else { json_files },
        r.keys == keys,
        r.sample_path@ == sample_path@,
{
    LanguagePreviewDto {
        code: target_language.to_string(),
        label: language_label(target_language).to_string(),
        files: if json_files == 0 { 1 } else { json_files },
        keys,
        sample_path,
    }
}

/// The languages after one was applied: it replaces the first language of its code, or is
/// added; then they are put in the order shown, each code once.
pub open spec fn merge_applied_spec(detected: Seq<PreviewView>, p: PreviewView) -> Seq<PreviewView> {
    let merged = if exists|i: int| code_at(detected, p.code, i) {
        detected.update(choose|i: int| code_at(detected, p.code, i), p)
    } else {
        detected.push(p)
    };
    dedup_codes(dedup_codes(sort_previews_spec(merged)))
}

pub fn merge_applied_preview(detected: Vec<LanguagePreviewDto>, preview: LanguagePreviewDto) -> (r: Vec<LanguagePreviewDto>)
    ensures
        previews_view(r@) == merge_applied_spec(previews_view(detected@), preview_view(preview)),
{
    let ghost dv = previews_view(detected@);
    let ghost pv = preview_view(preview);
    let pc = chars_of(preview.code.as_str());
    let mut k: usize = 0;
    while k < detected.len() && !crate::text::seq_eq(chars_of(detected[k].code.as_str()).as_slice(), pc.as_slice())
        invariant
            k <= detected@.len(),
            pc@ == pv.code,
            dv == previews_view(detected@),
            forall|j: int| 0 <= j < k ==> (#[trigger] dv[j]).code != pv.code,
        decreases detected.len() - k,
    {
        k += 1;
    }
    let mut merged = detected;
    if k < merged.len() {
        proof {
            assert(code_at(dv, pv.code, k as int));
            let ch = choose|x: int| code_at(dv, pv.code, x);
            if ch < k {
                assert(dv[ch].code != pv.code);
            } else if ch > k {
                assert(dv[k as int].code != pv.code);
            }
        }
        merged.set(k, preview);
        assert(previews_view(merged@) =~= dv.update(k as int, pv));
    } else {
        proof {
            assert forall|x: int| !code_at(dv, pv.code, x) by {
                if 0 <= x < dv.len() {
                    assert(dv[x].code != pv.code);
                }
            }
        }
        merged.push(preview);
        assert(previews_view(merged@) =~= dv.push(pv));
    }
    let sorted = sort_language_previews(&merged);
    dedup_previews(&sorted)
}

/// The folder a language file is counted under: its own folder, where that folder lies in
/// a language folder below `localization` (no folder above it can, where it does not).
pub open spec fn candidate_dir(path: Seq<char>) -> Option<Seq<char>> {
    match parent_spec(path) {
        Some(d) => if language_component_spec(d) is Some {
            Some(d)
        } else {
            None
        },
        None => None,
    }
}

fn candidate_dir_exec(path: &str) -> (r: Option<String>)
    ensures
        opt_view(r) == candidate_dir(path@),
{
    match parent_chars(chars_of(path).as_slice()) {
        Some(d) => {
            let ds = string_from(d.as_slice());
            match localization_language_component(ds.as_str()) {
                Some(_) => Some(ds),
                None => None,
            }
        },
        None => None,
    }
}

/// Whether a candidate is a language file counted under the folder `d`.
pub open spec fn counted_in(c: LanguageCandidate, d: Seq<char>) -> bool {
    !c.hardcoded && candidate_dir(c.path@) == Some(d)
}

/// Number of language files counted under `d`.
pub open spec fn dir_files(cs: Seq<LanguageCandidate>, d: Seq<char>) -> nat
    decreases cs.len(),
{
    if cs.len() == 0 {
        0
    } else {
        dir_files(cs.drop_last(), d) + if counted_in(cs.last(), d) { 1nat } else { 0nat }
    }
}

/// Sum of the keys of the language files counted under `d`.
pub open spec fn dir_keys(cs: Seq<LanguageCandidate>, d: Seq<char>) -> nat
    decreases cs.len(),
{
    if cs.len() == 0 {
        0
    } else {
        dir_keys(cs.drop_last(), d) + if counted_in(cs.last(), d) { cs.last().keys as nat } else { 0nat }
    }
}

pub open spec fn total_keys(cs: Seq<LanguageCandidate>) -> nat
    decreases cs.len(),
{
    if cs.len() == 0 {
        0
    } else {
        total_keys(cs.drop_last()) + cs.last().keys as nat
    }
}

/// A folder ranks above another with more keys; with as many, with more files; with as
/// many again, with the display path that sorts first.
pub open spec fn ranks_above(ka: nat, fa: nat, da: Seq<char>, kb: nat, fb: nat, db: Seq<char>) -> bool {
    ka > kb || (ka == kb && (fa > fb || (fa == fb && lex_lt(da, db))))
}

pub open spec fn dir_ranks_above(cs: Seq<LanguageCandidate>, a: Seq<char>, b: Seq<char>) -> bool {
    ranks_above(
        dir_keys(cs, a),
        dir_files(cs, a),
        resource_display_spec(a),
        dir_keys(cs, b),
        dir_files(cs, b),
        resource_display_spec(b),
    )
}

/// The resource path a translation starts from when none is chosen: the display path of the
/// language folder with the most keys among the non-hard-coded files, then the most files,
/// then the display path that sorts first; none where no file lies in a language folder.
pub open spec fn default_resource_ok(cs: Seq<LanguageCandidate>, r: Option<Seq<char>>) -> bool {
    match r {
        None => forall|d: Seq<char>| dir_files(cs, d) == 0,
        Some(x) => exists|d: Seq<char>|
            #![trigger dir_files(cs, d)]
            dir_files(cs, d) > 0 && x == resource_display_spec(d) && forall|e: Seq<char>|
                dir_files(cs, e) > 0 ==> !#[trigger] dir_ranks_above(cs, e, d),
    }
}

proof fn lemma_dir_keys_bound(cs: Seq<LanguageCandidate>, d: Seq<char>)
    ensures
        dir_keys(cs, d) <= total_keys(cs),
    decreases cs.len(),
{
    if cs.len() > 0 {
        lemma_dir_keys_bound(cs.drop_last(), d);
    }
}

proof fn lemma_dir_files_bound(cs: Seq<LanguageCandidate>, d: Seq<char>)
    ensures
        dir_files(cs, d) <= cs.len(),
        dir_files(cs, d) == 0 ==> dir_keys(cs, d) == 0,
    decreases cs.len(),
{
    if cs.len() > 0 {
        lemma_dir_files_bound(cs.drop_last(), d);
    }
}

proof fn lemma_total_keys_prefix(cs: Seq<LanguageCandidate>, i: int)
    requires
        0 <= i <= cs.len(),
    ensures
        total_keys(cs.take(i)) <= total_keys(cs),
    decreases cs.len() - i,
{
    if i < cs.len() {
        lemma_total_keys_prefix(cs, i + 1);
        assert(cs.take(i + 1).drop_last() =~= cs.take(i));
    } else {
        assert(cs.take(i) =~= cs);
    }
}

proof fn lemma_ranks_transitive(ka: nat, fa: nat, da: Seq<char>, kb: nat, fb: nat, db: Seq<char>, kc: nat, fc: nat, dc: Seq<char>)
    requires
        ranks_above(ka, fa, da, kb, fb, db),
        ranks_above(kb, fb, db, kc, fc, dc),
    ensures
        ranks_above(ka, fa, da, kc, fc, dc),
{
    if ka == kb && kb == kc && fa == fb && fb == fc {
        lemma_lex_transitive(da, db, dc);
    }
}

fn find_dir(dirs: &Vec<String>, d: &str) -> (r: Option<usize>)
    ensures
        match r {
            Some(j) => j < dirs@.len() && dirs@[j as int]@ == d@,
            None => forall|j: int| 0 <= j < dirs@.len() ==> dirs@[j]@ != d@,
        },
{
    let dc = chars_of(d);
    let mut j: usize = 0;
    while j < dirs.len()
        invariant
            j <= dirs@.len(),
            dc@ == d@,
            forall|k: int| 0 <= k < j ==> dirs@[k]@ != d@,
        decreases dirs.len() - j,
    {
        if crate::text::seq_eq(chars_of(dirs[j].as_str()).as_slice(), dc.as_slice()) {
            return Some(j);
        }
        j += 1;
    }
    None
}

/// The resource path to translate when none was chosen, from the files found: see
/// `default_resource_ok`.
pub fn default_translation_resource_path(candidates: &Vec<LanguageCandidate>) -> (r: Option<String>)
    requires
        total_keys(candidates@) <= usize::MAX,
    ensures
        default_resource_ok(candidates@, opt_view(r)),
{
    let ghost cs = candidates@;
    let mut dirs: Vec<String> = Vec::new();
    let mut files: Vec<usize> = Vec::new();
    let mut keys: Vec<usize> = Vec::new();
    let mut i: usize = 0;
    while i < candidates.len()
        invariant
            cs == candidates@,
            i <= cs.len(),
            total_keys(cs) <= usize::MAX,
            dirs@.len() == files@.len() && files@.len() == keys@.len(),
            forall|j: int| 0 <= j < dirs@.len() ==> files@[j] == dir_files(cs.take(i as int), #[trigger] dirs@[j]@)
                && keys@[j] == dir_keys(cs.take(i as int), dirs@[j]@) && files@[j] > 0,
            forall|j: int, k: int| 0 <= j < k < dirs@.len() ==> (#[trigger] dirs@[j])@ != (#[trigger] dirs@[k])@,
            forall|d: Seq<char>| #[trigger] dir_files(cs.take(i as int), d) > 0 ==> exists|j: int| 0 <= j < dirs@.len() && dirs@[j]@ == d,
        decreases candidates.len() - i,
    {
        let c = &candidates[i];
        let ghost pre = cs.take(i as int);
        let ghost post = cs.take(i + 1);
        assert(post.drop_last() =~= pre);
        assert(post.last() == cs[i as int]);
        proof {
            lemma_total_keys_prefix(cs, i + 1);
        }
        let found = if c.hardcoded {
            None
        } else {
            candidate_dir_exec(c.path.as_str())
        };
        match found {
            None => {
                assert forall|d: Seq<char>| dir_files(post, d) == dir_files(pre, d) && dir_keys(post, d) == dir_keys(pre, d) by {
                    assert(!counted_in(cs[i as int], d));
                }
            },
            Some(x) => {
                assert forall|d: Seq<char>| d != x@ implies dir_files(post, d) == dir_files(pre, d) && dir_keys(post, d)
                    == dir_keys(pre, d) by {
                    assert(!counted_in(cs[i as int], d));
                }
                assert(counted_in(cs[i as int], x@));
                proof {
                    lemma_dir_keys_bound(post, x@);
                    lemma_dir_files_bound(pre, x@);
                }
                match find_dir(&dirs, x.as_str()) {
                    Some(j) => {
                        let nf = files[j] + 1;
                        let nk = keys[j] + c.keys;
                        files.set(j, nf);
                        keys.set(j, nk);
                        assert forall|k: int| 0 <= k < dirs@.len() implies files@[k] == dir_files(post, #[trigger] dirs@[k]@)
                            && keys@[k] == dir_keys(post, dirs@[k]@) && files@[k] > 0 by {
                            if k != j {
                                assert(dirs@[k]@ != x@);
                            }
                        }
                        assert forall|d: Seq<char>| #[trigger] dir_files(post, d) > 0 implies exists|k: int|
                            0 <= k < dirs@.len() && dirs@[k]@ == d by {
                            if d != x@ {
                                assert(dir_files(pre, d) > 0);
                            } else {
                                assert(dirs@[j as int]@ == d);
                            }
                        }
                    },
                    None => {
                        assert(dir_files(pre, x@) == 0) by {
                            if dir_files(pre, x@) > 0 {
                                let k = choose|k: int| 0 <= k < dirs@.len() && dirs@[k]@ == x@;
                                assert(dirs@[k]@ != x@);
                            }
                        }
                        let ghost xv = x@;
                        let ghost od = dirs@;
                        let ghost of = files@;
                        let ghost ok = keys@;
                        dirs.push(x);
                        files.push(1);
                        keys.push(c.keys);
                        assert forall|k: int| 0 <= k < dirs@.len() implies files@[k] == dir_files(post, #[trigger] dirs@[k]@)
                            && keys@[k] == dir_keys(post, dirs@[k]@) && files@[k] > 0 by {
                            if k < od.len() {
                                assert(dirs@[k] == od[k] && files@[k] == of[k] && keys@[k] == ok[k]);
                                assert(of[k] == dir_files(pre, od[k]@));
                                assert(od[k]@ != xv);
                            } else {
                                assert(dirs@[k]@ == xv);
                            }
                        }
                        assert forall|d: Seq<char>| #[trigger] dir_files(post, d) > 0 implies exists|k: int|
                            0 <= k < dirs@.len() && dirs@[k]@ == d by {
                            if d != xv {
                                assert(dir_files(pre, d) > 0);
                                let k = choose|k: int| 0 <= k < od.len() && od[k]@ == d;
                                assert(dirs@[k] == od[k]);
                            } else {
                                assert(dirs@[od.len() as int]@ == d);
                            }
                        }
                        assert forall|a: int, b: int| 0 <= a < b < dirs@.len() implies (#[trigger] dirs@[a])@ != (#[trigger] dirs@[b])@ by {
                            assert(dirs@[a] == od[a]);
                            if b < od.len() {
                                assert(dirs@[b] == od[b]);
                            }
                        }
                    },
                }
            },
        }
        i += 1;
    }
    assert(cs.take(i as int) =~= cs);
    if dirs.len() == 0 {
        return None;
    }
    let mut best: usize = 0;
    let mut best_display = resource_display_path(dirs[0].as_str());
    proof {
        lemma_lex_irreflexive(resource_display_spec(dirs@[0]@));
    }
    let mut j: usize = 1;
    while j < dirs.len()
        invariant
            cs == candidates@,
            1 <= j <= dirs@.len(),
            best < dirs@.len(),
            best_display@ == resource_display_spec(dirs@[best as int]@),
            dirs@.len() == files@.len() && files@.len() == keys@.len(),
            forall|k: int| 0 <= k < dirs@.len() ==> files@[k] == dir_files(cs, #[trigger] dirs@[k]@) && keys@[k]
                == dir_keys(cs, dirs@[k]@) && files@[k] > 0,
            forall|k: int| 0 <= k < j ==> !dir_ranks_above(cs, #[trigger] dirs@[k]@, dirs@[best as int]@),
        decreases dirs.len() - j,
    {
        let d = resource_display_path(dirs[j].as_str());
        let above = keys[j] > keys[best] || (keys[j] == keys[best] && (files[j] > files[best] || (files[j] == files[best]
            && lex_lt_exec(chars_of(d.as_str()).as_slice(), chars_of(best_display.as_str()).as_slice()))));
        assert(above == dir_ranks_above(cs, dirs@[j as int]@, dirs@[best as int]@));
        if above {
            proof {
                let b = dirs@[best as int]@;
                let n = dirs@[j as int]@;
                assert forall|k: int| 0 <= k < j + 1 implies !dir_ranks_above(cs, #[trigger] dirs@[k]@, n) by {
                    let m = dirs@[k]@;
                    if k == j {
                        lemma_lex_irreflexive(resource_display_spec(n));
                    } else if dir_ranks_above(cs, m, n) {
                        lemma_ranks_transitive(
                            dir_keys(cs, m), dir_files(cs, m), resource_display_spec(m),
                            dir_keys(cs, n), dir_files(cs, n), resource_display_spec(n),
                            dir_keys(cs, b), dir_files(cs, b), resource_display_spec(b),
                        );
                    }
                }
            }
            best = j;
            best_display = d;
        }
        j += 1;
    }
    proof {
        let b = dirs@[best as int]@;
        assert forall|e: Seq<char>| dir_files(cs, e) > 0 implies !#[trigger] dir_ranks_above(cs, e, b) by {
            let k = choose|k: int| 0 <= k < dirs@.len() && dirs@[k]@ == e;
            assert(!dir_ranks_above(cs, dirs@[k]@, b));
        }
        assert(dir_files(cs, b) > 0);
    }
    Some(best_display)
}

/// A candidate's path taken relative to the scan root (as it is where it lies outside it).
pub open spec fn relative_candidate(root: Seq<char>, c: LanguageCandidate) -> (Seq<char>, usize, bool) {
    (
        match strip_prefix_spec(c.path@, root) {
            Some(rel) => rel,
            None => c.path@,
        },
        c.keys,
        c.hardcoded,
    )
}

pub open spec fn candidate_view(c: LanguageCandidate) -> (Seq<char>, usize, bool) {
    (c.path@, c.keys, c.hardcoded)
}

proof fn lemma_keys_total_same(a: Seq<LanguageCandidate>, b: Seq<LanguageCandidate>)
    requires
        a.len() == b.len(),
        forall|i: int| 0 <= i < a.len() ==> (#[trigger] a[i]).keys == b[i].keys && a[i].hardcoded == b[i].hardcoded,
    ensures
        language_keys_total(a) == language_keys_total(b),
    decreases a.len(),
{
    if a.len() > 0 {
        lemma_keys_total_same(a.drop_last(), b.drop_last());
    }
}

/// The language candidates found below a scan root, their paths made relative to it, so
/// that folders above the root (such as a parent `kor` folder) name no language.
pub fn candidates_relative_to(scan_root: &str, candidates: &Vec<LanguageCandidate>) -> (r: Vec<LanguageCandidate>)
    ensures
        r@.len() == candidates@.len(),
        forall|i: int| 0 <= i < r@.len() ==> candidate_view(#[trigger] r@[i]) == relative_candidate(scan_root@, candidates@[i]),
        language_keys_total(r@) == language_keys_total(candidates@),
{
    let root = chars_of(scan_root);
    let mut out: Vec<LanguageCandidate> = Vec::new();
    let mut i: usize = 0;
    while i < candidates.len()
        invariant
            i <= candidates@.len(),
            root@ == scan_root@,
            out@.len() == i,
            forall|j: int| 0 <= j < i ==> candidate_view(#[trigger] out@[j]) == relative_candidate(scan_root@, candidates@[j]),
        decreases candidates.len() - i,
    {
        let c = &candidates[i];
        let path = match strip_prefix_chars(chars_of(c.path.as_str()).as_slice(), root.as_slice()) {
            Some(rel) => string_from(rel.as_slice()),
            None => c.path.clone(),
        };
        out.push(LanguageCandidate { path, keys: c.keys, hardcoded: c.hardcoded });
        i += 1;
    }
    proof {
        lemma_keys_total_same(out@, candidates@);
    }
    out
}

/// The languages of the files found below a scan root, read from their paths relative to
/// that root.
pub fn language_preview_from_scan_root(scan_root: &str, candidates: &Vec<LanguageCandidate>) -> (r: Vec<
    LanguagePreviewDto,
>)
    requires
        language_keys_total(candidates@) <= usize::MAX,
    ensures
        exists|rel: Seq<LanguageCandidate>|
            #![trigger previews_spec(rel)]
            rel.len() == candidates@.len() && (forall|i: int|
                0 <= i < rel.len() ==> candidate_view(#[trigger] rel[i]) == relative_candidate(scan_root@, candidates@[i]))
                && previews_view(r@) == previews_spec(rel),
{
    let rel = candidates_relative_to(scan_root, candidates);
    let r = language_previews_from_candidates(&rel);
    assert(previews_view(r@) == previews_spec(rel@));
    r
}

} // verus!
