//! The cache of languages found per mod: its text file, line by line, and the table it
//! holds, kept in order of cache key.
use vstd::prelude::*;
use crate::text::{
    chars_of, string_from, split_seq, split_char, join_seqs, lines_seq, lines, dec_seq, parse_u64_spec, parse_u64,
    terminated, no_char, push_all, format_u64, seq_eq, lemma_lines_terminated, lemma_terminated_push,
    lemma_parse_format_u64, lemma_dec_digits, all_digits,
};
use crate::deleted::{
    escape_spec, unescape_spec, escape_cache_field, unescape_cache_field, lemma_escape_plain, lemma_unescape_escape,
    lemma_split_join, lemma_join_no_char, lemma_join_last, lemma_escape_push, esc_char,
};
use crate::rows::LanguagePreviewDto;
use crate::order::{lex_lt, lex_lt_exec, lemma_lex_irreflexive, lemma_lex_transitive, lemma_lex_total};

verus! {

broadcast use vstd::string::group_string_axioms;

/// A language of a mod, as text.
pub struct PreviewView {
    pub code: Seq<char>,
    pub label: Seq<char>,
    pub files: usize,
    pub keys: usize,
    pub sample_path: Seq<char>,
}

pub open spec fn preview_view(d: LanguagePreviewDto) -> PreviewView {
    PreviewView { code: d.code@, label: d.label@, files: d.files, keys: d.keys, sample_path: d.sample_path@ }
}

pub open spec fn previews_view(ds: Seq<LanguagePreviewDto>) -> Seq<PreviewView> {
    Seq::new(ds.len(), |i: int| preview_view(ds[i]))
}

/// The languages found per cache key; `dirty` once something was added since reading.
pub struct LanguagePreviewCache {
    pub entries: Vec<(String, Vec<LanguagePreviewDto>)>,
    pub dirty: bool,
}

pub open spec fn cache_view(es: Seq<(String, Vec<LanguagePreviewDto>)>) -> Seq<(Seq<char>, Seq<PreviewView>)> {
    Seq::new(es.len(), |i: int| (es[i].0@, previews_view(es[i].1@)))
}

pub open spec fn none_marker() -> Seq<char> {
    "__none__"@
}

pub open spec fn lang_fields(key: Seq<char>, l: PreviewView) -> Seq<Seq<char>> {
    seq![
        key,
        escape_spec(l.code),
        escape_spec(l.label),
        dec_seq(l.files as nat),
        dec_seq(l.keys as nat),
        escape_spec(l.sample_path),
    ]
}

/// One language of a key: six tab-separated fields.
pub open spec fn lang_line(key: Seq<char>, l: PreviewView) -> Seq<char> {
    join_seqs(lang_fields(key, l), seq!['\t'])
}

/// A key with no language found.
pub open spec fn none_line(key: Seq<char>) -> Seq<char> {
    key + "\t__none__\t\t0\t"@
}

pub open spec fn entry_lines(key: Seq<char>, langs: Seq<PreviewView>) -> Seq<Seq<char>> {
    if langs.len() == 0 {
        seq![none_line(key)]
    } else {
        Seq::new(langs.len(), |i: int| lang_line(key, langs[i]))
    }
}

pub open spec fn cache_lines(es: Seq<(Seq<char>, Seq<PreviewView>)>) -> Seq<Seq<char>>
    decreases es.len(),
{
    if es.len() == 0 {
        Seq::empty()
    } else {
        cache_lines(es.drop_last()) + entry_lines(es.last().0, es.last().1)
    }
}

/// The cache file's text: the lines of each key in turn, each ended by a line break.
pub open spec fn cache_text(es: Seq<(Seq<char>, Seq<PreviewView>)>) -> Seq<char> {
    terminated(cache_lines(es))
}

/// `str::parse::<usize>`.
pub open spec fn parse_usize_spec(s: Seq<char>) -> Option<usize> {
    match parse_u64_spec(s) {
        Some(v) => if v <= usize::MAX {
            Some(v as usize)
        } else {
            None
        },
        None => None,
    }
}

/// What one line of the cache says: a key and a language, or a key with none; nothing for
/// a line of another shape or an empty language with no files.
pub open spec fn parse_line_spec(line: Seq<char>) -> Option<(Seq<char>, Option<PreviewView>)> {
    let parts = split_seq(line, '\t');
    if parts.len() == 5 && parts[1] == none_marker() {
        Some((parts[0], None))
    } else if parts.len() != 6 {
        None
    } else {
        let files = match parse_usize_spec(parts[3]) {
            Some(f) => f,
            None => 0,
        };
        let keys = match parse_usize_spec(parts[4]) {
            Some(k) => k,
            None => files,
        };
        if parts[1].len() == 0 && parts[2].len() == 0 && files == 0 {
            None
        } else if parts[1] == none_marker() {
            Some((parts[0], None))
        } else {
            Some(
                (
                    parts[0],
                    Some(
                        PreviewView {
                            code: unescape_spec(parts[1]),
                            label: unescape_spec(parts[2]),
                            files,
                            keys,
                            sample_path: unescape_spec(parts[5]),
                        },
                    ),
                ),
            )
        }
    }
}

pub open spec fn langs_of(l: Option<PreviewView>) -> Seq<PreviewView> {
    match l {
        Some(x) => seq![x],
        None => Seq::empty(),
    }
}

/// A new key placed before the first key that comes after it.
pub open spec fn insert_entry(es: Seq<(Seq<char>, Seq<PreviewView>)>, x: (Seq<char>, Seq<PreviewView>)) -> Seq<
    (Seq<char>, Seq<PreviewView>),
>
    decreases es.len(),
{
    if es.len() == 0 {
        seq![x]
    } else if lex_lt(x.0, es[0].0) {
        seq![x] + es
    } else {
        seq![es[0]] + insert_entry(es.skip(1), x)
    }
}

pub open spec fn key_at(es: Seq<(Seq<char>, Seq<PreviewView>)>, key: Seq<char>, i: int) -> bool {
    0 <= i < es.len() && es[i].0 == key && forall|j: int| 0 <= j < i ==> (#[trigger] es[j]).0 != key
}

/// A line read into the table: a language is added to its key, which is made where
/// missing.
pub open spec fn upsert_spec(es: Seq<(Seq<char>, Seq<PreviewView>)>, key: Seq<char>, l: Option<PreviewView>) -> Seq<
    (Seq<char>, Seq<PreviewView>),
> {
    if exists|i: int| key_at(es, key, i) {
        let i = choose|i: int| key_at(es, key, i);
        es.update(i, (key, es[i].1 + langs_of(l)))
    } else {
        insert_entry(es, (key, langs_of(l)))
    }
}

pub open spec fn parse_lines_from(init: Seq<(Seq<char>, Seq<PreviewView>)>, ls: Seq<Seq<char>>) -> Seq<
    (Seq<char>, Seq<PreviewView>),
>
    decreases ls.len(),
{
    if ls.len() == 0 {
        init
    } else {
        let prev = parse_lines_from(init, ls.drop_last());
        match parse_line_spec(ls.last()) {
            Some((k, l)) => upsert_spec(prev, k, l),
            None => prev,
        }
    }
}

/// The table a cache file holds.
pub open spec fn parse_cache_spec(content: Seq<char>) -> Seq<(Seq<char>, Seq<PreviewView>)> {
    parse_lines_from(Seq::empty(), lines_seq(content))
}

fn push_field_tab(out: &mut Vec<char>, field: &[char])
    ensures
        final(out)@ == old(out)@ + field@ + seq!['\t'],
{
    push_all(out, field);
    out.push('\t');
}

fn lang_line_exec(key: &str, l: &LanguagePreviewDto) -> (r: Vec<char>)
    ensures
        r@ == lang_line(key@, preview_view(*l)),
{
    let mut out: Vec<char> = Vec::new();
    push_field_tab(&mut out, chars_of(key).as_slice());
    let a = escape_cache_field(l.code.as_str());
    push_field_tab(&mut out, chars_of(a.as_str()).as_slice());
    let b = escape_cache_field(l.label.as_str());
    push_field_tab(&mut out, chars_of(b.as_str()).as_slice());
    let f = format_u64(l.files as u64);
    push_field_tab(&mut out, f.as_slice());
    let k = format_u64(l.keys as u64);
    push_field_tab(&mut out, k.as_slice());
    let c = escape_cache_field(l.sample_path.as_str());
    push_all(&mut out, chars_of(c.as_str()).as_slice());
    proof {
        let fs = lang_fields(key@, preview_view(*l));
        reveal_with_fuel(join_seqs, 7);
        assert(fs.drop_last().drop_last().drop_last().drop_last().drop_last() =~= seq![fs[0]]);
        assert(fs.drop_last().drop_last().drop_last().drop_last() =~= seq![fs[0], fs[1]]);
        assert(fs.drop_last().drop_last().drop_last() =~= seq![fs[0], fs[1], fs[2]]);
        assert(fs.drop_last().drop_last() =~= seq![fs[0], fs[1], fs[2], fs[3]]);
        assert(fs.drop_last() =~= seq![fs[0], fs[1], fs[2], fs[3], fs[4]]);
        assert(out@ =~= lang_line(key@, preview_view(*l)));
    }
    out
}

/// The text of the cache file for this table.
pub fn write_language_preview_cache(cache: &LanguagePreviewCache) -> (r: String)
    ensures
        r@ == cache_text(cache_view(cache.entries@)),
{
    let ghost cv = cache_view(cache.entries@);
    let mut out: Vec<char> = Vec::new();
    let ghost mut ls: Seq<Seq<char>> = Seq::empty();
    let mut i: usize = 0;
    assert(cv.take(0) =~= Seq::<(Seq<char>, Seq<PreviewView>)>::empty());
    while i < cache.entries.len()
        invariant
            i <= cache.entries@.len(),
            cv == cache_view(cache.entries@),
            ls == cache_lines(cv.take(i as int)),
            out@ == terminated(ls),
        decreases cache.entries.len() - i,
    {
        let key = cache.entries[i].0.as_str();
        let langs = &cache.entries[i].1;
        let ghost e = cv[i as int];
        assert(e.0 == key@ && e.1 == previews_view(langs@));
        let ghost base = ls;
        if langs.len() == 0 {
            push_all(&mut out, chars_of(key).as_slice());
            push_all(&mut out, chars_of("\t__none__\t\t0\t").as_slice());
            out.push('\n');
            proof {
                lemma_terminated_push(ls, none_line(key@));
                ls = ls.push(none_line(key@));
                assert(out@ =~= terminated(ls));
                assert(entry_lines(e.0, e.1) =~= seq![none_line(key@)]);
            }
        } else {
            let mut j: usize = 0;
            while j < langs.len()
                invariant
                    j <= langs@.len(),
                    langs@.len() > 0,
                    e.0 == key@ && e.1 == previews_view(langs@),
                    ls == base + entry_lines(e.0, e.1).take(j as int),
                    out@ == terminated(ls),
                decreases langs.len() - j,
            {
                let line = lang_line_exec(key, &langs[j]);
                push_all(&mut out, line.as_slice());
                out.push('\n');
                proof {
                    lemma_terminated_push(ls, line@);
                    ls = ls.push(line@);
                    assert(entry_lines(e.0, e.1)[j as int] == line@);
                    assert(base + entry_lines(e.0, e.1).take(j + 1) =~= ls);
                }
                j += 1;
            }
            assert(entry_lines(e.0, e.1).take(j as int) =~= entry_lines(e.0, e.1));
        }
        proof {
            assert(cv.take(i + 1).drop_last() =~= cv.take(i as int));
            assert(cv.take(i + 1).last() == e);
            assert(ls =~= cache_lines(cv.take(i + 1)));
        }
        i += 1;
    }
    assert(cv.take(i as int) =~= cv);
    string_from(out.as_slice())
}

pub open spec fn opt_preview(l: Option<LanguagePreviewDto>) -> Option<PreviewView> {
    match l {
        Some(d) => Some(preview_view(d)),
        None => None,
    }
}

fn parse_usize(s: &[char]) -> (r: Option<usize>)
    ensures
        r == parse_usize_spec(s@),
{
    match parse_u64(s) {
        Some(v) => if v <= usize::MAX as u64 {
            Some(v as usize)
        } else {
            None
        },
        None => None,
    }
}

fn parse_line(line: &[char]) -> (r: Option<(String, Option<LanguagePreviewDto>)>)
    ensures
        match r {
            Some((k, l)) => parse_line_spec(line@) == Some((k@, match l {
                Some(d) => Some(preview_view(d)),
                None => None,
            })),
            None => parse_line_spec(line@) is None,
        },
{
    let parts = split_char(line, '\t');
    let none = chars_of("__none__");
    if parts.len() == 5 && seq_eq(parts[1].as_slice(), none.as_slice()) {
        return Some((string_from(parts[0].as_slice()), None));
    }
    if parts.len() != 6 {
        return None;
    }
    let files = match parse_usize(parts[3].as_slice()) {
        Some(f) => f,
        None => 0,
    };
    let keys = match parse_usize(parts[4].as_slice()) {
        Some(k) => k,
        None => files,
    };
    if parts[1].len() == 0 && parts[2].len() == 0 && files == 0 {
        return None;
    }
    if seq_eq(parts[1].as_slice(), none.as_slice()) {
        return Some((string_from(parts[0].as_slice()), None));
    }
    let code = unescape_cache_field(string_from(parts[1].as_slice()).as_str());
    let label = unescape_cache_field(string_from(parts[2].as_slice()).as_str());
    let sample_path = unescape_cache_field(string_from(parts[5].as_slice()).as_str());
    Some((string_from(parts[0].as_slice()), Some(LanguagePreviewDto { code, label, files, keys, sample_path })))
}

proof fn lemma_insert_entry_at(es: Seq<(Seq<char>, Seq<PreviewView>)>, x: (Seq<char>, Seq<PreviewView>), k: int)
    requires
        0 <= k <= es.len(),
        forall|j: int| 0 <= j < k ==> !lex_lt(x.0, #[trigger] es[j].0),
        k == es.len() || lex_lt(x.0, es[k].0),
    ensures
        insert_entry(es, x) == es.insert(k, x),
    decreases k,
{
    if k == 0 {
        if es.len() == 0 {
            assert(es.insert(0, x) =~= seq![x]);
        } else {
            assert(es.insert(0, x) =~= seq![x] + es);
        }
    } else {
        let t = es.skip(1);
        assert forall|j: int| 0 <= j < k - 1 implies !lex_lt(x.0, #[trigger] t[j].0) by {
            assert(t[j] == es[j + 1]);
        }
        if k < es.len() {
            assert(t[k - 1] == es[k]);
        }
        lemma_insert_entry_at(t, x, k - 1);
        assert(seq![es[0]] + t.insert(k - 1, x) =~= es.insert(k, x));
    }
}

fn copy_preview(d: &LanguagePreviewDto) -> (r: LanguagePreviewDto)
    ensures
        preview_view(r) == preview_view(*d),
{
    LanguagePreviewDto {
        code: d.code.clone(),
        label: d.label.clone(),
        files: d.files,
        keys: d.keys,
        sample_path: d.sample_path.clone(),
    }
}

/// Reads one line's key and language into the table.
fn upsert_line(entries: &mut Vec<(String, Vec<LanguagePreviewDto>)>, key: String, lang: Option<LanguagePreviewDto>)
    ensures
        cache_view(final(entries)@) == upsert_spec(cache_view(old(entries)@), key@, match lang {
            Some(d) => Some(preview_view(d)),
            None => None,
        }),
{
    let ghost before = cache_view(entries@);
    let ghost lv: Option<PreviewView> = opt_preview(lang);
    let kc = chars_of(key.as_str());
    let mut i: usize = 0;
    while i < entries.len() && !seq_eq(chars_of(entries[i].0.as_str()).as_slice(), kc.as_slice())
        invariant
            i <= entries@.len(),
            kc@ == key@,
            before == cache_view(entries@),
            forall|j: int| 0 <= j < i ==> (#[trigger] before[j]).0 != key@,
        decreases entries.len() - i,
    {
        i += 1;
    }
    if i < entries.len() {
        proof {
            assert(key_at(before, key@, i as int));
            let c = choose|c: int| key_at(before, key@, c);
            if c < i {
                assert(before[c].0 != key@);
            } else if c > i {
                assert(before[i as int].0 != key@);
            }
        }
        let (k0, mut langs) = entries.remove(i);
        let ghost old_langs = previews_view(langs@);
        match lang {
            Some(d) => {
                langs.push(d);
            },
            None => {},
        }
        assert(previews_view(langs@) =~= old_langs + langs_of(lv));
        entries.insert(i, (k0, langs));
        assert(cache_view(entries@) =~= before.update(i as int, (key@, before[i as int].1 + langs_of(lv))));
    } else {
        proof {
            assert forall|c: int| !key_at(before, key@, c) by {
                if 0 <= c < before.len() {
                    assert(before[c].0 != key@);
                }
            }
        }
        let mut k: usize = 0;
        while k < entries.len() && !lex_lt_exec(kc.as_slice(), chars_of(entries[k].0.as_str()).as_slice())
            invariant
                k <= entries@.len(),
                kc@ == key@,
                before == cache_view(entries@),
                forall|j: int| 0 <= j < k ==> !lex_lt(key@, (#[trigger] before[j]).0),
            decreases entries.len() - k,
        {
            k += 1;
        }
        let mut langs: Vec<LanguagePreviewDto> = Vec::new();
        match lang {
            Some(d) => {
                langs.push(d);
            },
            None => {},
        }
        assert(previews_view(langs@) =~= langs_of(lv));
        proof {
            lemma_insert_entry_at(before, (key@, langs_of(lv)), k as int);
        }
        entries.insert(k, (key, langs));
        assert(cache_view(entries@) =~= before.insert(k as int, (key@, langs_of(lv))));
    }
}

/// The table a cache file's text holds.
pub fn read_language_preview_cache(content: &str) -> (r: LanguagePreviewCache)
    ensures
        cache_view(r.entries@) == parse_cache_spec(content@),
        !r.dirty,
{
    let ls = lines(chars_of(content).as_slice());
    let ghost lq = lines_seq(content@);
    let mut entries: Vec<(String, Vec<LanguagePreviewDto>)> = Vec::new();
    let mut i: usize = 0;
    assert(cache_view(entries@) =~= Seq::<(Seq<char>, Seq<PreviewView>)>::empty());
    while i < ls.len()
        invariant
            i <= ls@.len(),
            ls@.len() == lq.len(),
            lq == lines_seq(content@),
            forall|k: int| 0 <= k < ls@.len() ==> #[trigger] ls@[k]@ == lq[k],
            cache_view(entries@) == parse_lines_from(Seq::empty(), lq.take(i as int)),
        decreases ls.len() - i,
    {
        proof {
            assert(lq.take(i + 1).drop_last() =~= lq.take(i as int));
            assert(lq.take(i + 1).last() == ls@[i as int]@);
        }
        match parse_line(ls[i].as_slice()) {
            Some((k, l)) => {
                upsert_line(&mut entries, k, l);
            },
            None => {},
        }
        i += 1;
    }
    assert(lq.take(i as int) =~= lq);
    LanguagePreviewCache { entries, dirty: false }
}

/// A language that the cache file keeps as it is: its code is not the none marker, it is
/// not empty with no files, and its sample path does not end in a carriage return.
pub open spec fn lang_ok(l: PreviewView) -> bool {
    &&& l.code != none_marker()
    &&& !(l.code.len() == 0 && l.label.len() == 0 && l.files == 0)
    &&& !(l.sample_path.len() > 0 && l.sample_path.last() == '\r')
}

/// A table the cache file keeps as it is: keys in order, each once, with no tab or line
/// break, and languages it keeps.
pub open spec fn cache_ok(es: Seq<(Seq<char>, Seq<PreviewView>)>) -> bool {
    &&& forall|i: int, j: int| 0 <= i < j < es.len() ==> lex_lt((#[trigger] es[i]).0, (#[trigger] es[j]).0)
    &&& forall|i: int| 0 <= i < es.len() ==> no_char((#[trigger] es[i]).0, '\t') && no_char(es[i].0, '\n')
    &&& forall|i: int, k: int| 0 <= i < es.len() && 0 <= k < es[i].1.len() ==> lang_ok(#[trigger] es[i].1[k])
}

proof fn lemma_escape_last(s: Seq<char>)
    ensures
        escape_spec(s).len() == 0 <==> s.len() == 0,
        escape_spec(s).len() > 0 && escape_spec(s).last() == '\r' ==> s.len() > 0 && s.last() == '\r',
{
    if s.len() > 0 {
        lemma_escape_push(s.drop_last(), s.last());
        assert(s.drop_last().push(s.last()) =~= s);
        let c = s.last();
        assert(esc_char(c).len() > 0);
        assert((escape_spec(s.drop_last()) + esc_char(c)).last() == esc_char(c).last());
    }
}

proof fn lemma_none_literal()
    ensures
        unescape_spec(none_marker()) == none_marker(),
        none_marker().len() > 0,
        no_char(none_marker(), '\t') && no_char(none_marker(), '\n'),
{
    reveal_strlit("__none__");
    reveal_with_fuel(unescape_spec, 9);
    assert(none_marker().skip(1).skip(1).skip(1).skip(1).skip(1).skip(1).skip(1).skip(1) =~= Seq::<char>::empty());
    assert(unescape_spec(none_marker()) =~= none_marker());
}

proof fn lemma_lang_line(key: Seq<char>, l: PreviewView)
    requires
        no_char(key, '\t') && no_char(key, '\n'),
        lang_ok(l),
    ensures
        parse_line_spec(lang_line(key, l)) == Some((key, Some(l))),
        no_char(lang_line(key, l), '\n'),
        !(lang_line(key, l).len() > 0 && lang_line(key, l).last() == '\r'),
{
    let f = lang_fields(key, l);
    lemma_escape_plain(l.code);
    lemma_escape_plain(l.label);
    lemma_escape_plain(l.sample_path);
    lemma_dec_digits(l.files as nat);
    lemma_dec_digits(l.keys as nat);
    assert forall|i: int| 0 <= i < f.len() implies no_char(#[trigger] f[i], '\t') && no_char(f[i], '\n') by {
        if i == 3 || i == 4 {
            assert(all_digits(f[i]));
        }
    }
    lemma_split_join(f, '\t');
    lemma_unescape_escape(l.code);
    lemma_unescape_escape(l.label);
    lemma_unescape_escape(l.sample_path);
    lemma_parse_format_u64(l.files as u64);
    lemma_parse_format_u64(l.keys as u64);
    lemma_join_no_char(f, '\t', '\n');
    lemma_escape_last(l.code);
    lemma_escape_last(l.label);
    lemma_escape_last(l.sample_path);
    lemma_none_literal();
    if escape_spec(l.code) == none_marker() {
        assert(l.code == unescape_spec(none_marker()));
    }
    let j = lang_line(key, l);
    assert(j == join_seqs(f.drop_last(), seq!['\t']) + seq!['\t'] + f.last());
    if f.last().len() > 0 {
        lemma_join_last(f, seq!['\t']);
    }
}

proof fn lemma_none_line(key: Seq<char>)
    requires
        no_char(key, '\t') && no_char(key, '\n'),
    ensures
        parse_line_spec(none_line(key)) == Some((key, None::<PreviewView>)),
        no_char(none_line(key), '\n'),
        !(none_line(key).len() > 0 && none_line(key).last() == '\r'),
{
    reveal_strlit("\t__none__\t\t0\t");
    reveal_strlit("__none__");
    reveal_strlit("0");
    let parts: Seq<Seq<char>> = seq![key, none_marker(), Seq::<char>::empty(), seq!['0'], Seq::<char>::empty()];
    assert forall|i: int| 0 <= i < parts.len() implies no_char(#[trigger] parts[i], '\t') && no_char(parts[i], '\n') by {
        if i == 1 {
            lemma_none_literal();
        }
    }
    reveal_with_fuel(join_seqs, 6);
    assert(parts.drop_last().drop_last().drop_last().drop_last() =~= seq![key]);
    assert(parts.drop_last().drop_last().drop_last() =~= seq![key, none_marker()]);
    assert(parts.drop_last().drop_last() =~= seq![key, none_marker(), Seq::<char>::empty()]);
    assert(parts.drop_last() =~= seq![key, none_marker(), Seq::<char>::empty(), seq!['0']]);
    assert(join_seqs(parts, seq!['\t']) =~= none_line(key));
    lemma_split_join(parts, '\t');
    let n = none_line(key);
    assert forall|i: int| 0 <= i < n.len() implies n[i] != '\n' by {
        if i < key.len() {
            assert(n[i] == key[i]);
        }
    }
}

proof fn lemma_parse_append(init: Seq<(Seq<char>, Seq<PreviewView>)>, a: Seq<Seq<char>>, b: Seq<Seq<char>>)
    ensures
        parse_lines_from(init, a + b) == parse_lines_from(parse_lines_from(init, a), b),
    decreases b.len(),
{
    if b.len() == 0 {
        assert(a + b =~= a);
    } else {
        lemma_parse_append(init, a, b.drop_last());
        assert((a + b).drop_last() =~= a + b.drop_last());
        assert((a + b).last() == b.last());
    }
}

proof fn lemma_keys_below(es: Seq<(Seq<char>, Seq<PreviewView>)>, key: Seq<char>)
    requires
        forall|j: int| 0 <= j < es.len() ==> lex_lt(#[trigger] es[j].0, key),
    ensures
        forall|c: int| !key_at(es, key, c),
        insert_entry(es, (key, Seq::<PreviewView>::empty())) == es.push((key, Seq::<PreviewView>::empty())),
        forall|l: PreviewView| #[trigger] insert_entry(es, (key, seq![l])) == es.push((key, seq![l])),
{
    assert forall|c: int| !key_at(es, key, c) by {
        if 0 <= c < es.len() {
            lemma_lex_irreflexive(key);
        }
    }
    assert forall|j: int| 0 <= j < es.len() implies !lex_lt(key, #[trigger] es[j].0) by {
        crate::order::lemma_lex_asymmetric(es[j].0, key);
    }
    lemma_insert_entry_at(es, (key, Seq::<PreviewView>::empty()), es.len() as int);
    assert(es.insert(es.len() as int, (key, Seq::<PreviewView>::empty())) =~= es.push((key, Seq::<PreviewView>::empty())));
    assert forall|l: PreviewView| #[trigger] insert_entry(es, (key, seq![l])) == es.push((key, seq![l])) by {
        lemma_insert_entry_at(es, (key, seq![l]), es.len() as int);
        assert(es.insert(es.len() as int, (key, seq![l])) =~= es.push((key, seq![l])));
    }
}

proof fn lemma_parse_entry(es: Seq<(Seq<char>, Seq<PreviewView>)>, key: Seq<char>, langs: Seq<PreviewView>)
    requires
        forall|j: int| 0 <= j < es.len() ==> lex_lt(#[trigger] es[j].0, key),
        no_char(key, '\t') && no_char(key, '\n'),
        forall|k: int| 0 <= k < langs.len() ==> lang_ok(#[trigger] langs[k]),
    ensures
        parse_lines_from(es, entry_lines(key, langs)) == es.push((key, langs)),
{
    lemma_keys_below(es, key);
    let ls = entry_lines(key, langs);
    if langs.len() == 0 {
        lemma_none_line(key);
        assert(ls.drop_last() =~= Seq::<Seq<char>>::empty());
        assert(parse_lines_from(es, ls.drop_last()) == es);
        assert(ls.last() == none_line(key));
        assert(langs_of(None) =~= Seq::<PreviewView>::empty());
        assert(upsert_spec(es, key, None) == insert_entry(es, (key, Seq::<PreviewView>::empty())));
        assert(langs =~= Seq::<PreviewView>::empty());
        assert(parse_lines_from(es, ls) == upsert_spec(es, key, None));
    } else {
        lemma_parse_entry_prefix(es, key, langs, langs.len() as int);
        assert(ls.take(langs.len() as int) =~= ls);
        assert(langs.take(langs.len() as int) =~= langs);
    }
}

proof fn lemma_parse_entry_prefix(es: Seq<(Seq<char>, Seq<PreviewView>)>, key: Seq<char>, langs: Seq<PreviewView>, m: int)
    requires
        forall|j: int| 0 <= j < es.len() ==> lex_lt(#[trigger] es[j].0, key),
        no_char(key, '\t') && no_char(key, '\n'),
        forall|k: int| 0 <= k < langs.len() ==> lang_ok(#[trigger] langs[k]),
        1 <= m <= langs.len(),
    ensures
        parse_lines_from(es, entry_lines(key, langs).take(m)) == es.push((key, langs.take(m))),
    decreases m,
{
    lemma_keys_below(es, key);
    let ls = entry_lines(key, langs);
    let t = ls.take(m);
    assert(t.last() == lang_line(key, langs[m - 1]));
    lemma_lang_line(key, langs[m - 1]);
    assert(t.drop_last() =~= ls.take(m - 1));
    if m == 1 {
        assert(ls.take(0) =~= Seq::<Seq<char>>::empty());
        assert(t.drop_last() =~= Seq::<Seq<char>>::empty());
        assert(parse_lines_from(es, t.drop_last()) == es);
        assert(langs_of(Some(langs[0])) =~= seq![langs[0]]);
        assert(insert_entry(es, (key, seq![langs[0]])) == es.push((key, seq![langs[0]])));
        assert(upsert_spec(es, key, Some(langs[0])) == es.push((key, seq![langs[0]])));
        assert(langs.take(1) =~= seq![langs[0]]);
        assert(parse_lines_from(es, t) == upsert_spec(es, key, Some(langs[0])));
    } else {
        lemma_parse_entry_prefix(es, key, langs, m - 1);
        let prev = es.push((key, langs.take(m - 1)));
        let n = es.len() as int;
        assert(key_at(prev, key, n)) by {
            assert forall|j: int| 0 <= j < n implies (#[trigger] prev[j]).0 != key by {
                assert(prev[j] == es[j]);
                lemma_lex_irreflexive(key);
            }
        }
        let c = choose|c: int| key_at(prev, key, c);
        assert(c == n) by {
            if c < n {
                assert(prev[c].0 != key);
            }
        }
        assert(langs.take(m - 1) + langs_of(Some(langs[m - 1])) =~= langs.take(m));
        assert(prev.update(n, (key, langs.take(m))) =~= es.push((key, langs.take(m))));
        assert(upsert_spec(prev, key, Some(langs[m - 1])) == prev.update(n, (key, prev[n].1 + langs_of(Some(langs[m - 1])))));
        assert(parse_lines_from(es, t) == upsert_spec(prev, key, Some(langs[m - 1])));
    }
}

proof fn lemma_parse_cache_lines(es: Seq<(Seq<char>, Seq<PreviewView>)>)
    requires
        cache_ok(es),
    ensures
        parse_lines_from(Seq::empty(), cache_lines(es)) == es,
        forall|i: int| 0 <= i < cache_lines(es).len() ==> no_char(#[trigger] cache_lines(es)[i], '\n') && !(
        cache_lines(es)[i].len() > 0 && cache_lines(es)[i].last() == '\r'),
    decreases es.len(),
{
    if es.len() == 0 {
        assert(es =~= Seq::<(Seq<char>, Seq<PreviewView>)>::empty());
    } else {
        let p = es.drop_last();
        let e = es.last();
        assert(cache_ok(p)) by {
            assert forall|i: int, j: int| 0 <= i < j < p.len() implies lex_lt((#[trigger] p[i]).0, (#[trigger] p[j]).0) by {
                assert(p[i] == es[i] && p[j] == es[j]);
            }
            assert forall|i: int, k: int| 0 <= i < p.len() && 0 <= k < p[i].1.len() implies lang_ok(#[trigger] p[i].1[k]) by {
                assert(p[i] == es[i]);
            }
        }
        lemma_parse_cache_lines(p);
        lemma_parse_append(Seq::empty(), cache_lines(p), entry_lines(e.0, e.1));
        assert forall|j: int| 0 <= j < p.len() implies lex_lt(#[trigger] p[j].0, e.0) by {
            assert(p[j] == es[j]);
            assert(e == es[es.len() - 1]);
        }
        assert(no_char(e.0, '\t') && no_char(e.0, '\n')) by {
            assert(e == es[es.len() - 1]);
        }
        assert forall|k: int| 0 <= k < e.1.len() implies lang_ok(#[trigger] e.1[k]) by {
            assert(e == es[es.len() - 1]);
        }
        lemma_parse_entry(p, e.0, e.1);
        assert(p.push(e) =~= es);
        let el = entry_lines(e.0, e.1);
        let cl = cache_lines(es);
        assert(cl == cache_lines(p) + el);
        assert forall|i: int| 0 <= i < cl.len() implies no_char(#[trigger] cl[i], '\n') && !(cl[i].len() > 0 && cl[i].last()
            == '\r') by {
            if i < cache_lines(p).len() {
                assert(cl[i] == cache_lines(p)[i]);
            } else {
                let k = i - cache_lines(p).len();
                assert(cl[i] == el[k]);
                if e.1.len() == 0 {
                    lemma_none_line(e.0);
                } else {
                    lemma_lang_line(e.0, e.1[k]);
                }
            }
        }
    }
}

/// Writing the cache and reading it back gives the same table, for every table that the
/// file can hold as it is.
pub proof fn lemma_preview_cache_round_trip(es: Seq<(Seq<char>, Seq<PreviewView>)>)
    requires
        cache_ok(es),
    ensures
        parse_cache_spec(cache_text(es)) == es,
{
    lemma_parse_cache_lines(es);
    lemma_lines_terminated(cache_lines(es));
}

/// The table with `key` set to `langs`: in place where it is held, else added in order.
pub open spec fn set_spec(es: Seq<(Seq<char>, Seq<PreviewView>)>, key: Seq<char>, langs: Seq<PreviewView>) -> Seq<
    (Seq<char>, Seq<PreviewView>),
> {
    if exists|i: int| key_at(es, key, i) {
        es.update(choose|i: int| key_at(es, key, i), (key, langs))
    } else {
        insert_entry(es, (key, langs))
    }
}

/// The languages cached under `key`.
pub fn cache_get<'a>(cache: &'a LanguagePreviewCache, key: &str) -> (r: Option<&'a Vec<LanguagePreviewDto>>)
    ensures
        match r {
            Some(v) => exists|i: int| key_at(cache_view(cache.entries@), key@, i) && cache_view(cache.entries@)[i].1 == previews_view(v@),
            None => forall|i: int| !key_at(cache_view(cache.entries@), key@, i),
        },
{
    let ghost cv = cache_view(cache.entries@);
    let kc = chars_of(key);
    let mut i: usize = 0;
    while i < cache.entries.len()
        invariant
            i <= cache.entries@.len(),
            kc@ == key@,
            cv == cache_view(cache.entries@),
            forall|j: int| 0 <= j < i ==> (#[trigger] cv[j]).0 != key@,
        decreases cache.entries.len() - i,
    {
        if seq_eq(chars_of(cache.entries[i].0.as_str()).as_slice(), kc.as_slice()) {
            assert(key_at(cv, key@, i as int));
            return Some(&cache.entries[i].1);
        }
        i += 1;
    }
    proof {
        assert forall|c: int| !key_at(cv, key@, c) by {
            if 0 <= c < cv.len() {
                assert(cv[c].0 != key@);
            }
        }
    }
    None
}

/// Caches `langs` under `key`, and marks the cache as changed.
pub fn cache_set(cache: &mut LanguagePreviewCache, key: String, langs: Vec<LanguagePreviewDto>)
    ensures
        cache_view(final(cache).entries@) == set_spec(cache_view(old(cache).entries@), key@, previews_view(langs@)),
        final(cache).dirty,
{
    let ghost before = cache_view(cache.entries@);
    let ghost lv = previews_view(langs@);
    let kc = chars_of(key.as_str());
    let mut i: usize = 0;
    while i < cache.entries.len() && !seq_eq(chars_of(cache.entries[i].0.as_str()).as_slice(), kc.as_slice())
        invariant
            i <= cache.entries@.len(),
            kc@ == key@,
            before == cache_view(cache.entries@),
            forall|j: int| 0 <= j < i ==> (#[trigger] before[j]).0 != key@,
        decreases cache.entries.len() - i,
    {
        i += 1;
    }
    if i < cache.entries.len() {
        proof {
            assert(key_at(before, key@, i as int));
            let c = choose|c: int| key_at(before, key@, c);
            if c < i {
                assert(before[c].0 != key@);
            } else if c > i {
                assert(before[i as int].0 != key@);
            }
        }
        cache.entries.set(i, (key, langs));
        assert(cache_view(cache.entries@) =~= before.update(i as int, (key@, lv)));
    } else {
        proof {
            assert forall|c: int| !key_at(before, key@, c) by {
                if 0 <= c < before.len() {
                    assert(before[c].0 != key@);
                }
            }
        }
        let mut k: usize = 0;
        while k < cache.entries.len() && !lex_lt_exec(kc.as_slice(), chars_of(cache.entries[k].0.as_str()).as_slice())
            invariant
                k <= cache.entries@.len(),
                kc@ == key@,
                before == cache_view(cache.entries@),
                forall|j: int| 0 <= j < k ==> !lex_lt(key@, (#[trigger] before[j]).0),
            decreases cache.entries.len() - k,
        {
            k += 1;
        }
        proof {
            lemma_insert_entry_at(before, (key@, lv), k as int);
        }
        cache.entries.insert(k, (key, langs));
        assert(cache_view(cache.entries@) =~= before.insert(k as int, (key@, lv)));
    }
    cache.dirty = true;
}

proof fn lemma_insert_entry_somewhere(es: Seq<(Seq<char>, Seq<PreviewView>)>, x: (Seq<char>, Seq<PreviewView>))
    ensures
        exists|k: int| 0 <= k <= es.len() && #[trigger] es.insert(k, x) == insert_entry(es, x),
    decreases es.len(),
{
    if es.len() == 0 {
        assert(es.insert(0, x) =~= seq![x]);
    } else if lex_lt(x.0, es[0].0) {
        assert(es.insert(0, x) =~= seq![x] + es);
    } else {
        lemma_insert_entry_somewhere(es.skip(1), x);
        let k = choose|k: int| 0 <= k <= es.skip(1).len() && #[trigger] es.skip(1).insert(k, x) == insert_entry(es.skip(1), x);
        assert(seq![es[0]] + es.skip(1).insert(k, x) =~= es.insert(k + 1, x));
    }
}

/// Reading a key after setting it gives what was set, and every other key is as it was.
pub proof fn lemma_get_after_set(es: Seq<(Seq<char>, Seq<PreviewView>)>, key: Seq<char>, langs: Seq<PreviewView>)
    ensures
        exists|i: int| key_at(set_spec(es, key, langs), key, i) && #[trigger] set_spec(es, key, langs)[i].1 == langs,
        forall|other: Seq<char>, i: int| other != key ==> (key_at(set_spec(es, key, langs), other, i) ==> exists|j: int|
            key_at(es, other, j) && #[trigger] es[j] == set_spec(es, key, langs)[i]),
{
    let n = set_spec(es, key, langs);
    if exists|i: int| key_at(es, key, i) {
        let i = choose|i: int| key_at(es, key, i);
        assert(n == es.update(i, (key, langs)));
        assert(key_at(n, key, i)) by {
            assert forall|j: int| 0 <= j < i implies (#[trigger] n[j]).0 != key by {
                assert(n[j] == es[j]);
            }
        }
        assert(set_spec(es, key, langs)[i].1 == langs);
        assert forall|other: Seq<char>, m: int| other != key && key_at(n, other, m) implies exists|j: int| key_at(es, other, j)
            && #[trigger] es[j] == n[m] by {
            assert(m != i);
            assert(n[m] == es[m]);
            assert forall|j: int| 0 <= j < m implies (#[trigger] es[j]).0 != other by {
                if j != i {
                    assert(n[j] == es[j]);
                }
            }
            assert(key_at(es, other, m));
        }
    } else {
        lemma_insert_entry_somewhere(es, (key, langs));
        let k = choose|k: int| 0 <= k <= es.len() && #[trigger] es.insert(k, (key, langs)) == insert_entry(es, (key, langs));
        assert(n == es.insert(k, (key, langs)));
        assert(key_at(n, key, k)) by {
            assert forall|j: int| 0 <= j < k implies (#[trigger] n[j]).0 != key by {
                assert(n[j] == es[j]);
                assert(!key_at(es, key, j));
                if es[j].0 == key {
                    lemma_first_key(es, key, j);
                }
            }
        }
        assert(set_spec(es, key, langs)[k].1 == langs);
        assert forall|other: Seq<char>, m: int| other != key && key_at(n, other, m) implies exists|j: int| key_at(es, other, j)
            && #[trigger] es[j] == n[m] by {
            let j = if m < k { m } else { m - 1 };
            assert(m != k);
            assert(n[m] == es[j]);
            assert forall|x: int| 0 <= x < j implies (#[trigger] es[x]).0 != other by {
                if x < k {
                    assert(n[x] == es[x]);
                } else {
                    assert(n[x + 1] == es[x]);
                }
            }
            assert(key_at(es, other, j));
        }
    }
}

proof fn lemma_first_key(es: Seq<(Seq<char>, Seq<PreviewView>)>, key: Seq<char>, j: int)
    requires
        0 <= j < es.len(),
        es[j].0 == key,
    ensures
        exists|m: int| key_at(es, key, m),
    decreases j,
{
    if exists|m: int| 0 <= m < j && es[m].0 == key {
        let m = choose|m: int| 0 <= m < j && es[m].0 == key;
        lemma_first_key(es, key, m);
    } else {
        assert(key_at(es, key, j));
    }
}

/// One extraction tool as the cache key records it: `name:size:modified`, or `name:missing`
/// where the file could not be read. `meta` is its size and modification time (seconds,
/// 0 where unknown).
pub open spec fn tool_signature(name: Seq<char>, meta: Option<(u64, u64)>) -> Seq<char> {
    match meta {
        Some((len, modified)) => name + seq![':'] + dec_seq(len as nat) + seq![':'] + dec_seq(modified as nat),
        None => name + ":missing"@,
    }
}

fn push_tool_signature(out: &mut Vec<char>, name: &str, meta: Option<(u64, u64)>)
    ensures
        final(out)@ == old(out)@ + tool_signature(name@, meta),
{
    push_all(out, chars_of(name).as_slice());
    match meta {
        Some((len, modified)) => {
            out.push(':');
            push_all(out, format_u64(len).as_slice());
            out.push(':');
            push_all(out, format_u64(modified).as_slice());
        },
        None => {
            push_all(out, chars_of(":missing").as_slice());
        },
    }
    assert(final(out)@ =~= old(out)@ + tool_signature(name@, meta));
}

/// The signature of the vendor folder's extraction tools (7-Zip and the PCK explorer), so
/// that replacing a tool makes cached previews stale.
pub open spec fn vendor_signature_spec(seven_zip: Option<(u64, u64)>, pck_explorer: Option<(u64, u64)>) -> Seq<char> {
    tool_signature("7z.exe"@, seven_zip) + seq!['|'] + tool_signature("GodotPCKExplorer.Console.exe"@, pck_explorer)
}

pub fn vendor_extractor_signature(seven_zip: Option<(u64, u64)>, pck_explorer: Option<(u64, u64)>) -> (r: String)
    ensures
        r@ == vendor_signature_spec(seven_zip, pck_explorer),
{
    let mut out: Vec<char> = Vec::new();
    push_tool_signature(&mut out, "7z.exe", seven_zip);
    out.push('|');
    push_tool_signature(&mut out, "GodotPCKExplorer.Console.exe", pck_explorer);
    assert(out@ =~= vendor_signature_spec(seven_zip, pck_explorer));
    string_from(out.as_slice())
}

/// The key a mod's language preview is cached under: a format tag, the mod's source and
/// stable key, size and modification time (0 where unknown), its path, the extraction
/// source, and the tools' signature, joined by `|`.
pub open spec fn language_cache_key_spec(
    source_key: Seq<char>,
    stable_key: Seq<char>,
    bytes: u64,
    modified_epoch: Option<u64>,
    path: Seq<char>,
    extraction_source: Seq<char>,
    vendor_signature: Seq<char>,
) -> Seq<char> {
    join_seqs(cache_key_parts(source_key, stable_key, bytes, modified_epoch, path, extraction_source, vendor_signature), seq!['|'])
}

pub open spec fn cache_key_parts(
    source_key: Seq<char>,
    stable_key: Seq<char>,
    bytes: u64,
    modified_epoch: Option<u64>,
    path: Seq<char>,
    extraction_source: Seq<char>,
    vendor_signature: Seq<char>,
) -> Seq<Seq<char>> {
    let epoch: u64 = match modified_epoch {
        Some(e) => e,
        None => 0,
    };
    seq![
        "sts2-localization-v4"@,
        source_key,
        stable_key,
        dec_seq(bytes as nat),
        dec_seq(epoch as nat),
        path,
        extraction_source,
        vendor_signature,
    ]
}

pub fn language_cache_key(
    source_key: &str,
    stable_key: &str,
    bytes: u64,
    modified_epoch: Option<u64>,
    path: &str,
    extraction_source: &str,
    vendor_signature: &str,
) -> (r: String)
    ensures
        r@ == language_cache_key_spec(
            source_key@,
            stable_key@,
            bytes,
            modified_epoch,
            path@,
            extraction_source@,
            vendor_signature@,
        ),
{
    let epoch: u64 = match modified_epoch {
        Some(e) => e,
        None => 0,
    };
    let parts: Vec<Vec<char>> = vec![
        chars_of("sts2-localization-v4"),
        chars_of(source_key),
        chars_of(stable_key),
        format_u64(bytes),
        format_u64(epoch),
        chars_of(path),
        chars_of(extraction_source),
        chars_of(vendor_signature),
    ];
    let mut out: Vec<char> = Vec::new();
    let ghost pv = Seq::new(parts@.len(), |i: int| parts@[i]@);
    let mut i: usize = 0;
    while i < parts.len()
        invariant
            parts@.len() == 8,
            pv == Seq::new(parts@.len(), |k: int| parts@[k]@),
            i <= 8,
            i > 0 ==> out@ == join_seqs(pv.take(i as int), seq!['|']),
            i == 0 ==> out@ == Seq::<char>::empty(),
        decreases 8 - i,
    {
        if i > 0 {
            out.push('|');
        }
        push_all(&mut out, parts[i].as_slice());
        proof {
            let t = pv.take(i + 1);
            assert(t.drop_last() =~= pv.take(i as int));
            assert(t.last() == parts@[i as int]@);
            if i == 0 {
                assert(join_seqs(t, seq!['|']) == t[0]);
            }
            assert(out@ =~= join_seqs(pv.take(i + 1), seq!['|']));
        }
        i += 1;
    }
    proof {
        assert(pv.take(8) =~= pv);
        let target = seq![
            "sts2-localization-v4"@,
            source_key@,
            stable_key@,
            dec_seq(bytes as nat),
            dec_seq(epoch as nat),
            path@,
            extraction_source@,
            vendor_signature@,
        ];
        assert(pv =~= target);
        assert(target =~= cache_key_parts(
            source_key@,
            stable_key@,
            bytes,
            modified_epoch,
            path@,
            extraction_source@,
            vendor_signature@,
        ));
    }
    string_from(out.as_slice())
}

} // verus!
