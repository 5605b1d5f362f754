//! Recently deleted mods: their index file, the keys remembered after a backup is gone, and
//! where a restored mod goes.
use vstd::prelude::*;
use crate::text::{
    chars_of, string_from, split_char, split_seq, join_seqs, is_ascii_alnum, is_ascii_alnum_exec,
    lower_char, lower_char_exec, lines, lines_seq, terminated, no_char, parse_u64, parse_u64_spec,
    format_u64, dec_seq, push_all, starts_with, lemma_terminated_push, lemma_lines_terminated,
    lemma_dec_digits, lemma_parse_format_u64, lemma_split_nonempty, lemma_split_append_plain,
    all_digits, u64_text, trim, trim_seq, seq_eq, lemma_trimmed_last, is_ws,
};
use crate::paths::{
    join_name_spec, join_name_str, strip_prefix_spec, strip_prefix_chars, components, comps_of,
    stem_of, stem_exec, vv,
};
use crate::settings::AppConfig;
use crate::model::{ModRecord, ScanSummary, records_keys, keys_set, connected_keys_spec, connected_mod_keys, is_supported_archive_path};
use crate::roots::{path_starts_with, path_starts_with_exec};
use crate::logs::strings_view;

use crate::paths::{extension_of, last_dot};

verus! {

broadcast use vstd::string::group_string_axioms;

pub open spec fn esc_char(c: char) -> Seq<char> {
    if c == '\\' {
        seq!['\\', '\\']
    } else if c == '\t' {
        seq!['\\', 't']
    } else if c == '\n' {
        seq!['\\', 'n']
    } else {
        seq![c]
    }
}

/// A field with `\`, tab and line break written as `\\`, `\t` and `\n`.
pub open spec fn escape_spec(s: Seq<char>) -> Seq<char>
    decreases s.len(),
{
    if s.len() == 0 {
        Seq::empty()
    } else {
        esc_char(s[0]) + escape_spec(s.skip(1))
    }
}

/// A field read back: `\t`, `\n` and `\\` stand for a tab, a line break and `\`; a `\`
/// before anything else, or at the end, is kept as it is.
pub open spec fn unescape_spec(s: Seq<char>) -> Seq<char>
    decreases s.len(),
{
    if s.len() == 0 {
        Seq::empty()
    } else if s[0] == '\\' {
        if s.len() == 1 {
            seq!['\\']
        } else if s[1] == 't' {
            seq!['\t'] + unescape_spec(s.skip(2))
        } else if s[1] == 'n' {
            seq!['\n'] + unescape_spec(s.skip(2))
        } else if s[1] == '\\' {
            seq!['\\'] + unescape_spec(s.skip(2))
        } else {
            seq!['\\', s[1]] + unescape_spec(s.skip(2))
        }
    } else {
        seq![s[0]] + unescape_spec(s.skip(1))
    }
}

pub proof fn lemma_escape_push(s: Seq<char>, c: char)
    ensures
        escape_spec(s.push(c)) == escape_spec(s) + esc_char(c),
    decreases s.len(),
{
    if s.len() == 0 {
        assert(s.push(c).skip(1) =~= Seq::<char>::empty());
        assert(s.push(c)[0] == c);
        assert(escape_spec(s.push(c).skip(1)) == Seq::<char>::empty());
        assert(escape_spec(s) == Seq::<char>::empty());
        assert(escape_spec(s.push(c)) =~= esc_char(c));
    } else {
        lemma_escape_push(s.skip(1), c);
        assert(s.push(c).skip(1) =~= s.skip(1).push(c));
        assert(s.push(c)[0] == s[0]);
        assert(escape_spec(s.push(c)) =~= esc_char(s[0]) + escape_spec(s.skip(1).push(c)));
    }
}

pub proof fn lemma_escape_plain(s: Seq<char>)
    ensures
        no_char(escape_spec(s), '\t'),
        no_char(escape_spec(s), '\n'),
    decreases s.len(),
{
    if s.len() > 0 {
        lemma_escape_plain(s.skip(1));
        let e = escape_spec(s);
        let h = esc_char(s[0]);
        let t = escape_spec(s.skip(1));
        assert forall|i: int| 0 <= i < e.len() implies e[i] != '\t' && e[i] != '\n' by {
            if i < h.len() {
                assert(e[i] == h[i]);
            } else {
                assert(e[i] == t[i - h.len()]);
            }
        }
    }
}

/// Reading an escaped field back gives the field.
pub proof fn lemma_unescape_escape(s: Seq<char>)
    ensures
        unescape_spec(escape_spec(s)) == s,
    decreases s.len(),
{
    if s.len() > 0 {
        lemma_unescape_escape(s.skip(1));
        let e = escape_spec(s);
        let t = escape_spec(s.skip(1));
        let c = s[0];
        if c == '\\' || c == '\t' || c == '\n' {
            assert(e.skip(2) =~= t);
            assert(seq![c] + s.skip(1) =~= s);
        } else {
            assert(e.skip(1) =~= t);
            assert(seq![c] + s.skip(1) =~= s);
        }
    }
}

pub fn escape_cache_field(value: &str) -> (r: String)
    ensures
        r@ == escape_spec(value@),
{
    let v = chars_of(value);
    let mut out: Vec<char> = Vec::new();
    let mut i: usize = 0;
    while i < v.len()
        invariant
            i <= v@.len(),
            out@ == escape_spec(v@.take(i as int)),
        decreases v.len() - i,
    {
        let c = v[i];
        let ghost before = out@;
        if c == '\\' {
            out.push('\\');
            out.push('\\');
        } else if c == '\t' {
            out.push('\\');
            out.push('t');
        } else if c == '\n' {
            out.push('\\');
            out.push('n');
        } else {
            out.push(c);
        }
        proof {
            lemma_escape_push(v@.take(i as int), c);
            assert(v@.take(i + 1) =~= v@.take(i as int).push(c));
            assert(out@ =~= before + esc_char(c));
        }
        i += 1;
    }
    assert(v@.take(v@.len() as int) =~= v@);
    string_from(out.as_slice())
}

pub fn unescape_cache_field(value: &str) -> (r: String)
    ensures
        r@ == unescape_spec(value@),
{
    let v = chars_of(value);
    let mut out: Vec<char> = Vec::new();
    let mut i: usize = 0;
    assert(v@.skip(0) =~= v@);
    assert(out@ + unescape_spec(v@) =~= unescape_spec(v@));
    while i < v.len()
        invariant
            i <= v@.len(),
            out@ + unescape_spec(v@.skip(i as int)) == unescape_spec(v@),
        decreases v.len() - i,
    {
        let ghost rest = v@.skip(i as int);
        let c = v[i];
        if c == '\\' {
            if i + 1 == v.len() {
                out.push('\\');
                i += 1;
                proof {
                    assert(rest =~= seq!['\\']);
                    assert(v@.skip(i as int) =~= Seq::<char>::empty());
                    assert(out@ + unescape_spec(v@.skip(i as int)) =~= unescape_spec(v@));
                }
            } else {
                let d = v[i + 1];
                let ghost before = out@;
                if d == 't' {
                    out.push('\t');
                } else if d == 'n' {
                    out.push('\n');
                } else if d == '\\' {
                    out.push('\\');
                } else {
                    out.push('\\');
                    out.push(d);
                }
                i += 2;
                proof {
                    assert(rest[1] == d);
                    assert(rest.skip(2) =~= v@.skip(i as int));
                    assert(out@ + unescape_spec(v@.skip(i as int)) =~= before + unescape_spec(rest));
                }
            }
        } else {
            let ghost before = out@;
            out.push(c);
            i += 1;
            proof {
                assert(rest.skip(1) =~= v@.skip(i as int));
                assert(out@ + unescape_spec(v@.skip(i as int)) =~= before + unescape_spec(rest));
            }
        }
    }
    assert(v@.skip(i as int) =~= Seq::<char>::empty());
    assert(out@ + Seq::<char>::empty() =~= out@);
    string_from(out.as_slice())
}

pub open spec fn stem_char(c: char) -> char {
    if is_ascii_alnum(c) {
        lower_char(c)
    } else {
        '-'
    }
}

pub open spec fn nonempty_parts(parts: Seq<Seq<char>>) -> Seq<Seq<char>>
    decreases parts.len(),
{
    if parts.len() == 0 {
        Seq::empty()
    } else if parts.last().len() > 0 {
        nonempty_parts(parts.drop_last()).push(parts.last())
    } else {
        nonempty_parts(parts.drop_last())
    }
}

/// A name safe for a file: ASCII letters and digits in lower case, runs of anything else as
/// one `-`, none at either end; `mod` if nothing is left.
pub open spec fn safe_stem_spec(value: Seq<char>) -> Seq<char> {
    let mapped = value.map_values(|c: char| stem_char(c));
    let joined = join_seqs(nonempty_parts(split_seq(mapped, '-')), seq!['-']);
    if joined.len() == 0 {
        "mod"@
    } else {
        joined
    }
}

/// The first `n` pieces, or all where `n` is not given or there are fewer.
pub open spec fn limit_parts(parts: Seq<Seq<char>>, n: Option<usize>) -> Seq<Seq<char>> {
    match n {
        Some(n) => if parts.len() <= n {
            parts
        } else {
            parts.take(n as int)
        },
        None => parts,
    }
}

/// The lower-case letters and digits of a text, with each run of anything else as one `-`,
/// none at either end.
pub fn stem_parts_joined(v: &[char]) -> (r: Vec<char>)
    ensures
        r@ == join_seqs(nonempty_parts(split_seq(v@.map_values(|c: char| stem_char(c)), '-')), seq!['-']),
{
    stem_parts_first(v, None)
}

/// As `stem_parts_joined`, keeping only the first `limit` runs of letters and digits where a
/// limit is given.
pub fn stem_parts_first(v: &[char], limit: Option<usize>) -> (r: Vec<char>)
    ensures
        r@ == join_seqs(limit_parts(nonempty_parts(split_seq(v@.map_values(|c: char| stem_char(c)), '-')), limit), seq!['-']),
{
    let mut mapped: Vec<char> = Vec::new();
    let mut i: usize = 0;
    while i < v.len()
        invariant
            i <= v@.len(),
            mapped@ == v@.take(i as int).map_values(|c: char| stem_char(c)),
        decreases v.len() - i,
    {
        let c = v[i];
        mapped.push(if is_ascii_alnum_exec(c) { lower_char_exec(c) } else { '-' });
        i += 1;
        assert(mapped@ =~= v@.take(i as int).map_values(|c: char| stem_char(c)));
    }
    assert(v@.take(v@.len() as int) =~= v@);
    let parts = split_char(mapped.as_slice(), '-');
    let ghost ps = split_seq(mapped@, '-');
    let mut out: Vec<char> = Vec::new();
    let ghost mut kept: Seq<Seq<char>> = Seq::empty();
    let mut count: usize = 0;
    let mut k: usize = 0;
    while k < parts.len()
        invariant
            k <= parts@.len(),
            parts@.len() == ps.len(),
            forall|j: int| 0 <= j < parts@.len() ==> #[trigger] parts@[j]@ == ps[j],
            kept == limit_parts(nonempty_parts(ps.take(k as int)), limit),
            out@ == join_seqs(kept, seq!['-']),
            count == kept.len(),
            count <= k,
            count > 0 ==> out@.len() > 0,
        decreases parts.len() - k,
    {
        proof {
            assert(ps.take(k + 1).drop_last() =~= ps.take(k as int));
            assert(ps.take(k + 1).last() == ps[k as int]);
        }
        let room = match limit {
            Some(n) => count < n,
            None => true,
        };
        proof {
            let all = nonempty_parts(ps.take(k as int));
            if let Some(n) = limit {
                if !room {
                    assert(limit_parts(all, limit).len() == n);
                    assert(all.len() >= n);
                    if parts@[k as int]@.len() > 0 {
                        assert(all.push(ps[k as int]).take(n as int) =~= all.take(n as int));
                    }
                } else {
                    assert(all.len() < n);
                }
            }
        }
        if parts[k].len() > 0 && room {
            if count > 0 {
                out.push('-');
                push_all(&mut out, parts[k].as_slice());
                proof {
                    let nk = kept.push(parts@[k as int]@);
                    assert(nk.drop_last() =~= kept);
                    assert(out@ =~= join_seqs(kept, seq!['-']) + seq!['-'] + parts@[k as int]@);
                    kept = nk;
                }
            } else {
                push_all(&mut out, parts[k].as_slice());
                proof {
                    let nk = kept.push(parts@[k as int]@);
                    assert(out@ =~= parts@[k as int]@);
                    kept = nk;
                }
            }
            count += 1;
        }
        k += 1;
    }
    assert(ps.take(parts@.len() as int) =~= ps);
    out
}

pub fn safe_file_stem(value: &str) -> (r: String)
    ensures
        r@ == safe_stem_spec(value@),
{
    let v = chars_of(value);
    let out = stem_parts_joined(v.as_slice());
    if out.len() == 0 {
        "mod".to_string()
    } else {
        string_from(out.as_slice())
    }
}

/// The id of a deleted mod: the time of deletion, `-`, and the key made safe for a file name.
pub fn deleted_mod_id(epoch: u64, key: &str) -> (r: String)
    ensures
        r@ == dec_seq(epoch as nat) + seq!['-'] + safe_stem_spec(key@),
{
    let mut out = format_u64(epoch);
    out.push('-');
    let s = safe_file_stem(key);
    let sc = chars_of(s.as_str());
    push_all(&mut out, sc.as_slice());
    string_from(out.as_slice())
}

pub fn deleted_mods_dir(config: &AppConfig) -> (r: String)
    ensures
        r@ == join_name_spec(config.state_dir@, "deleted_mods"@),
{
    join_name_str(config.state_dir.as_str(), "deleted_mods")
}

pub fn deleted_mod_index_path(config: &AppConfig) -> (r: String)
    ensures
        r@ == join_name_spec(config.state_dir@, "deleted_mods.tsv"@),
{
    join_name_str(config.state_dir.as_str(), "deleted_mods.tsv")
}

pub fn deleted_mod_tombstones_path(config: &AppConfig) -> (r: String)
    ensures
        r@ == join_name_spec(config.state_dir@, "deleted_mod_tombstones.tsv"@),
{
    join_name_str(config.state_dir.as_str(), "deleted_mod_tombstones.tsv")
}


/// A deleted mod whose files wait in the backup folder.
pub struct DeletedModEntry {
    pub id: String,
    pub key: String,
    pub name: String,
    pub original_path: String,
    pub backup_path: String,
    pub deleted_epoch: u64,
    pub bytes: u64,
}

pub struct DeletedView {
    pub id: Seq<char>,
    pub key: Seq<char>,
    pub name: Seq<char>,
    pub original_path: Seq<char>,
    pub backup_path: Seq<char>,
    pub deleted_epoch: u64,
    pub bytes: u64,
}

impl View for DeletedModEntry {
    type V = DeletedView;

    open spec fn view(&self) -> DeletedView {
        DeletedView {
            id: self.id@,
            key: self.key@,
            name: self.name@,
            original_path: self.original_path@,
            backup_path: self.backup_path@,
            deleted_epoch: self.deleted_epoch,
            bytes: self.bytes,
        }
    }
}

pub open spec fn entries_view(v: Seq<DeletedModEntry>) -> Seq<DeletedView> {
    Seq::new(v.len(), |i: int| v[i]@)
}

pub fn copy_entry(e: &DeletedModEntry) -> (r: DeletedModEntry)
    ensures
        r@ == e@,
{
    DeletedModEntry {
        id: e.id.clone(),
        key: e.key.clone(),
        name: e.name.clone(),
        original_path: e.original_path.clone(),
        backup_path: e.backup_path.clone(),
        deleted_epoch: e.deleted_epoch,
        bytes: e.bytes,
    }
}

pub open spec fn index_header() -> Seq<char> {
    "id\tkey\tname\toriginal_path\tdeleted_epoch\tbackup_path\tbytes"@
}

pub open spec fn row_fields(e: DeletedView) -> Seq<Seq<char>> {
    seq![
        escape_spec(e.id),
        escape_spec(e.key),
        escape_spec(e.name),
        escape_spec(e.original_path),
        dec_seq(e.deleted_epoch as nat),
        escape_spec(e.backup_path),
        dec_seq(e.bytes as nat),
    ]
}

pub open spec fn index_row(e: DeletedView) -> Seq<char> {
    join_seqs(row_fields(e), seq!['\t'])
}

pub open spec fn index_rows(es: Seq<DeletedView>) -> Seq<Seq<char>> {
    Seq::new(es.len(), |i: int| index_row(es[i]))
}

/// The text of the deleted-mods index: a header line, then one tab-separated line per entry.
pub open spec fn index_text_spec(es: Seq<DeletedView>) -> Seq<char> {
    terminated(seq![index_header()] + index_rows(es))
}

/// One line of the index read back, where it has seven fields and two numbers.
pub open spec fn parse_row_spec(line: Seq<char>) -> Option<DeletedView> {
    let parts = split_seq(line, '\t');
    if parts.len() != 7 {
        None
    } else {
        match (parse_u64_spec(parts[4]), parse_u64_spec(parts[6])) {
            (Some(d), Some(b)) => Some(
                DeletedView {
                    id: unescape_spec(parts[0]),
                    key: unescape_spec(parts[1]),
                    name: unescape_spec(parts[2]),
                    original_path: unescape_spec(parts[3]),
                    backup_path: unescape_spec(parts[5]),
                    deleted_epoch: d,
                    bytes: b,
                },
            ),
            _ => None,
        }
    }
}

pub open spec fn parse_rows_spec(rows: Seq<Seq<char>>) -> Seq<DeletedView>
    decreases rows.len(),
{
    if rows.len() == 0 {
        Seq::empty()
    } else {
        match parse_row_spec(rows.last()) {
            Some(e) => parse_rows_spec(rows.drop_last()).push(e),
            None => parse_rows_spec(rows.drop_last()),
        }
    }
}

pub open spec fn is_header_line(l: Seq<char>) -> bool {
    l.len() >= 3 && l.take(3) == seq!['i', 'd', '\t']
}

/// The entries of the index file, in file order; a first line that starts with `id<TAB>`
/// is the header, and lines that do not read as an entry are passed over.
pub open spec fn parse_index_spec(content: Seq<char>) -> Seq<DeletedView> {
    let ls = lines_seq(content);
    if ls.len() > 0 && is_header_line(ls[0]) {
        parse_rows_spec(ls.skip(1))
    } else {
        parse_rows_spec(ls)
    }
}

pub proof fn lemma_split_join(parts: Seq<Seq<char>>, sep: char)
    requires
        parts.len() >= 1,
        forall|i: int| 0 <= i < parts.len() ==> no_char(#[trigger] parts[i], sep),
    ensures
        split_seq(join_seqs(parts, seq![sep]), sep) == parts,
    decreases parts.len(),
{
    if parts.len() == 1 {
        assert(no_char(parts[0], sep));
        lemma_split_append_plain(Seq::<char>::empty(), parts[0], sep);
        assert(Seq::<char>::empty() + parts[0] =~= parts[0]);
        assert(split_seq(Seq::<char>::empty(), sep) =~= seq![Seq::<char>::empty()]);
        assert(seq![Seq::<char>::empty()].update(0, Seq::<char>::empty() + parts[0]) =~= parts);
    } else {
        let prev = parts.drop_last();
        assert forall|i: int| 0 <= i < prev.len() implies no_char(#[trigger] prev[i], sep) by {
            assert(prev[i] == parts[i]);
        }
        lemma_split_join(prev, sep);
        let x = join_seqs(prev, seq![sep]);
        let l = parts.last();
        assert(no_char(parts[parts.len() - 1], sep));
        let xs = x + seq![sep];
        lemma_split_append_plain(xs, l, sep);
        assert(xs.drop_last() =~= x);
        assert(xs.last() == sep);
        assert(split_seq(xs, sep) == prev.push(Seq::<char>::empty()));
        assert(join_seqs(parts, seq![sep]) =~= xs + l);
        let q = prev.push(Seq::<char>::empty());
        assert(Seq::<char>::empty() + l =~= l);
        assert(q.update(q.len() - 1, q.last() + l) =~= parts);
    }
}

proof fn lemma_row_round_trip(e: DeletedView)
    ensures
        parse_row_spec(index_row(e)) == Some(e),
        no_char(index_row(e), '\n'),
        !(index_row(e).len() > 0 && index_row(e).last() == '\r'),
{
    let f = row_fields(e);
    lemma_escape_plain(e.id);
    lemma_escape_plain(e.key);
    lemma_escape_plain(e.name);
    lemma_escape_plain(e.original_path);
    lemma_escape_plain(e.backup_path);
    lemma_dec_digits(e.deleted_epoch as nat);
    lemma_dec_digits(e.bytes as nat);
    assert forall|i: int| 0 <= i < f.len() implies no_char(#[trigger] f[i], '\t') && no_char(f[i], '\n') by {
        if i == 4 || i == 6 {
            assert(all_digits(f[i]));
        }
    }
    lemma_split_join(f, '\t');
    lemma_unescape_escape(e.id);
    lemma_unescape_escape(e.key);
    lemma_unescape_escape(e.name);
    lemma_unescape_escape(e.original_path);
    lemma_unescape_escape(e.backup_path);
    lemma_parse_format_u64(e.deleted_epoch);
    lemma_parse_format_u64(e.bytes);
    lemma_join_no_char(f, '\t', '\n');
    lemma_join_last(f, seq!['\t']);
    assert(all_digits(dec_seq(e.bytes as nat)));
}

pub proof fn lemma_join_no_char(parts: Seq<Seq<char>>, sep: char, c: char)
    requires
        sep != c,
        forall|i: int| 0 <= i < parts.len() ==> no_char(#[trigger] parts[i], c),
    ensures
        no_char(join_seqs(parts, seq![sep]), c),
    decreases parts.len(),
{
    if parts.len() > 1 {
        let prev = parts.drop_last();
        assert forall|i: int| 0 <= i < prev.len() implies no_char(#[trigger] prev[i], c) by {
            assert(prev[i] == parts[i]);
        }
        lemma_join_no_char(prev, sep, c);
        let j = join_seqs(parts, seq![sep]);
        let x = join_seqs(prev, seq![sep]);
        let l = parts.last();
        assert(no_char(parts[parts.len() - 1], c));
        assert forall|i: int| 0 <= i < j.len() implies j[i] != c by {
            if i < x.len() {
                assert(j[i] == x[i]);
            } else if i > x.len() {
                assert(j[i] == l[i - x.len() - 1]);
            }
        }
    } else if parts.len() == 1 {
        assert(no_char(parts[0], c));
    }
}

pub proof fn lemma_join_last(parts: Seq<Seq<char>>, sep: Seq<char>)
    requires
        parts.len() >= 1,
        parts.last().len() > 0,
    ensures
        join_seqs(parts, sep).len() > 0,
        join_seqs(parts, sep).last() == parts.last().last(),
{
    if parts.len() > 1 {
        let x = join_seqs(parts.drop_last(), sep);
        assert(join_seqs(parts, sep) == x + sep + parts.last());
    }
}

/// Writing the index and reading it back gives the same entries, in the same order.
pub proof fn lemma_index_round_trip(es: Seq<DeletedView>)
    ensures
        parse_index_spec(index_text_spec(es)) == es,
{
    let ls = seq![index_header()] + index_rows(es);
    reveal_strlit("id\tkey\tname\toriginal_path\tdeleted_epoch\tbackup_path\tbytes");
    assert forall|i: int| 0 <= i < ls.len() implies no_char(#[trigger] ls[i], '\n') && !(ls[i].len() > 0
        && ls[i].last() == '\r') by {
        if i > 0 {
            assert(ls[i] == index_row(es[i - 1]));
            lemma_row_round_trip(es[i - 1]);
        }
    }
    lemma_lines_terminated(ls);
    assert(ls[0] == index_header());
    assert(index_header().take(3) =~= seq!['i', 'd', '\t']);
    assert(is_header_line(ls[0]));
    assert(ls.skip(1) =~= index_rows(es));
    lemma_parse_rows(es);
}

proof fn lemma_parse_rows(es: Seq<DeletedView>)
    ensures
        parse_rows_spec(index_rows(es)) == es,
    decreases es.len(),
{
    if es.len() > 0 {
        lemma_parse_rows(es.drop_last());
        assert(index_rows(es).drop_last() =~= index_rows(es.drop_last()));
        lemma_row_round_trip(es.last());
        assert(index_rows(es).last() == index_row(es.last()));
        assert(es.drop_last().push(es.last()) =~= es);
    } else {
        assert(index_rows(es) =~= Seq::<Seq<char>>::empty());
    }
}

fn push_field_tab(out: &mut Vec<char>, field: &[char])
    ensures
        final(out)@ == old(out)@ + field@ + seq!['\t'],
{
    push_all(out, field);
    out.push('\t');
}

fn entry_row(e: &DeletedModEntry) -> (r: Vec<char>)
    ensures
        r@ == index_row(e@),
{
    let mut out: Vec<char> = Vec::new();
    let a = escape_cache_field(e.id.as_str());
    push_field_tab(&mut out, chars_of(a.as_str()).as_slice());
    let b = escape_cache_field(e.key.as_str());
    push_field_tab(&mut out, chars_of(b.as_str()).as_slice());
    let c = escape_cache_field(e.name.as_str());
    push_field_tab(&mut out, chars_of(c.as_str()).as_slice());
    let d = escape_cache_field(e.original_path.as_str());
    push_field_tab(&mut out, chars_of(d.as_str()).as_slice());
    let ep = format_u64(e.deleted_epoch);
    push_field_tab(&mut out, ep.as_slice());
    let f = escape_cache_field(e.backup_path.as_str());
    push_field_tab(&mut out, chars_of(f.as_str()).as_slice());
    let by = format_u64(e.bytes);
    push_all(&mut out, by.as_slice());
    proof {
        let fs = row_fields(e@);
        reveal_with_fuel(join_seqs, 8);
        assert(fs.drop_last().drop_last().drop_last().drop_last().drop_last().drop_last() =~= seq![fs[0]]);
        assert(fs.drop_last().drop_last().drop_last().drop_last().drop_last() =~= seq![fs[0], fs[1]]);
        assert(fs.drop_last().drop_last().drop_last().drop_last() =~= seq![fs[0], fs[1], fs[2]]);
        assert(fs.drop_last().drop_last().drop_last() =~= seq![fs[0], fs[1], fs[2], fs[3]]);
        assert(fs.drop_last().drop_last() =~= seq![fs[0], fs[1], fs[2], fs[3], fs[4]]);
        assert(fs.drop_last() =~= seq![fs[0], fs[1], fs[2], fs[3], fs[4], fs[5]]);
        assert(out@ =~= index_row(e@));
    }
    out
}

/// The text of the deleted-mods index for these entries.
pub fn write_deleted_mod_entries(entries: &Vec<DeletedModEntry>) -> (r: String)
    ensures
        r@ == index_text_spec(entries_view(entries@)),
{
    let mut out = chars_of("id\tkey\tname\toriginal_path\tdeleted_epoch\tbackup_path\tbytes");
    out.push('\n');
    let ghost mut ls: Seq<Seq<char>> = seq![index_header()];
    proof {
        lemma_terminated_push(Seq::<Seq<char>>::empty(), index_header());
        assert(Seq::<Seq<char>>::empty().push(index_header()) =~= ls);
        assert(terminated(Seq::<Seq<char>>::empty()) =~= Seq::<char>::empty());
        assert(out@ =~= terminated(ls));
    }
    let mut i: usize = 0;
    while i < entries.len()
        invariant
            i <= entries@.len(),
            ls == seq![index_header()] + index_rows(entries_view(entries@).take(i as int)),
            out@ == terminated(ls),
        decreases entries.len() - i,
    {
        let row = entry_row(&entries[i]);
        push_all(&mut out, row.as_slice());
        out.push('\n');
        proof {
            lemma_terminated_push(ls, row@);
            ls = ls.push(row@);
            assert(entries_view(entries@)[i as int] == entries@[i as int]@);
            assert(seq![index_header()] + index_rows(entries_view(entries@).take(i + 1)) =~= ls);
        }
        i += 1;
    }
    assert(entries_view(entries@).take(i as int) =~= entries_view(entries@));
    string_from(out.as_slice())
}

fn parse_row(line: &[char]) -> (r: Option<DeletedModEntry>)
    ensures
        match r {
            Some(e) => parse_row_spec(line@) == Some(e@),
            None => parse_row_spec(line@) is None,
        },
{
    let parts = split_char(line, '\t');
    if parts.len() != 7 {
        return None;
    }
    let d = match parse_u64(parts[4].as_slice()) {
        Some(d) => d,
        None => return None,
    };
    let b = match parse_u64(parts[6].as_slice()) {
        Some(b) => b,
        None => return None,
    };
    let p0 = string_from(parts[0].as_slice());
    let p1 = string_from(parts[1].as_slice());
    let p2 = string_from(parts[2].as_slice());
    let p3 = string_from(parts[3].as_slice());
    let p5 = string_from(parts[5].as_slice());
    Some(
        DeletedModEntry {
            id: unescape_cache_field(p0.as_str()),
            key: unescape_cache_field(p1.as_str()),
            name: unescape_cache_field(p2.as_str()),
            original_path: unescape_cache_field(p3.as_str()),
            backup_path: unescape_cache_field(p5.as_str()),
            deleted_epoch: d,
            bytes: b,
        },
    )
}

/// Every entry of the index file's text, in file order.
pub fn parse_deleted_mod_index(content: &str) -> (r: Vec<DeletedModEntry>)
    ensures
        entries_view(r@) == parse_index_spec(content@),
{
    let c = chars_of(content);
    let ls = lines(c.as_slice());
    let ghost lq = lines_seq(content@);
    let mut start: usize = 0;
    if ls.len() > 0 {
        let h = chars_of("id\t");
        proof {
            reveal_strlit("id\t");
            assert(h@ =~= seq!['i', 'd', '\t']);
            assert(ls@[0]@ == lq[0]);
        }
        if starts_with(ls[0].as_slice(), h.as_slice()) {
            start = 1;
        }
    }
    let ghost rows = lq.skip(start as int);
    assert(start == 1 ==> is_header_line(lq[0]) && ls@.len() > 0);
    assert(start == 0 ==> !(lq.len() > 0 && is_header_line(lq[0])));
    let mut out: Vec<DeletedModEntry> = Vec::new();
    let mut i: usize = start;
    while i < ls.len()
        invariant
            start <= i <= ls@.len(),
            ls@.len() == lq.len(),
            forall|k: int| 0 <= k < ls@.len() ==> #[trigger] ls@[k]@ == lq[k],
            rows == lq.skip(start as int),
            entries_view(out@) == parse_rows_spec(rows.take(i - start)),
        decreases ls.len() - i,
    {
        let ghost before = out@;
        match parse_row(ls[i].as_slice()) {
            Some(e) => {
                out.push(e);
            },
            None => {},
        }
        proof {
            let t = rows.take(i + 1 - start);
            assert(t.drop_last() =~= rows.take(i - start));
            assert(t.last() == lq[i as int]);
            assert(entries_view(out@) =~= parse_rows_spec(t));
        }
        i += 1;
    }
    assert(rows.take(i - start) =~= rows);
    assert(start == 0 ==> rows =~= lq);
    out
}


/// Entries whose backup is still there, kept in their order.
pub open spec fn with_backup_spec(es: Seq<DeletedView>, exists: Seq<bool>) -> Seq<DeletedView>
    decreases es.len(),
{
    if es.len() == 0 {
        Seq::empty()
    } else {
        let prev = with_backup_spec(es.drop_last(), exists.take(es.len() - 1));
        if exists[es.len() - 1] {
            prev.push(es.last())
        } else {
            prev
        }
    }
}

/// Number of leading entries deleted at `epoch` or later.
pub open spec fn lead_not_older(t: Seq<DeletedView>, epoch: u64) -> nat
    decreases t.len(),
{
    if t.len() > 0 && t[0].deleted_epoch >= epoch {
        1 + lead_not_older(t.skip(1), epoch)
    } else {
        0
    }
}

/// Newest first; among entries deleted at the same second, the earlier in the file first.
pub open spec fn newest_first(es: Seq<DeletedView>) -> Seq<DeletedView>
    decreases es.len(),
{
    if es.len() == 0 {
        Seq::empty()
    } else {
        let t = newest_first(es.drop_last());
        t.insert(lead_not_older(t, es.last().deleted_epoch) as int, es.last())
    }
}

proof fn lemma_lead_not_older(t: Seq<DeletedView>, epoch: u64, k: int)
    requires
        0 <= k <= t.len(),
        forall|j: int| 0 <= j < k ==> (#[trigger] t[j]).deleted_epoch >= epoch,
        k == t.len() || t[k].deleted_epoch < epoch,
    ensures
        lead_not_older(t, epoch) == k,
    decreases k,
{
    if k > 0 {
        let u = t.skip(1);
        assert forall|j: int| 0 <= j < k - 1 implies (#[trigger] u[j]).deleted_epoch >= epoch by {
            assert(u[j] == t[j + 1]);
        }
        if k < t.len() {
            assert(u[k - 1] == t[k]);
        }
        lemma_lead_not_older(u, epoch, k - 1);
    }
}

/// The entries whose backup still exists (`backup_exists` says so, entry by entry), newest
/// first.
pub fn read_deleted_mod_entries(entries: Vec<DeletedModEntry>, backup_exists: &Vec<bool>) -> (r: Vec<
    DeletedModEntry,
>)
    requires
        backup_exists@.len() == entries@.len(),
    ensures
        entries_view(r@) == newest_first(with_backup_spec(entries_view(entries@), backup_exists@)),
{
    let mut kept: Vec<DeletedModEntry> = Vec::new();
    let mut i: usize = 0;
    let ghost ev = entries_view(entries@);
    while i < entries.len()
        invariant
            i <= entries@.len(),
            backup_exists@.len() == entries@.len(),
            ev == entries_view(entries@),
            entries_view(kept@) == with_backup_spec(ev.take(i as int), backup_exists@.take(i as int)),
        decreases entries.len() - i,
    {
        let ghost before = kept@;
        if backup_exists[i] {
            kept.push(copy_entry(&entries[i]));
        }
        proof {
            let t = ev.take(i + 1);
            assert(t.drop_last() =~= ev.take(i as int));
            assert(backup_exists@.take(i + 1).take(i as int) =~= backup_exists@.take(i as int));
            assert(t.last() == entries@[i as int]@);
            assert(entries_view(kept@) =~= with_backup_spec(t, backup_exists@.take(i + 1)));
        }
        i += 1;
    }
    assert(ev.take(i as int) =~= ev);
    assert(backup_exists@.take(i as int) =~= backup_exists@);
    let ghost src = entries_view(kept@);
    let mut out: Vec<DeletedModEntry> = Vec::new();
    let mut m: usize = 0;
    while m < kept.len()
        invariant
            m <= kept@.len(),
            src == entries_view(kept@),
            entries_view(out@) == newest_first(src.take(m as int)),
            out@.len() == m,
        decreases kept.len() - m,
    {
        let epoch = kept[m].deleted_epoch;
        let mut k: usize = 0;
        while k < out.len() && out[k].deleted_epoch >= epoch
            invariant
                k <= out@.len(),
                forall|j: int| 0 <= j < k ==> (#[trigger] out@[j]).deleted_epoch >= epoch,
            decreases out.len() - k,
        {
            k += 1;
        }
        proof {
            let t = entries_view(out@);
            assert forall|j: int| 0 <= j < k implies (#[trigger] t[j]).deleted_epoch >= epoch by {
                assert(t[j] == out@[j]@);
            }
            if k < t.len() {
                assert(t[k as int] == out@[k as int]@);
            }
            lemma_lead_not_older(t, epoch, k as int);
        }
        let ghost before = out@;
        let e = copy_entry(&kept[m]);
        out.insert(k, e);
        proof {
            let s2 = src.take(m + 1);
            assert(s2.drop_last() =~= src.take(m as int));
            assert(s2.last() == kept@[m as int]@);
            assert(entries_view(out@) =~= entries_view(before).insert(k as int, e@));
        }
        m += 1;
    }
    assert(src.take(m as int) =~= src);
    out
}

pub open spec fn replaced_by(e: DeletedView, n: DeletedView) -> bool {
    e.id == n.id || e.key == n.key
}

pub open spec fn without_spec(es: Seq<DeletedView>, n: DeletedView) -> Seq<DeletedView>
    decreases es.len(),
{
    if es.len() == 0 {
        Seq::empty()
    } else if replaced_by(es.last(), n) {
        without_spec(es.drop_last(), n)
    } else {
        without_spec(es.drop_last(), n).push(es.last())
    }
}

pub open spec fn replaced_backups_spec(es: Seq<DeletedView>, n: DeletedView) -> Seq<Seq<char>>
    decreases es.len(),
{
    if es.len() == 0 {
        Seq::empty()
    } else if replaced_by(es.last(), n) {
        replaced_backups_spec(es.drop_last(), n).push(es.last().backup_path)
    } else {
        replaced_backups_spec(es.drop_last(), n)
    }
}

/// Records a deletion: entries with the same id or key give way to the new entry, which
/// goes last. Also gives the backup paths of the entries that gave way, for removal.
pub fn upsert_deleted_mod_entry(entries: &Vec<DeletedModEntry>, entry: DeletedModEntry) -> (r: (
    Vec<DeletedModEntry>,
    Vec<String>,
))
    ensures
        entries_view(r.0@) == without_spec(entries_view(entries@), entry@).push(entry@),
        crate::logs::strings_view(r.1@) == replaced_backups_spec(entries_view(entries@), entry@),
{
    let mut kept: Vec<DeletedModEntry> = Vec::new();
    let mut gone: Vec<String> = Vec::new();
    let ghost ev = entries_view(entries@);
    let mut i: usize = 0;
    while i < entries.len()
        invariant
            i <= entries@.len(),
            ev == entries_view(entries@),
            entries_view(kept@) == without_spec(ev.take(i as int), entry@),
            crate::logs::strings_view(gone@) == replaced_backups_spec(ev.take(i as int), entry@),
        decreases entries.len() - i,
    {
        let e = &entries[i];
        let ghost bk = kept@;
        let ghost bg = gone@;
        let same_id = crate::text::seq_eq(chars_of(e.id.as_str()).as_slice(), chars_of(entry.id.as_str()).as_slice());
        let same_key = crate::text::seq_eq(chars_of(e.key.as_str()).as_slice(), chars_of(entry.key.as_str()).as_slice());
        if same_id || same_key {
            gone.push(e.backup_path.clone());
        } else {
            kept.push(copy_entry(e));
        }
        proof {
            let t = ev.take(i + 1);
            assert(t.drop_last() =~= ev.take(i as int));
            assert(t.last() == e@);
            assert(entries_view(kept@) =~= without_spec(t, entry@));
            assert(crate::logs::strings_view(gone@) =~= replaced_backups_spec(t, entry@));
        }
        i += 1;
    }
    assert(ev.take(i as int) =~= ev);
    let ghost bk = kept@;
    kept.push(entry);
    assert(entries_view(kept@) =~= entries_view(bk).push(kept@[kept@.len() - 1]@));
    (kept, gone)
}

pub open spec fn remove_id_spec(es: Seq<DeletedView>, id: Seq<char>) -> Seq<DeletedView>
    decreases es.len(),
{
    if es.len() == 0 {
        Seq::empty()
    } else if es.last().id == id {
        remove_id_spec(es.drop_last(), id)
    } else {
        remove_id_spec(es.drop_last(), id).push(es.last())
    }
}

/// The entries without those of the given id.
pub fn remove_deleted_mod_entry(entries: &Vec<DeletedModEntry>, id: &str) -> (r: Vec<DeletedModEntry>)
    ensures
        entries_view(r@) == remove_id_spec(entries_view(entries@), id@),
{
    let mut kept: Vec<DeletedModEntry> = Vec::new();
    let ghost ev = entries_view(entries@);
    let idc = chars_of(id);
    let mut i: usize = 0;
    while i < entries.len()
        invariant
            i <= entries@.len(),
            ev == entries_view(entries@),
            idc@ == id@,
            entries_view(kept@) == remove_id_spec(ev.take(i as int), id@),
        decreases entries.len() - i,
    {
        let e = &entries[i];
        let ghost bk = kept@;
        if !crate::text::seq_eq(chars_of(e.id.as_str()).as_slice(), idc.as_slice()) {
            kept.push(copy_entry(e));
        }
        proof {
            let t = ev.take(i + 1);
            assert(t.drop_last() =~= ev.take(i as int));
            assert(t.last() == e@);
            assert(entries_view(kept@) =~= remove_id_spec(t, id@));
        }
        i += 1;
    }
    assert(ev.take(i as int) =~= ev);
    kept
}


pub open spec fn newest_first_order(t: Seq<DeletedView>) -> bool {
    forall|i: int, j: int| 0 <= i < j < t.len() ==> t[i].deleted_epoch >= t[j].deleted_epoch
}

proof fn lemma_lead_facts(t: Seq<DeletedView>, epoch: u64)
    ensures
        lead_not_older(t, epoch) <= t.len(),
        forall|j: int| 0 <= j < lead_not_older(t, epoch) ==> (#[trigger] t[j]).deleted_epoch >= epoch,
        lead_not_older(t, epoch) < t.len() ==> t[lead_not_older(t, epoch) as int].deleted_epoch < epoch,
    decreases t.len(),
{
    if t.len() > 0 && t[0].deleted_epoch >= epoch {
        let u = t.skip(1);
        lemma_lead_facts(u, epoch);
        assert forall|j: int| 0 <= j < lead_not_older(t, epoch) implies (#[trigger] t[j]).deleted_epoch
            >= epoch by {
            if j > 0 {
                assert(t[j] == u[j - 1]);
            }
        }
        if lead_not_older(t, epoch) < t.len() {
            assert(t[lead_not_older(t, epoch) as int] == u[lead_not_older(u, epoch) as int]);
        }
    }
}

/// The deleted mods are listed newest first.
pub proof fn lemma_newest_first_sorted(es: Seq<DeletedView>)
    ensures
        newest_first_order(newest_first(es)),
        newest_first(es).len() == es.len(),
    decreases es.len(),
{
    if es.len() > 0 {
        let t = newest_first(es.drop_last());
        lemma_newest_first_sorted(es.drop_last());
        let e = es.last();
        let k = lead_not_older(t, e.deleted_epoch);
        lemma_lead_facts(t, e.deleted_epoch);
        let r = t.insert(k as int, e);
        assert forall|i: int, j: int| 0 <= i < j < r.len() implies r[i].deleted_epoch >= r[j].deleted_epoch by {
            if j < k {
                assert(r[i] == t[i] && r[j] == t[j]);
            } else if j == k {
                assert(r[j] == e);
                assert(r[i] == t[i]);
            } else if i < k {
                assert(r[i] == t[i]);
                assert(r[j] == t[j - 1]);
            } else if i == k {
                assert(r[i] == e);
                assert(r[j] == t[j - 1]);
                assert(t[k as int].deleted_epoch < e.deleted_epoch);
                if j - 1 > k {
                    assert(t[k as int].deleted_epoch >= t[j - 1].deleted_epoch);
                }
            } else {
                assert(r[i] == t[i - 1] && r[j] == t[j - 1]);
            }
        }
    }
}

proof fn lemma_without_excludes(es: Seq<DeletedView>, n: DeletedView)
    ensures
        forall|i: int| 0 <= i < without_spec(es, n).len() ==> !replaced_by(#[trigger] without_spec(es, n)[i], n),
    decreases es.len(),
{
    if es.len() > 0 {
        lemma_without_excludes(es.drop_last(), n);
        let p = without_spec(es.drop_last(), n);
        let w = without_spec(es, n);
        assert forall|i: int| 0 <= i < w.len() implies !replaced_by(#[trigger] w[i], n) by {
            if i < p.len() {
                assert(w[i] == p[i]);
            }
        }
    }
}

/// After a deletion is recorded, its entry is the only one with its id and the only one with
/// its key, and it is the last.
pub proof fn lemma_upsert_unique(es: Seq<DeletedView>, n: DeletedView)
    ensures
        ({
            let r = without_spec(es, n).push(n);
            &&& r.last() == n
            &&& forall|i: int| 0 <= i < r.len() - 1 ==> (#[trigger] r[i]).id != n.id && r[i].key != n.key
        }),
{
    lemma_without_excludes(es, n);
    let w = without_spec(es, n);
    let r = w.push(n);
    assert forall|i: int| 0 <= i < r.len() - 1 implies (#[trigger] r[i]).id != n.id && r[i].key != n.key by {
        assert(r[i] == w[i]);
    }
}

/// Removing an id leaves no entry with it.
pub proof fn lemma_remove_excludes(es: Seq<DeletedView>, id: Seq<char>)
    ensures
        forall|i: int| 0 <= i < remove_id_spec(es, id).len() ==> (#[trigger] remove_id_spec(es, id)[i]).id != id,
    decreases es.len(),
{
    if es.len() > 0 {
        lemma_remove_excludes(es.drop_last(), id);
        let p = remove_id_spec(es.drop_last(), id);
        let w = remove_id_spec(es, id);
        assert forall|i: int| 0 <= i < w.len() implies (#[trigger] w[i]).id != id by {
            if i < p.len() {
                assert(w[i] == p[i]);
            }
        }
    }
}


/// No key occurs twice.
pub open spec fn distinct_keys(v: Seq<String>) -> bool {
    forall|i: int, j: int| 0 <= i < j < v.len() ==> v[i]@ != v[j]@
}

/// Whether a key is among the strings.
pub fn contains_key(v: &Vec<String>, k: &str) -> (r: bool)
    ensures
        r == keys_set(v@).contains(k@),
{
    let kc = chars_of(k);
    let mut i: usize = 0;
    while i < v.len()
        invariant
            i <= v@.len(),
            kc@ == k@,
            forall|j: int| 0 <= j < i ==> (#[trigger] v@[j])@ != k@,
        decreases v.len() - i,
    {
        if seq_eq(chars_of(v[i].as_str()).as_slice(), kc.as_slice()) {
            assert(keys_set(v@).contains(k@)) by {
                assert(v@[i as int]@ == k@);
            }
            return true;
        }
        i += 1;
    }
    assert(!keys_set(v@).contains(k@)) by {
        if keys_set(v@).contains(k@) {
            let j = choose|j: int| 0 <= j < v@.len() && (#[trigger] v@[j])@ == k@;
            assert(v@[j]@ != k@);
        }
    }
    false
}

/// Adds a key unless it is already there.
pub fn remember_deleted_mod_tombstone(keys: &mut Vec<String>, key: &str)
    requires
        distinct_keys(old(keys)@),
    ensures
        keys_set(final(keys)@) == keys_set(old(keys)@).insert(key@),
        distinct_keys(final(keys)@),
{
    if contains_key(keys, key) {
        assert(keys_set(keys@).insert(key@) =~= keys_set(keys@));
        return ;
    }
    let ghost before = keys@;
    keys.push(key.to_string());
    proof {
        assert(keys_set(keys@) =~= keys_set(before).insert(key@)) by {
            assert forall|k: Seq<char>| keys_set(keys@).contains(k) implies keys_set(before).insert(
                key@,
            ).contains(k) by {
                let j = choose|j: int| 0 <= j < keys@.len() && (#[trigger] keys@[j])@ == k;
                if j < before.len() {
                    assert(before[j] == keys@[j]);
                }
            }
            assert forall|k: Seq<char>| keys_set(before).insert(key@).contains(k) implies keys_set(
                keys@,
            ).contains(k) by {
                if k == key@ {
                    assert(keys@[before.len() as int]@ == k);
                } else {
                    let j = choose|j: int| 0 <= j < before.len() && (#[trigger] before[j])@ == k;
                    assert(keys@[j] == before[j]);
                }
            }
        }
        assert forall|i: int, j: int| 0 <= i < j < keys@.len() implies keys@[i]@ != keys@[j]@ by {
            if j == before.len() {
                assert(keys@[i] == before[i]);
                assert(!keys_set(before).contains(key@));
                if keys@[i]@ == key@ {
                    assert(keys_set(before).contains(key@));
                }
            } else {
                assert(keys@[i] == before[i] && keys@[j] == before[j]);
            }
        }
    }
}

pub open spec fn without_key(v: Seq<String>, key: Seq<char>) -> Seq<String>
    decreases v.len(),
{
    if v.len() == 0 {
        Seq::empty()
    } else if v.last()@ == key {
        without_key(v.drop_last(), key)
    } else {
        without_key(v.drop_last(), key).push(v.last())
    }
}

proof fn lemma_without_key(v: Seq<String>, key: Seq<char>)
    ensures
        keys_set(without_key(v, key)) == keys_set(v).remove(key),
        distinct_keys(v) ==> distinct_keys(without_key(v, key)),
        forall|i: int| 0 <= i < without_key(v, key).len() ==> exists|j: int| 0 <= j < v.len() && (#[trigger] without_key(v, key)[i]) == v[j],
    decreases v.len(),
{
    if v.len() > 0 {
        let p = v.drop_last();
        lemma_without_key(p, key);
        let w = without_key(v, key);
        let wp = without_key(p, key);
        assert forall|i: int| 0 <= i < w.len() implies exists|j: int| 0 <= j < v.len() && (#[trigger] w[i]) == v[j] by {
            if i < wp.len() {
                assert(w[i] == wp[i]);
                let j = choose|j: int| 0 <= j < p.len() && wp[i] == p[j];
                assert(v[j] == p[j]);
            } else {
                assert(w[i] == v[v.len() - 1]);
            }
        }
        assert(keys_set(w) =~= keys_set(v).remove(key)) by {
            assert forall|k: Seq<char>| keys_set(w).contains(k) implies keys_set(v).remove(key).contains(k) by {
                let i = choose|i: int| 0 <= i < w.len() && (#[trigger] w[i])@ == k;
                if i < wp.len() {
                    assert(w[i] == wp[i]);
                    assert(keys_set(wp).contains(k));
                    let j = choose|j: int| 0 <= j < p.len() && (#[trigger] p[j])@ == k;
                    assert(v[j] == p[j]);
                } else {
                    assert(w[i] == v[v.len() - 1]);
                }
            }
            assert forall|k: Seq<char>| keys_set(v).remove(key).contains(k) implies keys_set(w).contains(k) by {
                let j = choose|j: int| 0 <= j < v.len() && (#[trigger] v[j])@ == k;
                if j < p.len() {
                    assert(p[j] == v[j]);
                    assert(keys_set(p).remove(key).contains(k));
                    let i = choose|i: int| 0 <= i < wp.len() && (#[trigger] wp[i])@ == k;
                    assert(w[i] == wp[i]);
                } else {
                    assert(w[w.len() - 1] == v[j]);
                }
            }
        }
        if distinct_keys(v) {
            assert(distinct_keys(p)) by {
                assert forall|i: int, j: int| 0 <= i < j < p.len() implies p[i]@ != p[j]@ by {
                    assert(p[i] == v[i] && p[j] == v[j]);
                }
            }
            assert forall|i: int, j: int| 0 <= i < j < w.len() implies w[i]@ != w[j]@ by {
                if j < wp.len() {
                    assert(w[i] == wp[i] && w[j] == wp[j]);
                } else {
                    assert(w[j] == v[v.len() - 1]);
                    assert(w[i] == wp[i]);
                    let m = choose|m: int| 0 <= m < p.len() && wp[i] == p[m];
                    assert(v[m] == p[m]);
                }
            }
        }
    } else {
        assert(keys_set(v) =~= Set::<Seq<char>>::empty());
        assert(keys_set(without_key(v, key)) =~= Set::<Seq<char>>::empty());
    }
}

/// Forgets a key.
pub fn remove_deleted_mod_tombstone(keys: &mut Vec<String>, key: &str)
    ensures
        final(keys)@ == without_key(old(keys)@, key@),
        keys_set(final(keys)@) == keys_set(old(keys)@).remove(key@),
        distinct_keys(old(keys)@) ==> distinct_keys(final(keys)@),
{
    let ghost start = keys@;
    let mut out: Vec<String> = Vec::new();
    let kc = chars_of(key);
    let mut i: usize = 0;
    while i < keys.len()
        invariant
            i <= keys@.len(),
            keys@ == start,
            kc@ == key@,
            out@ == without_key(start.take(i as int), key@),
        decreases keys.len() - i,
    {
        let same = seq_eq(chars_of(keys[i].as_str()).as_slice(), kc.as_slice());
        if !same {
            out.push(keys[i].clone());
        }
        proof {
            let t = start.take(i + 1);
            assert(t.drop_last() =~= start.take(i as int));
            assert(t.last() == start[i as int]);
            if !same {
                assert(out@.last()@ == start[i as int]@);
                assert(out@ =~= without_key(start.take(i as int), key@).push(out@.last()));
            }
        }
        i += 1;
    }
    assert(start.take(i as int) =~= start);
    *keys = out;
    proof {
        lemma_without_key(start, key@);
    }
}


/// Remembering a key and then forgetting it leaves the keys as they were, where it was not
/// there before.
pub proof fn lemma_tombstone_forget_undoes_remember(keys: Set<Seq<char>>, key: Seq<char>)
    requires
        !keys.contains(key),
    ensures
        keys.insert(key).remove(key) == keys,
{
    assert(keys.insert(key).remove(key) =~= keys);
}

pub open spec fn trimmed_lines(content: Seq<char>) -> Set<Seq<char>> {
    Set::new(
        |k: Seq<char>|
            k.len() > 0 && exists|i: int|
                0 <= i < lines_seq(content).len() && trim_seq(#[trigger] lines_seq(content)[i]) == k,
    )
}

/// The remembered keys of a tombstone file's text: its non-blank lines, trimmed, each once.
pub fn read_deleted_mod_tombstones(content: Option<&str>) -> (r: Vec<String>)
    ensures
        keys_set(r@) == match content {
            Some(c) => trimmed_lines(c@),
            None => Set::<Seq<char>>::empty(),
        },
        distinct_keys(r@),
{
    let mut out: Vec<String> = Vec::new();
    assert(keys_set(out@) =~= Set::<Seq<char>>::empty());
    match content {
        None => out,
        Some(c) => {
            let cc = chars_of(c);
            let ls = lines(cc.as_slice());
            let ghost lq = lines_seq(c@);
            let mut i: usize = 0;
            while i < ls.len()
                invariant
                    i <= ls@.len(),
                    ls@.len() == lq.len(),
                    forall|k: int| 0 <= k < ls@.len() ==> #[trigger] ls@[k]@ == lq[k],
                    distinct_keys(out@),
                    keys_set(out@) == Set::new(
                        |k: Seq<char>|
                            k.len() > 0 && exists|m: int| 0 <= m < i && trim_seq(#[trigger] lq[m]) == k,
                    ),
                decreases ls.len() - i,
            {
                let t = trim(ls[i].as_slice());
                let ghost before = keys_set(out@);
                if t.len() > 0 {
                    let ts = string_from(t.as_slice());
                    remember_deleted_mod_tombstone(&mut out, ts.as_str());
                }
                proof {
                    assert(keys_set(out@) =~= Set::new(
                        |k: Seq<char>|
                            k.len() > 0 && exists|m: int| 0 <= m < i + 1 && trim_seq(#[trigger] lq[m]) == k,
                    )) by {
                        assert(trim_seq(lq[i as int]) == t@);
                        assert forall|k: Seq<char>| (k.len() > 0 && exists|m: int| 0 <= m < i + 1 && trim_seq(#[trigger] lq[m]) == k) implies keys_set(out@).contains(k) by {
                            let m = choose|m: int| 0 <= m < i + 1 && trim_seq(#[trigger] lq[m]) == k;
                            if m < i {
                                assert(before.contains(k));
                            }
                        }
                    }
                }
                i += 1;
            }
            assert(keys_set(out@) =~= trimmed_lines(c@));
            out
        },
    }
}

/// The text of the tombstone file: one key per line.
pub fn write_deleted_mod_tombstones(keys: &Vec<String>) -> (r: String)
    ensures
        r@ == terminated(strings_view(keys@)),
{
    let mut out: Vec<char> = Vec::new();
    let mut i: usize = 0;
    while i < keys.len()
        invariant
            i <= keys@.len(),
            out@ == terminated(strings_view(keys@).take(i as int)),
        decreases keys.len() - i,
    {
        push_all(&mut out, chars_of(keys[i].as_str()).as_slice());
        out.push('\n');
        proof {
            let t = strings_view(keys@).take(i + 1);
            assert(t =~= strings_view(keys@).take(i as int).push(keys@[i as int]@));
            lemma_terminated_push(strings_view(keys@).take(i as int), keys@[i as int]@);
        }
        i += 1;
    }
    assert(strings_view(keys@).take(i as int) =~= strings_view(keys@));
    string_from(out.as_slice())
}

/// Writing remembered keys and reading the file back gives the same keys, where each is
/// trimmed, not empty and free of line breaks.
pub proof fn lemma_tombstones_round_trip(keys: Seq<String>)
    requires
        forall|i: int| 0 <= i < keys.len() ==> trim_seq((#[trigger] keys[i])@) == keys[i]@ && keys[i]@.len() > 0
            && no_char(keys[i]@, '\n'),
    ensures
        trimmed_lines(terminated(strings_view(keys))) == keys_set(keys),
{
    let ls = strings_view(keys);
    assert forall|i: int| 0 <= i < ls.len() implies no_char(#[trigger] ls[i], '\n') && !(ls[i].len() > 0
        && ls[i].last() == '\r') by {
        assert(ls[i] == keys[i]@);
        lemma_trimmed_last(keys[i]@);
    }
    lemma_lines_terminated(ls);
    assert(trimmed_lines(terminated(ls)) =~= keys_set(keys)) by {
        assert forall|k: Seq<char>| trimmed_lines(terminated(ls)).contains(k) implies keys_set(keys).contains(k) by {
            let i = choose|i: int| 0 <= i < ls.len() && trim_seq(#[trigger] ls[i]) == k;
            assert(ls[i] == keys[i]@);
        }
        assert forall|k: Seq<char>| keys_set(keys).contains(k) implies trimmed_lines(terminated(ls)).contains(k) by {
            let i = choose|i: int| 0 <= i < keys.len() && (#[trigger] keys[i])@ == k;
            assert(ls[i] == keys[i]@);
            assert(trim_seq(ls[i]) == k);
        }
    }
}


pub open spec fn entry_keys(es: Seq<DeletedView>) -> Set<Seq<char>> {
    Set::new(|k: Seq<char>| exists|i: int| 0 <= i < es.len() && (#[trigger] es[i]).key == k)
}

/// Adds each key of `from` that `keep` accepts and that is not yet in `out`.
fn add_keys_where(out: &mut Vec<String>, from: &Vec<String>, skip: &Vec<String>)
    requires
        distinct_keys(old(out)@),
    ensures
        distinct_keys(final(out)@),
        keys_set(final(out)@) == keys_set(old(out)@).union(keys_set(from@).difference(keys_set(skip@))),
{
    let ghost start = keys_set(out@);
    let mut i: usize = 0;
    while i < from.len()
        invariant
            i <= from@.len(),
            distinct_keys(out@),
            keys_set(out@) == start.union(keys_set(from@.take(i as int)).difference(keys_set(skip@))),
        decreases from.len() - i,
    {
        let ghost before = keys_set(out@);
        if !contains_key(skip, from[i].as_str()) {
            remember_deleted_mod_tombstone(out, from[i].as_str());
        }
        proof {
            let t = from@.take(i + 1);
            assert(keys_set(t) =~= keys_set(from@.take(i as int)).insert(from@[i as int]@)) by {
                assert forall|k: Seq<char>| keys_set(t).contains(k) implies keys_set(from@.take(i as int)).insert(from@[i as int]@).contains(k) by {
                    let j = choose|j: int| 0 <= j < t.len() && (#[trigger] t[j])@ == k;
                    if j < i {
                        assert(from@.take(i as int)[j] == t[j]);
                    }
                }
                assert forall|k: Seq<char>| keys_set(from@.take(i as int)).insert(from@[i as int]@).contains(k) implies keys_set(t).contains(k) by {
                    if k == from@[i as int]@ {
                        assert(t[i as int] == from@[i as int]);
                    } else {
                        let j = choose|j: int| 0 <= j < i && (#[trigger] from@.take(i as int)[j])@ == k;
                        assert(t[j] == from@[j]);
                    }
                }
            }
            assert(keys_set(out@) =~= start.union(keys_set(t).difference(keys_set(skip@))));
        }
        i += 1;
    }
    assert(from@.take(i as int) =~= from@);
}

fn entry_key_list(entries: &Vec<DeletedModEntry>) -> (r: Vec<String>)
    ensures
        keys_set(r@) == entry_keys(entries_view(entries@)),
{
    let mut out: Vec<String> = Vec::new();
    let mut i: usize = 0;
    while i < entries.len()
        invariant
            i <= entries@.len(),
            out@.len() == i,
            forall|j: int| 0 <= j < i ==> (#[trigger] out@[j])@ == entries@[j].key@,
        decreases entries.len() - i,
    {
        out.push(entries[i].key.clone());
        i += 1;
    }
    assert(keys_set(out@) =~= entry_keys(entries_view(entries@))) by {
        assert forall|k: Seq<char>| keys_set(out@).contains(k) implies entry_keys(entries_view(entries@)).contains(k) by {
            let j = choose|j: int| 0 <= j < out@.len() && (#[trigger] out@[j])@ == k;
            assert(entries_view(entries@)[j].key == k);
        }
        assert forall|k: Seq<char>| entry_keys(entries_view(entries@)).contains(k) implies keys_set(out@).contains(k) by {
            let j = choose|j: int| 0 <= j < entries_view(entries@).len() && (#[trigger] entries_view(entries@)[j]).key == k;
            assert(out@[j]@ == k);
        }
    }
    out
}

/// Keys of the mods that were deleted: those in the index and those remembered.
pub fn deleted_mod_keys(entries: &Vec<DeletedModEntry>, tombstones: &Vec<String>) -> (r: Vec<String>)
    ensures
        keys_set(r@) == entry_keys(entries_view(entries@)).union(keys_set(tombstones@)),
        distinct_keys(r@),
{
    let mut out: Vec<String> = Vec::new();
    let none: Vec<String> = Vec::new();
    assert(keys_set(none@) =~= Set::<Seq<char>>::empty());
    assert(keys_set(out@) =~= Set::<Seq<char>>::empty());
    let ek = entry_key_list(entries);
    add_keys_where(&mut out, &ek, &none);
    add_keys_where(&mut out, tombstones, &none);
    assert(keys_set(out@) =~= entry_keys(entries_view(entries@)).union(keys_set(tombstones@)));
    out
}

pub open spec fn local_keys(summary: &ScanSummary) -> Set<Seq<char>> {
    records_keys(summary.game_mods@).union(records_keys(summary.disabled_mods@))
}

fn record_key_list(records: &Vec<ModRecord>, out: &mut Vec<String>)
    ensures
        keys_set(final(out)@) == keys_set(old(out)@).union(records_keys(records@)),
{
    let ghost start = keys_set(out@);
    let mut i: usize = 0;
    while i < records.len()
        invariant
            i <= records@.len(),
            keys_set(out@) == start.union(records_keys(records@.take(i as int))),
        decreases records.len() - i,
    {
        let ghost before = out@;
        out.push(records[i].key.clone());
        proof {
            let t = records@.take(i + 1);
            assert(keys_set(out@) =~= start.union(records_keys(t))) by {
                assert forall|k: Seq<char>| keys_set(out@).contains(k) implies start.union(records_keys(t)).contains(k) by {
                    let j = choose|j: int| 0 <= j < out@.len() && (#[trigger] out@[j])@ == k;
                    if j < before.len() {
                        assert(out@[j] == before[j]);
                        assert(keys_set(before).contains(k));
                        if records_keys(records@.take(i as int)).contains(k) {
                            let m = choose|m: int| 0 <= m < i && (#[trigger] records@.take(i as int)[m]).key@ == k;
                            assert(t[m] == records@[m]);
                        }
                    } else {
                        assert(t[i as int] == records@[i as int]);
                    }
                }
                assert forall|k: Seq<char>| start.union(records_keys(t)).contains(k) implies keys_set(out@).contains(k) by {
                    if start.contains(k) || records_keys(records@.take(i as int)).contains(k) {
                        if records_keys(records@.take(i as int)).contains(k) {
                            let m = choose|m: int| 0 <= m < i && (#[trigger] records@.take(i as int)[m]).key@ == k;
                            assert(records@.take(i as int)[m] == records@[m]);
                        }
                        assert(keys_set(before).contains(k));
                        let j = choose|j: int| 0 <= j < before.len() && (#[trigger] before[j])@ == k;
                        assert(out@[j] == before[j]);
                    } else {
                        let m = choose|m: int| 0 <= m < t.len() && (#[trigger] t[m]).key@ == k;
                        if m < i {
                            assert(records@.take(i as int)[m] == t[m]);
                        } else {
                            assert(out@[before.len() as int]@ == k);
                        }
                    }
                }
            }
        }
        i += 1;
    }
    assert(records@.take(i as int) =~= records@);
}

/// Keys of deleted mods that are back in the game's or the disabled folder.
pub fn reinstalled_local_deleted_mod_keys(entries: &Vec<DeletedModEntry>, summary: &ScanSummary) -> (r:
    Vec<String>)
    ensures
        keys_set(r@) == entry_keys(entries_view(entries@)).intersect(local_keys(summary)),
        distinct_keys(r@),
{
    let mut local: Vec<String> = Vec::new();
    assert(keys_set(local@) =~= Set::<Seq<char>>::empty());
    record_key_list(&summary.game_mods, &mut local);
    record_key_list(&summary.disabled_mods, &mut local);
    assert(keys_set(local@) =~= local_keys(summary));
    let mut out: Vec<String> = Vec::new();
    assert(keys_set(out@) =~= Set::<Seq<char>>::empty());
    let mut i: usize = 0;
    while i < entries.len()
        invariant
            i <= entries@.len(),
            keys_set(local@) == local_keys(summary),
            distinct_keys(out@),
            keys_set(out@) == entry_keys(entries_view(entries@).take(i as int)).intersect(local_keys(summary)),
        decreases entries.len() - i,
    {
        if contains_key(&local, entries[i].key.as_str()) {
            remember_deleted_mod_tombstone(&mut out, entries[i].key.as_str());
        }
        proof {
            let t = entries_view(entries@).take(i + 1);
            let p = entries_view(entries@).take(i as int);
            assert(entry_keys(t) =~= entry_keys(p).insert(entries@[i as int].key@)) by {
                assert forall|k: Seq<char>| entry_keys(t).contains(k) implies entry_keys(p).insert(entries@[i as int].key@).contains(k) by {
                    let j = choose|j: int| 0 <= j < t.len() && (#[trigger] t[j]).key == k;
                    if j < i {
                        assert(p[j] == t[j]);
                    }
                }
                assert forall|k: Seq<char>| entry_keys(p).insert(entries@[i as int].key@).contains(k) implies entry_keys(t).contains(k) by {
                    if k == entries@[i as int].key@ {
                        assert(t[i as int].key == k);
                    } else {
                        let j = choose|j: int| 0 <= j < p.len() && (#[trigger] p[j]).key == k;
                        assert(t[j] == p[j]);
                    }
                }
            }
            assert(keys_set(out@) =~= entry_keys(t).intersect(local_keys(summary)));
        }
        i += 1;
    }
    assert(entries_view(entries@).take(i as int) =~= entries_view(entries@));
    out
}

/// The keys that count as deleted for a scan: indexed deletions whose mod was not put back
/// in the game's or disabled folder, and remembered keys of mods the game cannot see.
pub fn deleted_mod_keys_for_summary(
    entries: &Vec<DeletedModEntry>,
    tombstones: &Vec<String>,
    summary: &ScanSummary,
) -> (r: Vec<String>)
    ensures
        keys_set(r@) == entry_keys(entries_view(entries@)).difference(local_keys(summary)).union(
            keys_set(tombstones@).difference(connected_keys_spec(summary)),
        ),
        distinct_keys(r@),
{
    let connected = connected_mod_keys(summary);
    let reinstalled = reinstalled_local_deleted_mod_keys(entries, summary);
    let mut out: Vec<String> = Vec::new();
    assert(keys_set(out@) =~= Set::<Seq<char>>::empty());
    let ek = entry_key_list(entries);
    add_keys_where(&mut out, &ek, &reinstalled);
    add_keys_where(&mut out, tombstones, &connected);
    assert(keys_set(out@) =~= entry_keys(entries_view(entries@)).difference(local_keys(summary)).union(
        keys_set(tombstones@).difference(connected_keys_spec(summary)),
    ));
    out
}

pub open spec fn keep_unless(v: Seq<String>, drop: Set<Seq<char>>) -> Seq<String>
    decreases v.len(),
{
    if v.len() == 0 {
        Seq::empty()
    } else if drop.contains(v.last()@) {
        keep_unless(v.drop_last(), drop)
    } else {
        keep_unless(v.drop_last(), drop).push(v.last())
    }
}

fn retain_unless(v: &Vec<String>, drop: &Vec<String>) -> (r: Vec<String>)
    ensures
        r@ == keep_unless(v@, keys_set(drop@)),
{
    let mut out: Vec<String> = Vec::new();
    let mut i: usize = 0;
    while i < v.len()
        invariant
            i <= v@.len(),
            out@ == keep_unless(v@.take(i as int), keys_set(drop@)),
        decreases v.len() - i,
    {
        let hit = contains_key(drop, v[i].as_str());
        if !hit {
            out.push(v[i].clone());
        }
        proof {
            let t = v@.take(i + 1);
            assert(t.drop_last() =~= v@.take(i as int));
            assert(t.last() == v@[i as int]);
            if !hit {
                assert(out@.last()@ == v@[i as int]@);
                assert(out@ =~= keep_unless(v@.take(i as int), keys_set(drop@)).push(out@.last()));
            }
        }
        i += 1;
    }
    assert(v@.take(i as int) =~= v@);
    out
}

/// The mods to activate without the deleted ones, and how many were dropped.
pub fn prune_deleted_desired_mod_keys(deleted: &Vec<String>, desired: &Vec<String>) -> (r: (
    Vec<String>,
    usize,
))
    ensures
        r.0@ == keep_unless(desired@, keys_set(deleted@)),
        r.1 == desired@.len() - r.0@.len(),
{
    let kept = retain_unless(desired, deleted);
    proof {
        lemma_keep_unless_len(desired@, keys_set(deleted@));
    }
    let removed = desired.len() - kept.len();
    (kept, removed)
}

proof fn lemma_keep_unless_len(v: Seq<String>, drop: Set<Seq<char>>)
    ensures
        keep_unless(v, drop).len() <= v.len(),
    decreases v.len(),
{
    if v.len() > 0 {
        lemma_keep_unless_len(v.drop_last(), drop);
    }
}

/// The remembered keys without those of mods the game can see again, and whether any went.
pub fn forget_revived_deleted_mod_tombstones(tombstones: &Vec<String>, summary: &ScanSummary) -> (r: (
    Vec<String>,
    bool,
))
    ensures
        r.0@ == keep_unless(tombstones@, connected_keys_spec(summary)),
        r.1 == (r.0@.len() != tombstones@.len()),
{
    let connected = connected_mod_keys(summary);
    let kept = retain_unless(tombstones, &connected);
    let changed = kept.len() != tombstones.len();
    (kept, changed)
}


pub open spec fn sat_add(a: u64, b: u64) -> u64 {
    if a + b > u64::MAX {
        u64::MAX
    } else {
        (a + b) as u64
    }
}

/// An entry has expired once its retention, counted in days from its deletion, has passed.
pub open spec fn expired_spec(e: DeletedView, retention_days: u32, now: u64) -> bool {
    retention_days > 0 && sat_add(e.deleted_epoch, (retention_days * 86400) as u64) <= now
}

pub open spec fn split_expired(es: Seq<DeletedView>, retention_days: u32, now: u64, want_expired: bool) -> Seq<
    DeletedView,
>
    decreases es.len(),
{
    if es.len() == 0 {
        Seq::empty()
    } else if expired_spec(es.last(), retention_days, now) == want_expired {
        split_expired(es.drop_last(), retention_days, now, want_expired).push(es.last())
    } else {
        split_expired(es.drop_last(), retention_days, now, want_expired)
    }
}

/// Splits the entries into those kept and those whose retention has run out at `now`. With a
/// retention of zero days nothing expires. Both keep the entries' order.
pub fn prune_expired_deleted_mods(entries: &Vec<DeletedModEntry>, retention_days: u32, now: u64) -> (r: (
    Vec<DeletedModEntry>,
    Vec<DeletedModEntry>,
))
    ensures
        entries_view(r.0@) == split_expired(entries_view(entries@), retention_days, now, false),
        entries_view(r.1@) == split_expired(entries_view(entries@), retention_days, now, true),
{
    let mut kept: Vec<DeletedModEntry> = Vec::new();
    let mut gone: Vec<DeletedModEntry> = Vec::new();
    let ghost ev = entries_view(entries@);
    let secs: u64 = (retention_days as u64) * 86400;
    let mut i: usize = 0;
    while i < entries.len()
        invariant
            i <= entries@.len(),
            ev == entries_view(entries@),
            secs == (retention_days * 86400) as u64,
            entries_view(kept@) == split_expired(ev.take(i as int), retention_days, now, false),
            entries_view(gone@) == split_expired(ev.take(i as int), retention_days, now, true),
        decreases entries.len() - i,
    {
        let e = &entries[i];
        let expired = retention_days > 0 && e.deleted_epoch.saturating_add(secs) <= now;
        let ghost bk = kept@;
        let ghost bg = gone@;
        if expired {
            gone.push(copy_entry(e));
        } else {
            kept.push(copy_entry(e));
        }
        proof {
            let t = ev.take(i + 1);
            assert(t.drop_last() =~= ev.take(i as int));
            assert(t.last() == e@);
            assert(expired == expired_spec(e@, retention_days, now));
            assert(entries_view(kept@) =~= split_expired(t, retention_days, now, false));
            assert(entries_view(gone@) =~= split_expired(t, retention_days, now, true));
        }
        i += 1;
    }
    assert(ev.take(i as int) =~= ev);
    (kept, gone)
}

/// Every entry is either kept or expired, and every kept entry is still within its
/// retention.
pub proof fn lemma_prune_partition(es: Seq<DeletedView>, retention_days: u32, now: u64)
    ensures
        split_expired(es, retention_days, now, false).len() + split_expired(es, retention_days, now, true).len()
            == es.len(),
        forall|i: int| 0 <= i < split_expired(es, retention_days, now, false).len() ==> !expired_spec(
            #[trigger] split_expired(es, retention_days, now, false)[i],
            retention_days,
            now,
        ),
    decreases es.len(),
{
    if es.len() > 0 {
        lemma_prune_partition(es.drop_last(), retention_days, now);
        let p = split_expired(es.drop_last(), retention_days, now, false);
        let k = split_expired(es, retention_days, now, false);
        assert forall|i: int| 0 <= i < k.len() implies !expired_spec(#[trigger] k[i], retention_days, now) by {
            if i < p.len() {
                assert(k[i] == p[i]);
            }
        }
    }
}

/// A deleted mod as the dashboard shows it.
pub struct DeletedModDto {
    pub id: String,
    pub key: String,
    pub name: String,
    pub original_path: String,
    pub backup_path: String,
    pub deleted_epoch: u64,
    pub expires_epoch: Option<u64>,
    pub bytes: u64,
}

/// The entry for the dashboard, with when it expires where a retention is set.
pub fn deleted_mod_dto(entry: DeletedModEntry, retention_days: u32) -> (r: DeletedModDto)
    ensures
        r.id@ == entry.id@,
        r.key@ == entry.key@,
        r.name@ == entry.name@,
        r.original_path@ == entry.original_path@,
        r.backup_path@ == entry.backup_path@,
        r.deleted_epoch == entry.deleted_epoch,
        r.bytes == entry.bytes,
        r.expires_epoch == if retention_days > 0 {
            Some(sat_add(entry.deleted_epoch, (retention_days * 86400) as u64))
        } else {
            None
        },
{
    let expires_epoch = if retention_days > 0 {
        Some(entry.deleted_epoch.saturating_add((retention_days as u64) * 86400))
    } else {
        None
    };
    DeletedModDto {
        id: entry.id,
        key: entry.key,
        name: entry.name,
        original_path: entry.original_path,
        backup_path: entry.backup_path,
        deleted_epoch: entry.deleted_epoch,
        expires_epoch,
        bytes: entry.bytes,
    }
}

/// The components of `p` after those of `root`, where `p` lies under `root`.
pub open spec fn rest_under(p: Seq<char>, root: Seq<char>) -> Option<Seq<Seq<char>>> {
    if path_starts_with(p, root) {
        Some(components(p).skip(components(root).len() as int))
    } else {
        None
    }
}

fn rest_under_exec(p: &str, root: &str) -> (r: Option<Vec<Vec<char>>>)
    ensures
        match r {
            Some(v) => rest_under(p@, root@) == Some(vv(v@)),
            None => rest_under(p@, root@) is None,
        },
{
    if !path_starts_with_exec(p, root) {
        return None;
    }
    let pc = comps_of(chars_of(p).as_slice());
    let rc = comps_of(chars_of(root).as_slice());
    let mut out: Vec<Vec<char>> = Vec::new();
    let mut i: usize = rc.len();
    assert(vv(rc@).len() == rc@.len());
    assert(vv(pc@).len() == pc@.len());
    while i < pc.len()
        invariant
            rc@.len() <= i <= pc@.len(),
            vv(pc@) == components(p@),
            vv(rc@) == components(root@),
            vv(out@) == components(p@).subrange(rc@.len() as int, i as int),
        decreases pc.len() - i,
    {
        let ghost before = out@;
        out.push(pc[i].clone());
        proof {
            assert(vv(out@) =~= vv(before).push(pc@[i as int]@));
        }
        i += 1;
        assert(vv(out@) =~= components(p@).subrange(rc@.len() as int, i as int));
    }
    assert(components(p@).subrange(rc@.len() as int, i as int) =~= components(p@).skip(
        components(root@).len() as int,
    ));
    Some(out)
}

/// Where a deleted archive mod is unpacked on restore: the first folder under the game's
/// mods folder it lay in, or, for an archive right in the mods folder, its name without
/// extension.
pub open spec fn restored_dir_spec(original: Seq<char>, mods: Seq<char>) -> Option<Seq<char>> {
    match rest_under(original, mods) {
        Some(rest) => if rest.len() == 0 {
            None
        } else if rest.len() > 1 {
            Some(join_name_spec(mods, rest[0]))
        } else {
            Some(join_name_spec(mods, stem_of(rest[0])))
        },
        None => None,
    }
}

pub fn restored_archive_install_dir(original_path: &str, config: &AppConfig) -> (r: Option<String>)
    ensures
        match r {
            Some(p) => restored_dir_spec(original_path@, config.game_mods_dir@) == Some(p@),
            None => restored_dir_spec(original_path@, config.game_mods_dir@) is None,
        },
{
    let rest = match rest_under_exec(original_path, config.game_mods_dir.as_str()) {
        Some(r) => r,
        None => return None,
    };
    assert(vv(rest@).len() == rest@.len());
    if rest.len() == 0 {
        return None;
    }
    let name = if rest.len() > 1 {
        string_from(rest[0].as_slice())
    } else {
        let st = stem_exec(rest[0].as_slice());
        string_from(st.as_slice())
    };
    Some(join_name_str(config.game_mods_dir.as_str(), name.as_str()))
}

/// Where a mod under the game's mods folder is installed: the first folder under the mods
/// folder it lies in; for a file right in the mods folder, its name without extension; for
/// a folder there, the folder itself.
pub open spec fn install_dir_spec(source: Seq<char>, mods: Seq<char>, source_is_file: bool) -> Option<
    Seq<char>,
> {
    match rest_under(source, mods) {
        Some(rest) => if rest.len() == 0 {
            None
        } else if rest.len() > 1 {
            Some(join_name_spec(mods, rest[0]))
        } else if source_is_file {
            Some(join_name_spec(mods, stem_of(rest[0])))
        } else {
            Some(join_name_spec(mods, rest[0]))
        },
        None => None,
    }
}

pub fn active_mod_install_dir(source: &str, config: &AppConfig, source_is_file: bool) -> (r: Option<
    String,
>)
    ensures
        match r {
            Some(p) => install_dir_spec(source@, config.game_mods_dir@, source_is_file) == Some(p@),
            None => install_dir_spec(source@, config.game_mods_dir@, source_is_file) is None,
        },
{
    let rest = match rest_under_exec(source, config.game_mods_dir.as_str()) {
        Some(r) => r,
        None => return None,
    };
    assert(vv(rest@).len() == rest@.len());
    if rest.len() == 0 {
        return None;
    }
    let name = if rest.len() == 1 && source_is_file {
        let st = stem_exec(rest[0].as_slice());
        string_from(st.as_slice())
    } else {
        string_from(rest[0].as_slice())
    };
    Some(join_name_str(config.game_mods_dir.as_str(), name.as_str()))
}

/// A deleted mod is unpacked on restore when it came from the game's mods folder and its
/// backup is an archive file.
pub fn should_expand_restored_archive(entry: &DeletedModEntry, config: &AppConfig, backup_is_file: bool) -> (r:
    bool)
    ensures
        r == (path_starts_with(entry.original_path@, config.game_mods_dir@) && backup_is_file && (
        crate::paths::ext_is(entry.backup_path@, "zip"@) || crate::paths::ext_is(entry.backup_path@, "7z"@)
            || crate::paths::ext_is(entry.backup_path@, "rar"@))),
{
    path_starts_with_exec(entry.original_path.as_str(), config.game_mods_dir.as_str()) && backup_is_file
        && is_supported_archive_path(entry.backup_path.as_str())
}

/// Law of restoring an archive that lay right in the game's mods folder: it is unpacked into a
/// folder in the mods folder whose name, followed by a dot and the archive's extension, is
/// the archive's name (its name without the extension).
pub proof fn lemma_restored_archive_dir_drops_extension(original: Seq<char>, mods: Seq<char>)
    requires
        rest_under(original, mods) matches Some(rest) && rest.len() == 1 && extension_of(rest[0]) is Some,
    ensures
        exists|name: Seq<char>|
            restored_dir_spec(original, mods) == Some(join_name_spec(mods, name)) && name + "."@ + extension_of(
                rest_under(original, mods)->0[0],
            )->0 == rest_under(original, mods)->0[0],
{
    reveal_strlit(".");
    let n = rest_under(original, mods)->0[0];
    let i = choose|i: int| last_dot(n, i) && i > 0;
    let stem = stem_of(n);
    assert(stem == n.take(i));
    assert(extension_of(n)->0 == n.skip(i + 1));
    assert(stem + "."@ + n.skip(i + 1) =~= n);
    assert(restored_dir_spec(original, mods) == Some(join_name_spec(mods, stem)));
}

} // verus!
