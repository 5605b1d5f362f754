//! The rows of the mods table: one per mod key, with what changed, what it needs, and which
//! translation patches aim at it.
use vstd::prelude::*;
use crate::text::{
    chars_of, string_from, trim, trim_seq, lower_seq, ascii_lower, is_ascii_alnum, is_ascii_alnum_exec,
    lower_char, lower_char_exec, seq_eq, eq_ignore_case, starts_with,
};
use crate::model::{ModRecord, ModManifestInfo, ManifestDependency, ModKind, kind_label, kind_label_spec, keys_set, opt_view, copy_opt};
use crate::order::{sort_dedup, strictly_sorted, lex_lt};
use crate::logs::strings_view;

verus! {

broadcast use vstd::string::group_string_axioms;

/// A mod that another mod needs, and whether it is there.
pub struct ModDependencyDto {
    pub id: String,
    pub key: Option<String>,
    pub name: String,
    pub active: bool,
    pub available: bool,
    pub version_required: Option<String>,
    pub version_current: Option<String>,
    pub version_matches: Option<bool>,
}

pub struct DepView {
    pub id: Seq<char>,
    pub key: Option<Seq<char>>,
    pub name: Seq<char>,
    pub active: bool,
    pub available: bool,
    pub version_required: Option<Seq<char>>,
    pub version_current: Option<Seq<char>>,
    pub version_matches: Option<bool>,
}

impl View for ModDependencyDto {
    type V = DepView;

    open spec fn view(&self) -> DepView {
        DepView {
            id: self.id@,
            key: opt_view(self.key),
            name: self.name@,
            active: self.active,
            available: self.available,
            version_required: opt_view(self.version_required),
            version_current: opt_view(self.version_current),
            version_matches: self.version_matches,
        }
    }
}

pub open spec fn deps_view(v: Seq<ModDependencyDto>) -> Seq<DepView> {
    Seq::new(v.len(), |i: int| v[i]@)
}

/// A language found in a mod's files.
pub struct LanguagePreviewDto {
    pub code: String,
    pub label: String,
    pub files: usize,
    pub keys: usize,
    pub sample_path: String,
}

/// A node of a mod's extracted file tree.
pub struct ExtractionTreeNodeDto {
    pub name: String,
    pub path: String,
    pub kind: String,
    pub source_path: String,
    pub children: Vec<ExtractionTreeNodeDto>,
}

/// One row of the mods table.
pub struct ModRowDto {
    pub key: String,
    pub name: String,
    pub manifest_id: Option<String>,
    pub group_name: Option<String>,
    pub active: bool,
    pub managed: bool,
    pub external: bool,
    pub source_label: String,
    pub kind: String,
    pub version_hint: Option<String>,
    pub bytes: u64,
    pub modified_epoch: Option<u64>,
    pub registered_epoch: Option<u64>,
    pub updated_epoch: Option<u64>,
    pub path: String,
    pub download_state: Option<String>,
    pub update_state: String,
    pub change_reasons: Vec<String>,
    pub translation_state: String,
    pub translation_applied: bool,
    pub translation_applied_epoch: Option<u64>,
    pub translation_patch_count: usize,
    pub translation_patch_active_count: usize,
    pub translation_patch_names: Vec<String>,
    pub needs_recheck: bool,
    pub translation_review_required: bool,
    pub safety_warnings: Vec<String>,
    pub extraction_hint: String,
    pub extraction_source_path: String,
    pub extraction_target: String,
    pub is_translation_patch: bool,
    pub translation_target_id: Option<String>,
    pub translation_target_key: Option<String>,
    pub translation_target_name: Option<String>,
    pub translation_target_version: Option<String>,
    pub dependencies: Vec<ModDependencyDto>,
    pub language_preview: Vec<LanguagePreviewDto>,
    pub extraction_tree: Vec<ExtractionTreeNodeDto>,
}

pub open spec fn dep_token_spec(s: Seq<char>) -> Seq<char>
    decreases s.len(),
{
    if s.len() == 0 {
        Seq::empty()
    } else if is_ascii_alnum(s.last()) {
        dep_token_spec(s.drop_last()).push(lower_char(s.last()))
    } else {
        dep_token_spec(s.drop_last())
    }
}

/// The ASCII letters and digits of a name, in lower case: how mod names are matched.
pub fn normalize_dependency_token(value: &str) -> (r: String)
    ensures
        r@ == dep_token_spec(value@),
{
    let v = chars_of(value);
    let mut out: Vec<char> = Vec::new();
    let mut i: usize = 0;
    while i < v.len()
        invariant
            i <= v@.len(),
            out@ == dep_token_spec(v@.take(i as int)),
        decreases v.len() - i,
    {
        if is_ascii_alnum_exec(v[i]) {
            out.push(lower_char_exec(v[i]));
        }
        proof {
            assert(v@.take(i + 1).drop_last() =~= v@.take(i as int));
        }
        i += 1;
    }
    assert(v@.take(i as int) =~= v@);
    string_from(out.as_slice())
}

/// Number of leading `v` or `V`.
pub open spec fn leading_v(s: Seq<char>) -> nat
    decreases s.len(),
{
    if s.len() > 0 && (s[0] == 'v' || s[0] == 'V') {
        1 + leading_v(s.skip(1))
    } else {
        0
    }
}

/// A version as compared: trimmed, without leading `v`s, in ASCII lower case.
pub open spec fn version_token_spec(s: Seq<char>) -> Seq<char> {
    let t = trim_seq(s);
    lower_seq(t.skip(leading_v(t) as int))
}

proof fn lemma_leading_v(s: Seq<char>, k: int)
    requires
        0 <= k <= s.len(),
        forall|j: int| 0 <= j < k ==> (#[trigger] s[j] == 'v' || s[j] == 'V'),
        k == s.len() || !(s[k] == 'v' || s[k] == 'V'),
    ensures
        leading_v(s) == k,
    decreases k,
{
    if k > 0 {
        let t = s.skip(1);
        assert forall|j: int| 0 <= j < k - 1 implies (#[trigger] t[j] == 'v' || t[j] == 'V') by {
            assert(t[j] == s[j + 1]);
        }
        if k < s.len() {
            assert(t[k - 1] == s[k]);
        }
        lemma_leading_v(t, k - 1);
    }
}

pub fn normalize_version_token(value: &str) -> (r: String)
    ensures
        r@ == version_token_spec(value@),
{
    let t = trim(chars_of(value).as_slice());
    let mut k: usize = 0;
    while k < t.len() && (t[k] == 'v' || t[k] == 'V')
        invariant
            k <= t@.len(),
            forall|j: int| 0 <= j < k ==> (#[trigger] t@[j] == 'v' || t@[j] == 'V'),
        decreases t.len() - k,
    {
        k += 1;
    }
    proof {
        lemma_leading_v(t@, k as int);
    }
    let mut rest: Vec<char> = Vec::new();
    let mut i: usize = k;
    while i < t.len()
        invariant
            k <= i <= t@.len(),
            rest@ == t@.subrange(k as int, i as int),
        decreases t.len() - i,
    {
        rest.push(t[i]);
        i += 1;
        assert(rest@ =~= t@.subrange(k as int, i as int));
    }
    assert(rest@ =~= t@.skip(k as int));
    let low = ascii_lower(rest.as_slice());
    string_from(low.as_slice())
}

pub open spec fn version_matches_spec(required: Seq<char>, current: Option<Seq<char>>) -> bool {
    let r = version_token_spec(required);
    if r.len() == 0 || r == seq!['-'] {
        true
    } else {
        let c = match current {
            Some(c) => version_token_spec(c),
            None => Seq::empty(),
        };
        c.len() > 0 && c == r
    }
}

/// A needed version is met when it is blank or `-`, or the present version reads the same.
pub fn dependency_version_matches(required: &str, current: Option<&str>) -> (r: bool)
    ensures
        r == version_matches_spec(
            required@,
            match current {
                Some(c) => Some(c@),
                None => None,
            },
        ),
{
    let r = normalize_version_token(required);
    let rc = chars_of(r.as_str());
    if rc.len() == 0 || (rc.len() == 1 && rc[0] == '-') {
        proof {
            if rc.len() == 1 {
                assert(rc@ =~= seq!['-']);
            }
        }
        return true;
    }
    proof {
        if rc@ == seq!['-'] {
            assert(rc@.len() == 1);
        }
    }
    let c = match current {
        Some(c) => chars_of(normalize_version_token(c).as_str()),
        None => Vec::new(),
    };
    c.len() > 0 && seq_eq(c.as_slice(), rc.as_slice())
}

/// The part of a key before its first `-`, `_` or space.
pub open spec fn key_prefix(key: Seq<char>) -> Seq<char> {
    if exists|i: int| 0 <= i < key.len() && (key[i] == '-' || key[i] == '_' || key[i] == ' ') {
        let i = choose|i: int|
            0 <= i < key.len() && (key[i] == '-' || key[i] == '_' || key[i] == ' ') && forall|j: int|
                0 <= j < i ==> !(#[trigger] key[j] == '-' || key[j] == '_' || key[j] == ' ');
        key.take(i)
    } else {
        key
    }
}

fn key_prefix_exec(key: &str) -> (r: String)
    ensures
        r@ == key_prefix(key@),
{
    let k = chars_of(key);
    let mut i: usize = 0;
    while i < k.len() && !(k[i] == '-' || k[i] == '_' || k[i] == ' ')
        invariant
            i <= k@.len(),
            k@ == key@,
            forall|j: int| 0 <= j < i ==> !(#[trigger] k@[j] == '-' || k@[j] == '_' || k@[j] == ' '),
        decreases k.len() - i,
    {
        i += 1;
    }
    let mut out: Vec<char> = Vec::new();
    let mut m: usize = 0;
    while m < i
        invariant
            m <= i <= k@.len(),
            out@ == k@.take(m as int),
        decreases i - m,
    {
        out.push(k[m]);
        m += 1;
        assert(out@ =~= k@.take(m as int));
    }
    proof {
        if i < k@.len() {
            let c = choose|c: int|
                0 <= c < key@.len() && (key@[c] == '-' || key@[c] == '_' || key@[c] == ' ') && forall|j: int|
                    0 <= j < c ==> !(#[trigger] key@[j] == '-' || key@[j] == '_' || key@[j] == ' ');
            assert(0 <= i < key@.len() && (key@[i as int] == '-' || key@[i as int] == '_' || key@[i as int] == ' '));
            if c < i {
                assert(!(k@[c] == '-' || k@[c] == '_' || k@[c] == ' '));
            } else if c > i {
                assert(!(key@[i as int] == '-' || key@[i as int] == '_' || key@[i as int] == ' '));
            }
        } else {
            assert(out@ =~= key@);
        }
    }
    string_from(out.as_slice())
}

/// The names by which other mods may refer to a mod.
pub open spec fn match_tokens_spec(
    key: Seq<char>,
    name: Seq<char>,
    manifest_id: Option<Seq<char>>,
    group_name: Option<Seq<char>>,
) -> Set<Seq<char>> {
    let base = set![dep_token_spec(key), dep_token_spec(name), dep_token_spec(key_prefix(key))];
    let with_id = match manifest_id {
        Some(m) => base.insert(dep_token_spec(m)),
        None => base,
    };
    match group_name {
        Some(g) => with_id.insert(dep_token_spec(g)),
        None => with_id,
    }
}

/// The tokens by which other mods may name this one, sorted, each once.
pub fn dependency_match_tokens(key: &str, name: &str, manifest_id: Option<&str>, group_name: Option<&str>) -> (r:
    Vec<String>)
    ensures
        keys_set(r@) == match_tokens_spec(
            key@,
            name@,
            match manifest_id {
                Some(m) => Some(m@),
                None => None,
            },
            match group_name {
                Some(g) => Some(g@),
                None => None,
            },
        ),
        strictly_sorted(crate::order::strings_view(r@)),
{
    let mut tokens: Vec<String> = Vec::new();
    tokens.push(normalize_dependency_token(key));
    tokens.push(normalize_dependency_token(name));
    if let Some(m) = manifest_id {
        tokens.push(normalize_dependency_token(m));
    }
    if let Some(g) = group_name {
        tokens.push(normalize_dependency_token(g));
    }
    let p = key_prefix_exec(key);
    tokens.push(normalize_dependency_token(p.as_str()));
    let ghost mid = match manifest_id {
        Some(m) => Some(m@),
        None => None,
    };
    let ghost gn = match group_name {
        Some(g) => Some(g@),
        None => None,
    };
    assert(keys_set(tokens@) =~= match_tokens_spec(key@, name@, mid, gn)) by {
        assert forall|s: Seq<char>| keys_set(tokens@).contains(s) implies match_tokens_spec(key@, name@, mid, gn).contains(s) by {
            let j = choose|j: int| 0 <= j < tokens@.len() && (#[trigger] tokens@[j])@ == s;
        }
        assert forall|s: Seq<char>| match_tokens_spec(key@, name@, mid, gn).contains(s) implies keys_set(tokens@).contains(s) by {
            if s == dep_token_spec(key@) {
                assert(tokens@[0]@ == s);
            } else if s == dep_token_spec(name@) {
                assert(tokens@[1]@ == s);
            } else if s == dep_token_spec(key_prefix(key@)) {
                assert(tokens@[tokens@.len() - 1]@ == s);
            } else if mid.is_some() && s == dep_token_spec(mid.unwrap()) {
                assert(tokens@[2]@ == s);
            } else {
                assert(tokens@[tokens@.len() - 2]@ == s);
            }
        }
    }
    sort_dedup(tokens)
}

/// A mod's row in the state index: what was recorded of it at the last scan.
pub struct ModStateEntry {
    pub key: String,
    pub registered_epoch: u64,
    pub updated_epoch: u64,
    pub bytes: u64,
    pub modified_epoch: Option<u64>,
}

/// When a mod was first registered and last updated.
pub struct ModLifecycleSummary {
    pub registered_epoch: u64,
    pub updated_epoch: u64,
}

pub fn lifecycle_summary(entry: &ModStateEntry) -> (r: ModLifecycleSummary)
    ensures
        r.registered_epoch == entry.registered_epoch,
        r.updated_epoch == entry.updated_epoch,
{
    ModLifecycleSummary { registered_epoch: entry.registered_epoch, updated_epoch: entry.updated_epoch }
}

/// The earliest registration and latest update among the entries of a key.
pub open spec fn lifecycle_spec(es: Seq<ModStateEntry>, key: Seq<char>) -> Option<(u64, u64)>
    decreases es.len(),
{
    if es.len() == 0 {
        None
    } else {
        let prev = lifecycle_spec(es.drop_last(), key);
        let e = es.last();
        if e.key@ != key {
            prev
        } else {
            match prev {
                None => Some((e.registered_epoch, e.updated_epoch)),
                Some((r, u)) => Some(
                    (
                        if e.registered_epoch < r {
                            e.registered_epoch
                        } else {
                            r
                        },
                        if e.updated_epoch > u {
                            e.updated_epoch
                        } else {
                            u
                        },
                    ),
                ),
            }
        }
    }
}

pub open spec fn lifecycle_table_ok(es: Seq<ModStateEntry>, out: Seq<(String, ModLifecycleSummary)>) -> bool {
    &&& forall|i: int, j: int| 0 <= i < j < out.len() ==> out[i].0@ != out[j].0@
    &&& forall|i: int|
        0 <= i < out.len() ==> lifecycle_spec(es, (#[trigger] out[i]).0@) == Some(
            (out[i].1.registered_epoch, out[i].1.updated_epoch),
        )
    &&& forall|k: Seq<char>|
        lifecycle_spec(es, k) is Some ==> exists|i: int| 0 <= i < out.len() && (#[trigger] out[i]).0@ == k
}

proof fn lemma_lifecycle_other(es: Seq<ModStateEntry>, key: Seq<char>)
    ensures
        lifecycle_spec(es, key) is None <==> forall|i: int| 0 <= i < es.len() ==> (#[trigger] es[i]).key@ != key,
    decreases es.len(),
{
    if es.len() > 0 {
        lemma_lifecycle_other(es.drop_last(), key);
        assert forall|i: int| 0 <= i < es.len() - 1 implies (#[trigger] es.drop_last()[i]) == es[i] by {}
        if lifecycle_spec(es, key) is None {
            assert forall|i: int| 0 <= i < es.len() implies (#[trigger] es[i]).key@ != key by {
                if i < es.len() - 1 {
                    assert(es.drop_last()[i] == es[i]);
                }
            }
        }
    }
}

/// For each mod key in the state index, when it was first registered and last updated.
/// Each key appears once.
pub fn mod_lifecycle_by_key(entries: &Vec<ModStateEntry>) -> (r: Vec<(String, ModLifecycleSummary)>)
    ensures
        lifecycle_table_ok(entries@, r@),
{
    let mut out: Vec<(String, ModLifecycleSummary)> = Vec::new();
    let mut i: usize = 0;
    while i < entries.len()
        invariant
            i <= entries@.len(),
            lifecycle_table_ok(entries@.take(i as int), out@),
        decreases entries.len() - i,
    {
        let e = &entries[i];
        let ghost pre = entries@.take(i as int);
        let ghost nxt = entries@.take(i + 1);
        proof {
            assert(nxt.drop_last() =~= pre);
            assert(nxt.last() == entries@[i as int]);
        }
        let mut j: usize = 0;
        while j < out.len() && !seq_eq(chars_of(out[j].0.as_str()).as_slice(), chars_of(e.key.as_str()).as_slice())
            invariant
                j <= out@.len(),
                forall|m: int| 0 <= m < j ==> (#[trigger] out@[m]).0@ != e.key@,
            decreases out.len() - j,
        {
            j += 1;
        }
        let ghost before = out@;
        if j < out.len() {
            let r0 = out[j].1.registered_epoch;
            let u0 = out[j].1.updated_epoch;
            let nr = if e.registered_epoch < r0 { e.registered_epoch } else { r0 };
            let nu = if e.updated_epoch > u0 { e.updated_epoch } else { u0 };
            let k = out[j].0.clone();
            out.set(j, (k, ModLifecycleSummary { registered_epoch: nr, updated_epoch: nu }));
            proof {
                assert(before[j as int].0@ == e.key@);
                assert forall|m: int| 0 <= m < out@.len() implies lifecycle_spec(nxt, (#[trigger] out@[m]).0@) == Some(
                    (out@[m].1.registered_epoch, out@[m].1.updated_epoch),
                ) by {
                    if m != j {
                        assert(out@[m] == before[m]);
                        assert(before[m].0@ != before[j as int].0@);
                    }
                }
                assert forall|k2: Seq<char>| lifecycle_spec(nxt, k2) is Some implies exists|m: int|
                    0 <= m < out@.len() && (#[trigger] out@[m]).0@ == k2 by {
                    if k2 == e.key@ {
                        assert(out@[j as int].0@ == k2);
                    } else {
                        assert(lifecycle_spec(nxt, k2) == lifecycle_spec(pre, k2));
                        let m = choose|m: int| 0 <= m < before.len() && (#[trigger] before[m]).0@ == k2;
                        if m == j {
                            assert(out@[m].0@ == before[m].0@);
                        } else {
                            assert(out@[m] == before[m]);
                        }
                    }
                }
                assert forall|a: int, b: int| 0 <= a < b < out@.len() implies out@[a].0@ != out@[b].0@ by {
                    assert(out@[a].0@ == before[a].0@ && out@[b].0@ == before[b].0@);
                }
            }
        } else {
            out.push((e.key.clone(), lifecycle_summary(e)));
            proof {
                lemma_lifecycle_other(pre, e.key@);
                if lifecycle_spec(pre, e.key@) is Some {
                    let m = choose|m: int| 0 <= m < before.len() && (#[trigger] before[m]).0@ == e.key@;
                    assert(before[m].0@ != e.key@);
                }
                assert forall|m: int| 0 <= m < out@.len() implies lifecycle_spec(nxt, (#[trigger] out@[m]).0@) == Some(
                    (out@[m].1.registered_epoch, out@[m].1.updated_epoch),
                ) by {
                    if m < before.len() {
                        assert(out@[m] == before[m]);
                    }
                }
                assert forall|k2: Seq<char>| lifecycle_spec(nxt, k2) is Some implies exists|m: int|
                    0 <= m < out@.len() && (#[trigger] out@[m]).0@ == k2 by {
                    if k2 == e.key@ {
                        assert(out@[before.len() as int].0@ == k2);
                    } else {
                        assert(lifecycle_spec(nxt, k2) == lifecycle_spec(pre, k2));
                        let m = choose|m: int| 0 <= m < before.len() && (#[trigger] before[m]).0@ == k2;
                        assert(out@[m] == before[m]);
                    }
                }
                assert forall|a: int, b: int| 0 <= a < b < out@.len() implies out@[a].0@ != out@[b].0@ by {
                    if b == before.len() {
                        assert(out@[a] == before[a]);
                    } else {
                        assert(out@[a] == before[a] && out@[b] == before[b]);
                    }
                }
            }
        }
        i += 1;
    }
    assert(entries@.take(i as int) =~= entries@);
    out
}


/// The records of one mod key, by where the scan found them.
pub struct ModRowBuilder {
    pub active: Option<ModRecord>,
    pub vault: Option<ModRecord>,
    pub external: Option<ModRecord>,
}

pub open spec fn slot_new(rec: Option<ModRecord>, prev: Option<ModStateEntry>) -> bool {
    rec is Some && prev is None
}

pub open spec fn slot_bytes(rec: Option<ModRecord>, prev: Option<ModStateEntry>) -> bool {
    rec is Some && prev is Some && rec->0.bytes != prev->0.bytes
}

pub open spec fn slot_modified(rec: Option<ModRecord>, prev: Option<ModStateEntry>) -> bool {
    rec is Some && prev is Some && rec->0.modified_epoch != prev->0.modified_epoch
}

fn slot_flags(rec: &Option<ModRecord>, prev: Option<&ModStateEntry>) -> (r: (bool, bool, bool))
    ensures
        r.0 == slot_new(*rec, match prev { Some(p) => Some(*p), None => None }),
        r.1 == slot_bytes(*rec, match prev { Some(p) => Some(*p), None => None }),
        r.2 == slot_modified(*rec, match prev { Some(p) => Some(*p), None => None }),
{
    match rec {
        None => (false, false, false),
        Some(r) => match prev {
            None => (true, false, false),
            Some(p) => (false, r.bytes != p.bytes, r.modified_epoch != p.modified_epoch),
        },
    }
}

pub open spec fn opt_ref(p: Option<&ModStateEntry>) -> Option<ModStateEntry> {
    match p {
        Some(p) => Some(*p),
        None => None,
    }
}

pub open spec fn reason_list(new: bool, modified: bool, bytes: bool) -> Seq<Seq<char>> {
    (if new { seq!["새로 감지"@] } else { Seq::empty() }) + (if modified {
        seq!["수정일"@]
    } else {
        Seq::empty()
    }) + (if bytes { seq!["파일 크기"@] } else { Seq::empty() })
}

impl ModRowBuilder {
    /// Whether the mod is new or changed since the state index last saw it, and why. `*_prev`
    /// are the index entries of the mod's records, where the index has them. The reasons
    /// come sorted and each once.
    pub fn change_summary(
        &self,
        active_prev: Option<&ModStateEntry>,
        vault_prev: Option<&ModStateEntry>,
        external_prev: Option<&ModStateEntry>,
    ) -> (r: (Option<String>, Vec<String>))
        ensures
            ({
                let new = slot_new(self.active, opt_ref(active_prev)) || slot_new(self.vault, opt_ref(vault_prev))
                    || slot_new(self.external, opt_ref(external_prev));
                let bytes = slot_bytes(self.active, opt_ref(active_prev)) || slot_bytes(self.vault, opt_ref(vault_prev))
                    || slot_bytes(self.external, opt_ref(external_prev));
                let modified = slot_modified(self.active, opt_ref(active_prev)) || slot_modified(
                    self.vault,
                    opt_ref(vault_prev),
                ) || slot_modified(self.external, opt_ref(external_prev));
                &&& opt_view(r.0) == if new {
                    Some("new"@)
                } else if bytes || modified {
                    Some("updated"@)
                } else {
                    None
                }
                &&& strings_view(r.1@) == reason_list(new, modified, bytes)
            }),
    {
        let a = slot_flags(&self.active, active_prev);
        let v = slot_flags(&self.vault, vault_prev);
        let x = slot_flags(&self.external, external_prev);
        let new = a.0 || v.0 || x.0;
        let bytes = a.1 || v.1 || x.1;
        let modified = a.2 || v.2 || x.2;
        let state = if new {
            Some("new".to_string())
        } else if bytes || modified {
            Some("updated".to_string())
        } else {
            None
        };
        let mut reasons: Vec<String> = Vec::new();
        if new {
            reasons.push("새로 감지".to_string());
        }
        if modified {
            reasons.push("수정일".to_string());
        }
        if bytes {
            reasons.push("파일 크기".to_string());
        }
        assert(strings_view(reasons@) =~= reason_list(new, modified, bytes));
        (state, reasons)
    }
}

pub open spec fn source_labels_spec(b: &ModRowBuilder) -> Seq<char> {
    if b.active is Some && b.external is Some {
        "게임 폴더"@ + " + "@ + "Nexus/Vortex"@
    } else if b.active is Some {
        "게임 폴더"@
    } else if b.external is Some {
        "Nexus/Vortex"@
    } else {
        Seq::empty()
    }
}

/// Where a mod was found: the game folder, an outside manager, or both.
pub fn source_labels(builder: &ModRowBuilder) -> (r: String)
    ensures
        r@ == source_labels_spec(builder),
{
    if builder.active.is_some() && builder.external.is_some() {
        let a = crate::text::cat("게임 폴더", " + ");
        crate::text::cat(a.as_str(), "Nexus/Vortex")
    } else if builder.active.is_some() {
        "게임 폴더".to_string()
    } else if builder.external.is_some() {
        "Nexus/Vortex".to_string()
    } else {
        String::new()
    }
}

/// What the extraction side found of a mod: where its files are read from and what they
/// hold.
pub struct RowExtraction {
    pub source_path: String,
    pub translation_state: String,
    pub extraction_hint: String,
    pub extraction_target: String,
    pub language_preview: Vec<LanguagePreviewDto>,
    pub extraction_tree: Vec<ExtractionTreeNodeDto>,
}

/// How long after its last change an archive in a download folder counts as still being
/// downloaded, in seconds.
pub const DOWNLOAD_SETTLE_SECS: u64 = 120;

/// A path inside a Vortex downloads folder: a `vortex` component followed by `downloads`,
/// ignoring ASCII case.
pub open spec fn in_vortex_downloads(p: Seq<char>) -> bool {
    let c = crate::paths::components(p);
    exists|i: int| 0 <= i && i + 1 < c.len() && lower_seq(#[trigger] c[i]) == "vortex"@ && lower_seq(c[i + 1]) == "downloads"@
}

/// The file changed no longer than the settle time before `now` (or after it).
pub open spec fn changed_recently(modified: Option<u64>, now: u64) -> bool {
    match modified {
        Some(m) => m >= now || now - m <= DOWNLOAD_SETTLE_SECS,
        None => false,
    }
}

/// A mod of an outside manager that is an archive in a Vortex downloads folder, changed
/// just now, is still being downloaded.
pub open spec fn download_state_spec(record: ModRecord, now: u64) -> Option<Seq<char>> {
    if record.source == crate::model::ModSource::ExternalManager && record.kind == ModKind::Archive
        && in_vortex_downloads(record.path@) && changed_recently(record.modified_epoch, now) {
        Some("downloading"@)
    } else {
        None
    }
}

fn in_vortex_downloads_exec(p: &str) -> (r: bool)
    ensures
        r == in_vortex_downloads(p@),
{
    let comps = crate::paths::comps_of(chars_of(p).as_slice());
    let ghost c = crate::paths::components(p@);
    assert(crate::paths::vv(comps@) == c);
    assert(crate::paths::vv(comps@).len() == comps@.len());
    let v = chars_of("vortex");
    let d = chars_of("downloads");
    proof {
        reveal_strlit("vortex");
        reveal_strlit("downloads");
    }
    let mut i: usize = 0;
    while i < comps.len() && comps.len() - i > 1
        invariant
            i <= comps@.len(),
            c == crate::paths::components(p@),
            c == crate::paths::vv(comps@),
            c.len() == comps@.len(),
            v@ == "vortex"@,
            d@ == "downloads"@,
            forall|j: int| 0 <= j < i && j + 1 < c.len() ==> !(lower_seq(#[trigger] c[j]) == "vortex"@ && lower_seq(c[j + 1]) == "downloads"@),
        decreases comps.len() - i,
    {
        assert(c[i as int] == comps@[i as int]@ && c[i + 1] == comps@[i + 1]@);
        let a = ascii_lower(comps[i].as_slice());
        let b = ascii_lower(comps[i + 1].as_slice());
        if seq_eq(a.as_slice(), v.as_slice()) && seq_eq(b.as_slice(), d.as_slice()) {
            assert(lower_seq(c[i as int]) == "vortex"@ && lower_seq(c[i + 1]) == "downloads"@);
            assert(0 <= i && i + 1 < crate::paths::components(p@).len());
            assert(lower_seq(crate::paths::components(p@)[i as int]) == "vortex"@);
            return true;
        }
        i += 1;
    }
    assert(!in_vortex_downloads(p@)) by {
        assert forall|j: int| 0 <= j && j + 1 < c.len() implies !(lower_seq(#[trigger] c[j]) == "vortex"@ && lower_seq(c[j + 1]) == "downloads"@) by {}
    }
    false
}

/// Whether a record is still being downloaded at `now_epoch` (seconds): `downloading`, or
/// nothing.
pub fn download_state(record: &ModRecord, now_epoch: u64) -> (r: Option<String>)
    ensures
        opt_view(r) == download_state_spec(*record, now_epoch),
{
    let recent = match record.modified_epoch {
        Some(m) => m >= now_epoch || now_epoch - m <= DOWNLOAD_SETTLE_SECS,
        None => false,
    };
    if record.source == crate::model::ModSource::ExternalManager && record.kind == ModKind::Archive
        && in_vortex_downloads_exec(record.path.as_str()) && recent {
        Some("downloading".to_string())
    } else {
        None
    }
}

pub open spec fn primary_record(b: &ModRowBuilder) -> ModRecord {
    match b.active {
        Some(r) => r,
        None => match b.vault {
            Some(r) => r,
            None => b.external->0,
        },
    }
}

pub open spec fn is_patch_spec(m: &ModManifestInfo) -> bool {
    m.is_translation_patch || m.target_mod_id is Some || m.target_mod_name is Some || m.target_languages@.len() > 0
}

pub open spec fn first_some(a: Option<Seq<char>>, b: Option<Seq<char>>) -> Option<Seq<char>> {
    match a {
        Some(x) => Some(x),
        None => b,
    }
}

/// The version shown for a mod: a translation patch shows the version of the mod it
/// translates, where its manifest names one.
pub open spec fn row_version_spec(m: &ModManifestInfo, rec: ModRecord) -> Option<Seq<char>> {
    if is_patch_spec(m) {
        first_some(opt_view(m.target_mod_version), first_some(opt_view(m.version), opt_view(rec.version_hint)))
    } else {
        first_some(opt_view(m.version), opt_view(rec.version_hint))
    }
}

pub open spec fn manifest_dep_view(d: ManifestDependency) -> DepView {
    DepView {
        id: d.id@,
        key: None,
        name: d.id@,
        active: false,
        available: false,
        version_required: opt_view(d.version),
        version_current: None,
        version_matches: None,
    }
}

/// The mods a mod needs: those its manifest lists, then the mod a translation patch aims
/// at unless it is listed already (ignoring ASCII case). None is resolved yet.
pub open spec fn row_deps_spec(m: &ModManifestInfo) -> Seq<DepView> {
    let listed = Seq::new(m.dependencies@.len(), |i: int| manifest_dep_view(m.dependencies@[i]));
    match m.target_mod_id {
        Some(t) => if exists|i: int| 0 <= i < listed.len() && lower_seq((#[trigger] listed[i]).id) == lower_seq(t@) {
            listed
        } else {
            listed.push(
                DepView {
                    id: t@,
                    key: None,
                    name: match m.target_mod_name {
                        Some(n) => n@,
                        None => t@,
                    },
                    active: false,
                    available: false,
                    version_required: opt_view(m.target_mod_version),
                    version_current: None,
                    version_matches: None,
                },
            )
        },
        None => listed,
    }
}

fn row_dependencies(m: &ModManifestInfo) -> (r: Vec<ModDependencyDto>)
    ensures
        deps_view(r@) == row_deps_spec(m),
{
    let ghost listed = Seq::new(m.dependencies@.len(), |i: int| manifest_dep_view(m.dependencies@[i]));
    let mut out: Vec<ModDependencyDto> = Vec::new();
    let mut i: usize = 0;
    while i < m.dependencies.len()
        invariant
            i <= m.dependencies@.len(),
            listed == Seq::new(m.dependencies@.len(), |i: int| manifest_dep_view(m.dependencies@[i])),
            deps_view(out@) == listed.take(i as int),
        decreases m.dependencies.len() - i,
    {
        let d = &m.dependencies[i];
        let ghost before = out@;
        let dep = ModDependencyDto {
            id: d.id.clone(),
            key: None,
            name: d.id.clone(),
            active: false,
            available: false,
            version_required: copy_opt(&d.version),
            version_current: None,
            version_matches: None,
        };
        assert(dep@ == manifest_dep_view(m.dependencies@[i as int]));
        out.push(dep);
        proof {
            assert(deps_view(out@) =~= deps_view(before).push(dep@));
            assert(listed.take(i + 1) =~= listed.take(i as int).push(listed[i as int]));
        }
        i += 1;
    }
    assert(listed.take(i as int) =~= listed);
    match &m.target_mod_id {
        None => out,
        Some(t) => {
            let tc = chars_of(t.as_str());
            let mut j: usize = 0;
            while j < out.len() && !eq_ignore_case(chars_of(out[j].id.as_str()).as_slice(), tc.as_slice())
                invariant
                    j <= out@.len(),
                    deps_view(out@) == listed,
                    tc@ == t@,
                    forall|k: int| 0 <= k < j ==> lower_seq((#[trigger] listed[k]).id) != lower_seq(t@),
                decreases out.len() - j,
            {
                assert(listed[j as int] == out@[j as int]@);
                j += 1;
            }
            let found = j < out.len();
            if found {
                assert(listed[j as int] == out@[j as int]@);
                assert(lower_seq(listed[j as int].id) == lower_seq(t@));
            }
            if !found {
                let name = match &m.target_mod_name {
                    Some(n) => n.clone(),
                    None => t.clone(),
                };
                let ghost before = out@;
                out.push(
                    ModDependencyDto {
                        id: t.clone(),
                        key: None,
                        name,
                        active: false,
                        available: false,
                        version_required: copy_opt(&m.target_mod_version),
                        version_current: None,
                        version_matches: None,
                    },
                );
                assert(deps_view(out@) =~= deps_view(before).push(out@[out@.len() - 1]@));
            }
            out
        },
    }
}

impl ModRowBuilder {
    /// The row of one mod key. The row shows the record in the game folder, else the one in
    /// the vault, else the outside manager's; `manifest` is what that record's manifest says,
    /// `extraction` what its files hold. Dependencies are listed but not yet resolved, and
    /// no translation patches are counted yet.
    pub fn into_dto(
        self,
        key: String,
        update_state: Option<String>,
        change_reasons: Vec<String>,
        registered_epoch: Option<u64>,
        updated_epoch: Option<u64>,
        translation_applied_epoch: Option<u64>,
        game_updated_epoch: Option<u64>,
        desired_active: bool,
        manifest: ModManifestInfo,
        extraction: RowExtraction,
        now_epoch: u64,
    ) -> (r: ModRowDto)
        requires
            self.active is Some || self.vault is Some || self.external is Some,
        ensures
            r.key@ == key@,
            r.name@ == primary_record(&self).name@,
            opt_view(r.manifest_id) == opt_view(manifest.id),
            opt_view(r.group_name) == opt_view(manifest.name),
            r.active == desired_active,
            r.managed == self.vault is Some,
            r.external == self.external is Some,
            r.source_label@ == source_labels_spec(&self),
            r.kind@ == kind_label_spec(primary_record(&self).kind),
            opt_view(r.version_hint) == row_version_spec(&manifest, primary_record(&self)),
            r.bytes == primary_record(&self).bytes,
            r.modified_epoch == primary_record(&self).modified_epoch,
            r.registered_epoch == registered_epoch,
            r.updated_epoch == updated_epoch,
            r.path@ == primary_record(&self).path@,
            opt_view(r.download_state) == download_state_spec(primary_record(&self), now_epoch),
            r.update_state@ == match update_state {
                Some(s) => s@,
                None => "clean"@,
            },
            r.change_reasons@ == change_reasons@,
            r.translation_state@ == extraction.translation_state@,
            r.translation_applied == translation_applied_epoch is Some,
            r.translation_applied_epoch == translation_applied_epoch,
            r.translation_patch_count == 0,
            r.translation_patch_active_count == 0,
            r.translation_patch_names@.len() == 0,
            r.needs_recheck == (desired_active && match (
                game_updated_epoch,
                match updated_epoch {
                    Some(u) => Some(u),
                    None => primary_record(&self).modified_epoch,
                },
            ) {
                (Some(g), Some(m)) => g > m,
                _ => false,
            }),
            r.translation_review_required == match (translation_applied_epoch, game_updated_epoch) {
                (Some(a), Some(g)) => g > a,
                _ => false,
            },
            r.safety_warnings@.len() == 0,
            r.extraction_hint@ == extraction.extraction_hint@,
            r.extraction_source_path@ == extraction.source_path@,
            r.extraction_target@ == extraction.extraction_target@,
            r.is_translation_patch == is_patch_spec(&manifest),
            opt_view(r.translation_target_id) == opt_view(manifest.target_mod_id),
            r.translation_target_key is None,
            opt_view(r.translation_target_name) == opt_view(manifest.target_mod_name),
            opt_view(r.translation_target_version) == opt_view(manifest.target_mod_version),
            deps_view(r.dependencies@) == row_deps_spec(&manifest),
            r.language_preview == extraction.language_preview,
            r.extraction_tree == extraction.extraction_tree,
    {
        let sources = source_labels(&self);
        let record = match &self.active {
            Some(r) => r,
            None => match &self.vault {
                Some(r) => r,
                None => match &self.external {
                    Some(r) => r,
                    None => {
                        proof {
                            assert(false);
                        }
                        return ModRowDto {
                            key,
                            name: String::new(),
                            manifest_id: None,
                            group_name: None,
                            active: false,
                            managed: false,
                            external: false,
                            source_label: String::new(),
                            kind: String::new(),
                            version_hint: None,
                            bytes: 0,
                            modified_epoch: None,
                            registered_epoch: None,
                            updated_epoch: None,
                            path: String::new(),
                            download_state: None,
                            update_state: String::new(),
                            change_reasons: Vec::new(),
                            translation_state: String::new(),
                            translation_applied: false,
                            translation_applied_epoch: None,
                            translation_patch_count: 0,
                            translation_patch_active_count: 0,
                            translation_patch_names: Vec::new(),
                            needs_recheck: false,
                            translation_review_required: false,
                            safety_warnings: Vec::new(),
                            extraction_hint: String::new(),
                            extraction_source_path: String::new(),
                            extraction_target: String::new(),
                            is_translation_patch: false,
                            translation_target_id: None,
                            translation_target_key: None,
                            translation_target_name: None,
                            translation_target_version: None,
                            dependencies: Vec::new(),
                            language_preview: Vec::new(),
                            extraction_tree: Vec::new(),
                        };
                    },
                },
            },
        };
        let is_translation_patch = manifest.is_translation_patch || manifest.target_mod_id.is_some()
            || manifest.target_mod_name.is_some() || manifest.target_languages.len() > 0;
        let version_hint = if is_translation_patch {
            match &manifest.target_mod_version {
                Some(v) => Some(v.clone()),
                None => match &manifest.version {
                    Some(v) => Some(v.clone()),
                    None => copy_opt(&record.version_hint),
                },
            }
        } else {
            match &manifest.version {
                Some(v) => Some(v.clone()),
                None => copy_opt(&record.version_hint),
            }
        };
        let dependencies = row_dependencies(&manifest);
        let latest_mod_epoch = match updated_epoch {
            Some(u) => Some(u),
            None => record.modified_epoch,
        };
        let needs_recheck = desired_active && match (game_updated_epoch, latest_mod_epoch) {
            (Some(g), Some(m)) => g > m,
            _ => false,
        };
        let translation_review_required = match (translation_applied_epoch, game_updated_epoch) {
            (Some(a), Some(g)) => g > a,
            _ => false,
        };
        let update = match update_state {
            Some(s) => s,
            None => "clean".to_string(),
        };
        let downloading = download_state(record, now_epoch);
        ModRowDto {
            key,
            name: record.name.clone(),
            manifest_id: copy_opt(&manifest.id),
            group_name: copy_opt(&manifest.name),
            active: desired_active,
            managed: self.vault.is_some(),
            external: self.external.is_some(),
            source_label: sources,
            kind: kind_label(record.kind).to_string(),
            version_hint,
            bytes: record.bytes,
            modified_epoch: record.modified_epoch,
            registered_epoch,
            updated_epoch,
            path: record.path.clone(),
            download_state: downloading,
            update_state: update,
            change_reasons,
            translation_state: extraction.translation_state,
            translation_applied: translation_applied_epoch.is_some(),
            translation_applied_epoch,
            translation_patch_count: 0,
            translation_patch_active_count: 0,
            translation_patch_names: Vec::new(),
            needs_recheck,
            translation_review_required,
            safety_warnings: crate::setup::mod_safety_warnings(&manifest),
            extraction_hint: extraction.extraction_hint,
            extraction_source_path: extraction.source_path,
            extraction_target: extraction.extraction_target,
            is_translation_patch,
            translation_target_id: copy_opt(&manifest.target_mod_id),
            translation_target_key: None,
            translation_target_name: copy_opt(&manifest.target_mod_name),
            translation_target_version: copy_opt(&manifest.target_mod_version),
            dependencies,
            language_preview: extraction.language_preview,
            extraction_tree: extraction.extraction_tree,
        }
    }
}


pub open spec fn row_tokens(r: ModRowDto) -> Set<Seq<char>> {
    match_tokens_spec(r.key@, r.name@, opt_view(r.manifest_id), opt_view(r.group_name))
}

pub open spec fn begins_with(t: Seq<char>, p: Seq<char>) -> bool {
    p.len() <= t.len() && t.take(p.len() as int) == p
}

/// Whether another row is the mod that `needle` names: one of its tokens is the needle or
/// begins with it, or its name reads as the needle.
pub open spec fn row_matches(cand: ModRowDto, row_key: Seq<char>, needle: Seq<char>) -> bool {
    &&& cand.key@ != row_key
    &&& (row_tokens(cand).contains(needle) || (exists|t: Seq<char>| #[trigger] row_tokens(cand).contains(t) && begins_with(t, needle))
        || dep_token_spec(cand.name@) == needle)
}

pub open spec fn first_match_at(rows: Seq<ModRowDto>, row_key: Seq<char>, needle: Seq<char>, m: int) -> bool {
    0 <= m < rows.len() && row_matches(rows[m], row_key, needle) && forall|j: int|
        0 <= j < m ==> !row_matches(#[trigger] rows[j], row_key, needle)
}

pub open spec fn first_match(rows: Seq<ModRowDto>, row_key: Seq<char>, needle: Seq<char>) -> Option<int> {
    if exists|m: int| first_match_at(rows, row_key, needle, m) {
        Some(choose|m: int| first_match_at(rows, row_key, needle, m))
    } else {
        None
    }
}

/// A dependency resolved against the other rows: the first row that it names gives its key,
/// name, state and version; where none does, it is marked missing.
pub open spec fn resolved_dep(rows: Seq<ModRowDto>, row_key: Seq<char>, d: DepView) -> DepView {
    match first_match(rows, row_key, dep_token_spec(d.id)) {
        None => DepView { active: false, available: false, ..d },
        Some(m) => DepView {
            key: Some(rows[m].key@),
            name: match rows[m].group_name {
                Some(g) => g@,
                None => rows[m].name@,
            },
            active: rows[m].active,
            available: true,
            version_current: opt_view(rows[m].version_hint),
            version_matches: match d.version_required {
                Some(req) => Some(version_matches_spec(req, opt_view(rows[m].version_hint))),
                None => None,
            },
            ..d
        },
    }
}

/// The translation target that a patch row learns from its dependencies, in order: a
/// dependency that names the patch's target sets the target key, and the target name where
/// none was set.
pub open spec fn target_fold(
    rows: Seq<ModRowDto>,
    row: ModRowDto,
    deps: Seq<DepView>,
) -> (Option<Seq<char>>, Option<Seq<char>>)
    decreases deps.len(),
{
    if deps.len() == 0 {
        (opt_view(row.translation_target_key), opt_view(row.translation_target_name))
    } else {
        let prev = target_fold(rows, row, deps.drop_last());
        let needle = dep_token_spec(deps.last().id);
        match first_match(rows, row.key@, needle) {
            None => prev,
            Some(m) => match row.translation_target_id {
                Some(tid) => if dep_token_spec(tid@) == needle {
                    (
                        Some(rows[m].key@),
                        match prev.1 {
                            None => Some(rows[m].name@),
                            Some(n) => Some(n),
                        },
                    )
                } else {
                    prev
                },
                None => prev,
            },
        }
    }
}

pub open spec fn row_with_links(
    row: ModRowDto,
    deps: Vec<ModDependencyDto>,
    tk: Option<String>,
    tn: Option<String>,
) -> ModRowDto {
    ModRowDto { dependencies: deps, translation_target_key: tk, translation_target_name: tn, ..row }
}

/// What a row offers for matching.
struct Candidate {
    key: String,
    name: String,
    group_name: Option<String>,
    active: bool,
    version: Option<String>,
    tokens: Vec<String>,
    name_token: String,
}

spec fn candidate_of(c: Candidate, r: ModRowDto) -> bool {
    &&& c.key@ == r.key@
    &&& c.name@ == r.name@
    &&& opt_view(c.group_name) == opt_view(r.group_name)
    &&& c.active == r.active
    &&& opt_view(c.version) == opt_view(r.version_hint)
    &&& keys_set(c.tokens@) == row_tokens(r)
    &&& c.name_token@ == dep_token_spec(r.name@)
}

fn opt_str(o: &Option<String>) -> (r: Option<&str>)
    ensures
        match r {
            Some(s) => o is Some && s@ == o->0@,
            None => o is None,
        },
{
    match o {
        Some(s) => Some(s.as_str()),
        None => None,
    }
}

fn candidate(r: &ModRowDto) -> (c: Candidate)
    ensures
        candidate_of(c, *r),
{
    let mid = opt_str(&r.manifest_id);
    let gn = opt_str(&r.group_name);
    let tokens = dependency_match_tokens(r.key.as_str(), r.name.as_str(), mid, gn);
    proof {
        assert(opt_view(r.manifest_id) == match mid {
            Some(m) => Some(m@),
            None => None::<Seq<char>>,
        });
        assert(opt_view(r.group_name) == match gn {
            Some(m) => Some(m@),
            None => None::<Seq<char>>,
        });
    }
    Candidate {
        key: r.key.clone(),
        name: r.name.clone(),
        group_name: copy_opt(&r.group_name),
        active: r.active,
        version: copy_opt(&r.version_hint),
        tokens,
        name_token: normalize_dependency_token(r.name.as_str()),
    }
}

fn candidate_matches(c: &Candidate, row_key: &[char], needle: &[char], r: Ghost<ModRowDto>) -> (b: bool)
    requires
        candidate_of(*c, r@),
    ensures
        b == row_matches(r@, row_key@, needle@),
{
    if seq_eq(chars_of(c.key.as_str()).as_slice(), row_key) {
        return false;
    }
    let mut hit = false;
    let mut i: usize = 0;
    while i < c.tokens.len()
        invariant
            i <= c.tokens@.len(),
            candidate_of(*c, r@),
            hit ==> (row_tokens(r@).contains(needle@) || exists|t: Seq<char>| #[trigger] row_tokens(r@).contains(t) && begins_with(t, needle@)),
            !hit ==> forall|j: int| 0 <= j < i ==> !begins_with(#[trigger] c.tokens@[j]@, needle@),
        decreases c.tokens.len() - i,
    {
        let t = chars_of(c.tokens[i].as_str());
        if starts_with(t.as_slice(), needle) {
            proof {
                assert(keys_set(c.tokens@).contains(c.tokens@[i as int]@));
                assert(row_tokens(r@).contains(t@) && begins_with(t@, needle@));
            }
            hit = true;
        }
        i += 1;
    }
    if hit {
        return true;
    }
    proof {
        assert forall|t: Seq<char>| row_tokens(r@).contains(t) implies !begins_with(t, needle@) by {
            assert(keys_set(c.tokens@).contains(t));
            let j = choose|j: int| 0 <= j < c.tokens@.len() && (#[trigger] c.tokens@[j])@ == t;
            assert(!begins_with(c.tokens@[j]@, needle@));
        }
        if row_tokens(r@).contains(needle@) {
            assert(begins_with(needle@, needle@)) by {
                assert(needle@.take(needle@.len() as int) =~= needle@);
            }
        }
    }
    seq_eq(chars_of(c.name_token.as_str()).as_slice(), needle)
}

fn find_match(cands: &Vec<Candidate>, row_key: &[char], needle: &[char], rows: Ghost<Seq<ModRowDto>>) -> (r:
    Option<usize>)
    requires
        cands@.len() == rows@.len(),
        forall|i: int| 0 <= i < cands@.len() ==> candidate_of(#[trigger] cands@[i], rows@[i]),
    ensures
        match r {
            Some(m) => first_match(rows@, row_key@, needle@) == Some(m as int),
            None => first_match(rows@, row_key@, needle@) is None,
        },
{
    let mut i: usize = 0;
    while i < cands.len()
        invariant
            i <= cands@.len(),
            cands@.len() == rows@.len(),
            forall|k: int| 0 <= k < cands@.len() ==> candidate_of(#[trigger] cands@[k], rows@[k]),
            forall|j: int| 0 <= j < i ==> !row_matches(#[trigger] rows@[j], row_key@, needle@),
        decreases cands.len() - i,
    {
        if candidate_matches(&cands[i], row_key, needle, Ghost(rows@[i as int])) {
            proof {
                assert(first_match_at(rows@, row_key@, needle@, i as int));
                let m = choose|m: int| first_match_at(rows@, row_key@, needle@, m);
                if m < i {
                    assert(!row_matches(rows@[m], row_key@, needle@));
                } else if m > i {
                    assert(!row_matches(rows@[i as int], row_key@, needle@));
                }
            }
            return Some(i);
        }
        i += 1;
    }
    proof {
        assert forall|m: int| !first_match_at(rows@, row_key@, needle@, m) by {
            if 0 <= m < rows@.len() {
                assert(!row_matches(rows@[m], row_key@, needle@));
            }
        }
    }
    None
}

fn copy_dep(d: &ModDependencyDto) -> (r: ModDependencyDto)
    ensures
        r@ == d@,
{
    ModDependencyDto {
        id: d.id.clone(),
        key: copy_opt(&d.key),
        name: d.name.clone(),
        active: d.active,
        available: d.available,
        version_required: copy_opt(&d.version_required),
        version_current: copy_opt(&d.version_current),
        version_matches: d.version_matches,
    }
}

/// Resolves each row's dependencies against the other rows, and a translation patch's target
/// key and name from the dependency that names its target.
pub fn resolve_mod_dependencies(rows: Vec<ModRowDto>) -> (r: Vec<ModRowDto>)
    ensures
        r@.len() == rows@.len(),
        forall|i: int|
            0 <= i < rows@.len() ==> {
                let row = #[trigger] rows@[i];
                let out = r@[i];
                &&& out == row_with_links(row, out.dependencies, out.translation_target_key, out.translation_target_name)
                &&& deps_view(out.dependencies@) == Seq::new(
                    row.dependencies@.len(),
                    |j: int| resolved_dep(rows@, row.key@, row.dependencies@[j]@),
                )
                &&& (opt_view(out.translation_target_key), opt_view(out.translation_target_name)) == target_fold(
                    rows@,
                    row,
                    deps_view(row.dependencies@),
                )
            },
{
    let ghost orig = rows@;
    let mut cands: Vec<Candidate> = Vec::new();
    let mut i: usize = 0;
    while i < rows.len()
        invariant
            i <= rows@.len(),
            rows@ == orig,
            cands@.len() == i,
            forall|k: int| 0 <= k < i ==> candidate_of(#[trigger] cands@[k], orig[k]),
        decreases rows.len() - i,
    {
        cands.push(candidate(&rows[i]));
        i += 1;
    }
    let total = rows.len();
    let mut rest = rows;
    let mut out: Vec<ModRowDto> = Vec::new();
    let mut n: usize = 0;
    while n < total
        invariant
            total == orig.len(),
            n <= orig.len(),
            rest@ == orig.skip(n as int),
            out@.len() == n,
            cands@.len() == orig.len(),
            forall|k: int| 0 <= k < cands@.len() ==> candidate_of(#[trigger] cands@[k], orig[k]),
            forall|k: int|
                0 <= k < n ==> {
                    let row = #[trigger] orig[k];
                    let o = out@[k];
                    &&& o == row_with_links(row, o.dependencies, o.translation_target_key, o.translation_target_name)
                    &&& deps_view(o.dependencies@) == Seq::new(
                        row.dependencies@.len(),
                        |j: int| resolved_dep(orig, row.key@, row.dependencies@[j]@),
                    )
                    &&& (opt_view(o.translation_target_key), opt_view(o.translation_target_name)) == target_fold(
                        orig,
                        row,
                        deps_view(row.dependencies@),
                    )
                },
        decreases total - n,
    {
        assert(rest@[0] == orig[n as int]);
        let row = rest.remove(0);
        assert(rest@ =~= orig.skip(n + 1));
        let key = chars_of(row.key.as_str());
        let tid: Option<Vec<char>> = match &row.translation_target_id {
            Some(t) => Some(chars_of(normalize_dependency_token(t.as_str()).as_str())),
            None => None,
        };
        let mut deps: Vec<ModDependencyDto> = Vec::new();
        let mut tk = copy_opt(&row.translation_target_key);
        let mut tn = copy_opt(&row.translation_target_name);
        let mut j: usize = 0;
        while j < row.dependencies.len()
            invariant
                j <= row.dependencies@.len(),
                row == orig[n as int],
                key@ == row.key@,
                match tid {
                    Some(t) => row.translation_target_id is Some && t@ == dep_token_spec(row.translation_target_id->0@),
                    None => row.translation_target_id is None,
                },
                cands@.len() == orig.len(),
                forall|k: int| 0 <= k < cands@.len() ==> candidate_of(#[trigger] cands@[k], orig[k]),
                deps_view(deps@) == Seq::new(j as nat, |m: int| resolved_dep(orig, row.key@, row.dependencies@[m]@)),
                (opt_view(tk), opt_view(tn)) == target_fold(orig, row, deps_view(row.dependencies@).take(j as int)),
            decreases row.dependencies.len() - j,
        {
            let d = &row.dependencies[j];
            let needle = chars_of(normalize_dependency_token(d.id.as_str()).as_str());
            let found = find_match(&cands, key.as_slice(), needle.as_slice(), Ghost(orig));
            let ghost dv = d@;
            let mut nd = copy_dep(d);
            let ghost ptk = opt_view(tk);
            let ghost ptn = opt_view(tn);
            match found {
                None => {
                    nd.available = false;
                    nd.active = false;
                },
                Some(m) => {
                    let c = &cands[m];
                    nd.key = Some(c.key.clone());
                    nd.name = match &c.group_name {
                        Some(g) => g.clone(),
                        None => c.name.clone(),
                    };
                    nd.active = c.active;
                    nd.available = true;
                    nd.version_current = copy_opt(&c.version);
                    let cv = opt_str(&c.version);
                    nd.version_matches = match &d.version_required {
                        Some(req) => Some(dependency_version_matches(req.as_str(), cv)),
                        None => None,
                    };
                    proof {
                        assert(candidate_of(cands@[m as int], orig[m as int]));
                        assert(opt_view(c.version) == match cv {
                            Some(v) => Some(v@),
                            None => None::<Seq<char>>,
                        });
                    }
                    match &tid {
                        Some(t) => {
                            if seq_eq(t.as_slice(), needle.as_slice()) {
                                tk = Some(c.key.clone());
                                if tn.is_none() {
                                    tn = Some(c.name.clone());
                                }
                            }
                        },
                        None => {},
                    }
                },
            }
            proof {
                assert(needle@ == dep_token_spec(dv.id));
                assert(nd@.id == dv.id);
                assert(nd@.version_required == dv.version_required);
                assert(nd@ == resolved_dep(orig, row.key@, dv));
            }
            let ghost before = deps@;
            let ghost ndv = nd@;
            deps.push(nd);
            proof {
                assert(deps_view(deps@) =~= deps_view(before).push(ndv));
                assert(dv == row.dependencies@[j as int]@);
                let ds = deps_view(row.dependencies@);
                assert(ds.take(j + 1).drop_last() =~= ds.take(j as int));
                assert(ds.take(j + 1).last() == dv);
                assert(deps_view(deps@) =~= Seq::new((j + 1) as nat, |m: int| resolved_dep(orig, row.key@, row.dependencies@[m]@)));
            }
            j += 1;
        }
        proof {
            assert(deps_view(row.dependencies@).take(j as int) =~= deps_view(row.dependencies@));
        }
        let ghost rv = row;
        let new_row = ModRowDto { dependencies: deps, translation_target_key: tk, translation_target_name: tn, ..row };
        assert(new_row == row_with_links(rv, new_row.dependencies, new_row.translation_target_key, new_row.translation_target_name));
        out.push(new_row);
        n += 1;
    }
    out
}


pub open spec fn first_dep_key(ds: Seq<DepView>) -> Option<Seq<char>>
    decreases ds.len(),
{
    if ds.len() == 0 {
        None
    } else if ds[0].key is Some {
        ds[0].key
    } else {
        first_dep_key(ds.skip(1))
    }
}

/// The mod a translation patch row translates: its target key, else the key of its first
/// resolved dependency.
pub open spec fn patch_target(row: ModRowDto) -> Option<Seq<char>> {
    if !row.is_translation_patch {
        None
    } else {
        match opt_view(row.translation_target_key) {
            Some(k) => Some(k),
            None => first_dep_key(deps_view(row.dependencies@)),
        }
    }
}

pub open spec fn patches_spec(rows: Seq<ModRowDto>) -> Seq<(Seq<char>, Seq<char>, bool)>
    decreases rows.len(),
{
    if rows.len() == 0 {
        Seq::empty()
    } else {
        match patch_target(rows.last()) {
            Some(t) => patches_spec(rows.drop_last()).push((t, rows.last().name@, rows.last().active)),
            None => patches_spec(rows.drop_last()),
        }
    }
}

pub open spec fn patch_names_for(ps: Seq<(Seq<char>, Seq<char>, bool)>, key: Seq<char>) -> Set<Seq<char>> {
    Set::new(|n: Seq<char>| exists|i: int| 0 <= i < ps.len() && (#[trigger] ps[i]).0 == key && ps[i].1 == n)
}

pub open spec fn active_patches_for(ps: Seq<(Seq<char>, Seq<char>, bool)>, key: Seq<char>) -> nat
    decreases ps.len(),
{
    if ps.len() == 0 {
        0
    } else {
        active_patches_for(ps.drop_last(), key) + if ps.last().0 == key && ps.last().2 {
            1nat
        } else {
            0nat
        }
    }
}

pub open spec fn row_with_patches(row: ModRowDto, count: usize, active: usize, names: Vec<String>) -> ModRowDto {
    ModRowDto {
        translation_patch_count: count,
        translation_patch_active_count: active,
        translation_patch_names: names,
        ..row
    }
}

fn first_dep_key_exec(ds: &Vec<ModDependencyDto>) -> (r: Option<String>)
    ensures
        opt_view(r) == first_dep_key(deps_view(ds@)),
{
    let mut i: usize = 0;
    assert(deps_view(ds@).skip(0) =~= deps_view(ds@));
    while i < ds.len()
        invariant
            i <= ds@.len(),
            first_dep_key(deps_view(ds@)) == first_dep_key(deps_view(ds@).skip(i as int)),
        decreases ds.len() - i,
    {
        proof {
            assert(deps_view(ds@).skip(i as int)[0] == ds@[i as int]@);
            assert(deps_view(ds@).skip(i as int).skip(1) =~= deps_view(ds@).skip(i + 1));
        }
        if ds[i].key.is_some() {
            return copy_opt(&ds[i].key);
        }
        i += 1;
    }
    proof {
        assert(deps_view(ds@).skip(i as int) =~= Seq::<DepView>::empty());
    }
    None
}

/// For each row that is not a translation patch: the names of the patches that translate it,
/// sorted and each once, their number, and how many of them are active (at most that
/// number). Patch rows are left as they are.
pub fn resolve_translation_patch_summaries(rows: Vec<ModRowDto>) -> (r: Vec<ModRowDto>)
    ensures
        r@.len() == rows@.len(),
        forall|i: int|
            0 <= i < rows@.len() ==> {
                let row = #[trigger] rows@[i];
                let out = r@[i];
                if row.is_translation_patch {
                    out == row
                } else {
                    let ps = patches_spec(rows@);
                    let active = active_patches_for(ps, row.key@);
                    &&& out == row_with_patches(
                        row,
                        out.translation_patch_count,
                        out.translation_patch_active_count,
                        out.translation_patch_names,
                    )
                    &&& keys_set(out.translation_patch_names@) == patch_names_for(ps, row.key@)
                    &&& strictly_sorted(crate::order::strings_view(out.translation_patch_names@))
                    &&& out.translation_patch_count == out.translation_patch_names@.len()
                    &&& out.translation_patch_active_count == (if active < out.translation_patch_count {
                        active
                    } else {
                        out.translation_patch_count as nat
                    })
                    &&& out.translation_patch_active_count <= out.translation_patch_count
                }
            },
{
    let ghost orig = rows@;
    let mut targets: Vec<String> = Vec::new();
    let mut names: Vec<String> = Vec::new();
    let mut actives: Vec<bool> = Vec::new();
    let mut i: usize = 0;
    while i < rows.len()
        invariant
            i <= rows@.len(),
            rows@ == orig,
            targets@.len() == names@.len(),
            targets@.len() == actives@.len(),
            Seq::new(targets@.len(), |k: int| (targets@[k]@, names@[k]@, actives@[k])) == patches_spec(orig.take(i as int)),
        decreases rows.len() - i,
    {
        let row = &rows[i];
        let ghost before = Seq::new(targets@.len(), |k: int| (targets@[k]@, names@[k]@, actives@[k]));
        let t: Option<String> = if !row.is_translation_patch {
            None
        } else {
            match &row.translation_target_key {
                Some(k) => Some(k.clone()),
                None => first_dep_key_exec(&row.dependencies),
            }
        };
        proof {
            assert(orig.take(i + 1).drop_last() =~= orig.take(i as int));
            assert(orig.take(i + 1).last() == orig[i as int]);
        }
        match t {
            Some(tk) => {
                targets.push(tk);
                names.push(row.name.clone());
                actives.push(row.active);
                assert(Seq::new(targets@.len(), |k: int| (targets@[k]@, names@[k]@, actives@[k])) =~= before.push(
                    (targets@[targets@.len() - 1]@, row.name@, row.active),
                ));
            },
            None => {},
        }
        i += 1;
    }
    assert(orig.take(i as int) =~= orig);
    let ghost ps = patches_spec(orig);
    let total = rows.len();
    let mut rest = rows;
    let mut out: Vec<ModRowDto> = Vec::new();
    let mut n: usize = 0;
    while n < total
        invariant
            total == orig.len(),
            n <= total,
            rest@ == orig.skip(n as int),
            out@.len() == n,
            targets@.len() == names@.len(),
            targets@.len() == actives@.len(),
            Seq::new(targets@.len(), |k: int| (targets@[k]@, names@[k]@, actives@[k])) == ps,
            ps == patches_spec(orig),
            forall|k: int|
                0 <= k < n ==> {
                    let row = #[trigger] orig[k];
                    let o = out@[k];
                    if row.is_translation_patch {
                        o == row
                    } else {
                        let active = active_patches_for(ps, row.key@);
                        &&& o == row_with_patches(
                            row,
                            o.translation_patch_count,
                            o.translation_patch_active_count,
                            o.translation_patch_names,
                        )
                        &&& keys_set(o.translation_patch_names@) == patch_names_for(ps, row.key@)
                        &&& strictly_sorted(crate::order::strings_view(o.translation_patch_names@))
                        &&& o.translation_patch_count == o.translation_patch_names@.len()
                        &&& o.translation_patch_active_count == (if active < o.translation_patch_count {
                            active
                        } else {
                            o.translation_patch_count as nat
                        })
                        &&& o.translation_patch_active_count <= o.translation_patch_count
                    }
                },
        decreases total - n,
    {
        assert(rest@[0] == orig[n as int]);
        let row = rest.remove(0);
        assert(rest@ =~= orig.skip(n + 1));
        if row.is_translation_patch {
            out.push(row);
        } else {
            let key = chars_of(row.key.as_str());
            let mut found: Vec<String> = Vec::new();
            let mut active: usize = 0;
            let mut m: usize = 0;
            while m < targets.len()
                invariant
                    m <= targets@.len(),
                    targets@.len() == names@.len(),
                    targets@.len() == actives@.len(),
                    Seq::new(targets@.len(), |k: int| (targets@[k]@, names@[k]@, actives@[k])) == ps,
                    key@ == row.key@,
                    active as nat == active_patches_for(ps.take(m as int), row.key@),
                    active <= m,
                    keys_set(found@) == patch_names_for(ps.take(m as int), row.key@),
                decreases targets.len() - m,
            {
                let ghost fb = found@;
                proof {
                    assert(ps.take(m + 1).drop_last() =~= ps.take(m as int));
                    assert(ps.take(m + 1).last() == ps[m as int]);
                    assert(ps[m as int] == (targets@[m as int]@, names@[m as int]@, actives@[m as int]));
                }
                if seq_eq(chars_of(targets[m].as_str()).as_slice(), key.as_slice()) {
                    found.push(names[m].clone());
                    if actives[m] {
                        active += 1;
                    }
                }
                proof {
                    let t = ps.take(m + 1);
                    assert(keys_set(found@) =~= patch_names_for(t, row.key@)) by {
                        assert forall|x: Seq<char>| keys_set(found@).contains(x) implies patch_names_for(t, row.key@).contains(x) by {
                            let j = choose|j: int| 0 <= j < found@.len() && (#[trigger] found@[j])@ == x;
                            if j < fb.len() {
                                assert(found@[j] == fb[j]);
                                assert(keys_set(fb).contains(x));
                                let q = choose|q: int| 0 <= q < m && (#[trigger] ps.take(m as int)[q]).0 == row.key@ && ps.take(m as int)[q].1 == x;
                                assert(t[q] == ps.take(m as int)[q]);
                            } else {
                                assert(t[m as int].0 == row.key@ && t[m as int].1 == x);
                            }
                        }
                        assert forall|x: Seq<char>| patch_names_for(t, row.key@).contains(x) implies keys_set(found@).contains(x) by {
                            let q = choose|q: int| 0 <= q < t.len() && (#[trigger] t[q]).0 == row.key@ && t[q].1 == x;
                            if q < m {
                                assert(ps.take(m as int)[q] == t[q]);
                                assert(patch_names_for(ps.take(m as int), row.key@).contains(x));
                                let j = choose|j: int| 0 <= j < fb.len() && (#[trigger] fb[j])@ == x;
                                assert(found@[j] == fb[j]);
                            } else {
                                assert(found@[found@.len() - 1]@ == x);
                            }
                        }
                    }
                }
                m += 1;
            }
            assert(ps.take(m as int) =~= ps);
            let sorted = sort_dedup(found);
            let count = sorted.len();
            let act = if active < count { active } else { count };
            let new_row = ModRowDto {
                translation_patch_count: count,
                translation_patch_active_count: act,
                translation_patch_names: sorted,
                ..row
            };
            out.push(new_row);
        }
        n += 1;
    }
    out
}

/// The last record with the key, as filling a map record by record leaves it.
pub open spec fn last_keyed(rs: Seq<ModRecord>, k: Seq<char>) -> Option<ModRecord>
    decreases rs.len(),
{
    if rs.len() == 0 {
        None
    } else if rs.last().key@ == k {
        Some(rs.last())
    } else {
        last_keyed(rs.drop_last(), k)
    }
}

pub open spec fn same_record(a: Option<ModRecord>, b: Option<ModRecord>) -> bool {
    match (a, b) {
        (Some(x), Some(y)) => x.same_as(&y),
        (None, None) => true,
        _ => false,
    }
}

/// The keys of all mods of a scan that rows are made for.
pub open spec fn row_keys_spec(s: &crate::model::ScanSummary) -> Set<Seq<char>> {
    crate::model::records_keys(s.game_mods@).union(crate::model::records_keys(s.vault_mods@)).union(
        crate::model::records_keys(s.external_manager_mods@),
    )
}

/// One builder per key of the game, vault and outside-manager mods that was not deleted,
/// sorted by key, holding the last record of each place with that key.
pub open spec fn builders_ok(
    s: &crate::model::ScanSummary,
    deleted: Set<Seq<char>>,
    out: Seq<(String, ModRowBuilder)>,
) -> bool {
    &&& strictly_sorted(Seq::new(out.len(), |i: int| out[i].0@))
    &&& Set::new(|k: Seq<char>| exists|i: int| 0 <= i < out.len() && (#[trigger] out[i]).0@ == k)
        == row_keys_spec(s).difference(deleted)
    &&& forall|i: int|
        0 <= i < out.len() ==> {
            &&& same_record((#[trigger] out[i]).1.active, last_keyed(s.game_mods@, out[i].0@))
            &&& same_record(out[i].1.vault, last_keyed(s.vault_mods@, out[i].0@))
            &&& same_record(out[i].1.external, last_keyed(s.external_manager_mods@, out[i].0@))
        }
}

fn find_last_keyed(rs: &Vec<ModRecord>, k: &str) -> (r: Option<ModRecord>)
    ensures
        same_record(r, last_keyed(rs@, k@)),
        r is Some <==> crate::model::records_keys(rs@).contains(k@),
{
    let kc = chars_of(k);
    let mut i: usize = rs.len();
    assert(rs@.take(rs@.len() as int) =~= rs@);
    while i > 0
        invariant
            i <= rs@.len(),
            kc@ == k@,
            last_keyed(rs@, k@) == last_keyed(rs@.take(i as int), k@),
            forall|j: int| i <= j < rs@.len() ==> (#[trigger] rs@[j]).key@ != k@,
        decreases i,
    {
        let r = &rs[i - 1];
        let rc = chars_of(r.key.as_str());
        proof {
            assert(rs@.take(i as int).last() == rs@[i - 1]);
            assert(rs@.take(i as int).drop_last() =~= rs@.take(i - 1));
        }
        if crate::text::seq_eq(rc.as_slice(), kc.as_slice()) {
            let d = r.duplicate();
            proof {
                assert(rs@[i - 1].key@ == k@);
                assert(crate::model::records_keys(rs@).contains(k@));
            }
            return Some(d);
        }
        i -= 1;
    }
    proof {
        assert(rs@.take(0) =~= Seq::<ModRecord>::empty());
        if crate::model::records_keys(rs@).contains(k@) {
            let j = choose|j: int| 0 <= j < rs@.len() && (#[trigger] rs@[j]).key@ == k@;
            assert(rs@[j].key@ != k@);
        }
    }
    None
}

/// The builders of the mods table, before any row is made: see `builders_ok`.
pub fn mod_row_builders(summary: &crate::model::ScanSummary, deleted_keys: &Vec<String>) -> (r: Vec<
    (String, ModRowBuilder),
>)
    ensures
        builders_ok(summary, keys_set(deleted_keys@), r@),
{
    let mut all: Vec<String> = Vec::new();
    crate::model::add_keys(&mut all, &summary.game_mods, false);
    crate::model::add_keys(&mut all, &summary.vault_mods, false);
    crate::model::add_keys(&mut all, &summary.external_manager_mods, false);
    proof {
        assert(keys_set(Seq::<String>::empty()) =~= Set::<Seq<char>>::empty());
        assert(keys_set(all@) =~= row_keys_spec(summary));
    }
    let ks = sort_dedup(all);
    let ghost kv = strings_view(ks@);
    let ghost deleted = keys_set(deleted_keys@);
    let mut out: Vec<(String, ModRowBuilder)> = Vec::new();
    let ghost mut idx: Seq<int> = Seq::empty();
    let mut i: usize = 0;
    while i < ks.len()
        invariant
            i <= ks@.len(),
            idx.len() == out@.len(),
            forall|m: int| 0 <= m < out@.len() ==> 0 <= #[trigger] idx[m] < i && out@[m].0@ == kv[idx[m]],
            kv == strings_view(ks@),
            strictly_sorted(kv),
            keys_set(ks@) == row_keys_spec(summary),
            deleted == keys_set(deleted_keys@),
            strictly_sorted(Seq::new(out@.len(), |m: int| out@[m].0@)),
            Set::new(|k: Seq<char>| exists|m: int| 0 <= m < out@.len() && (#[trigger] out@[m]).0@ == k)
                == Set::new(|k: Seq<char>| exists|j: int| 0 <= j < i && kv[j] == k && !deleted.contains(k)),
            forall|m: int|
                0 <= m < out@.len() ==> {
                    &&& same_record((#[trigger] out@[m]).1.active, last_keyed(summary.game_mods@, out@[m].0@))
                    &&& same_record(out@[m].1.vault, last_keyed(summary.vault_mods@, out@[m].0@))
                    &&& same_record(out@[m].1.external, last_keyed(summary.external_manager_mods@, out@[m].0@))
                },
        decreases ks.len() - i,
    {
        let k = &ks[i];
        let gone = crate::deleted::contains_key(deleted_keys, k.as_str());
        let ghost before = out@;
        if !gone {
            let b = ModRowBuilder {
                active: find_last_keyed(&summary.game_mods, k.as_str()),
                vault: find_last_keyed(&summary.vault_mods, k.as_str()),
                external: find_last_keyed(&summary.external_manager_mods, k.as_str()),
            };
            out.push((k.clone(), b));
            proof {
                assert(kv[i as int] == k@);
                idx = idx.push(i as int);
                let ov = Seq::new(out@.len(), |m: int| out@[m].0@);
                assert forall|a: int, c: int| 0 <= a < c < ov.len() implies lex_lt(ov[a], ov[c]) by {
                    if c < before.len() {
                        let bv = Seq::new(before.len(), |m: int| before[m].0@);
                        assert(ov[a] == bv[a] && ov[c] == bv[c]);
                    } else {
                        assert(out@[a] == before[a]);
                        assert(ov[a] == kv[idx[a]]);
                        assert(ov[c] == kv[i as int]);
                    }
                }
            }
        }
        proof {
            assert forall|m: int| 0 <= m < out@.len() implies 0 <= #[trigger] idx[m] < i + 1 && out@[m].0@ == kv[idx[m]] by {
                if m < before.len() {
                    assert(out@[m] == before[m]);
                }
            }
            let lhs = Set::new(|q: Seq<char>| exists|m: int| 0 <= m < out@.len() && (#[trigger] out@[m]).0@ == q);
            let rhs = Set::new(|q: Seq<char>| exists|j: int| 0 <= j < i + 1 && kv[j] == q && !deleted.contains(q));
            let old_l = Set::new(|q: Seq<char>| exists|m: int| 0 <= m < before.len() && (#[trigger] before[m]).0@ == q);
            let old_r = Set::new(|q: Seq<char>| exists|j: int| 0 <= j < i && kv[j] == q && !deleted.contains(q));
            assert(old_l == old_r);
            assert forall|q: Seq<char>| lhs.contains(q) implies rhs.contains(q) by {
                let m = choose|m: int| 0 <= m < out@.len() && (#[trigger] out@[m]).0@ == q;
                if m < before.len() {
                    assert(out@[m] == before[m]);
                    assert(old_l.contains(q));
                    assert(old_r.contains(q));
                } else {
                    assert(kv[i as int] == q);
                }
            }
            assert forall|q: Seq<char>| rhs.contains(q) implies lhs.contains(q) by {
                let j = choose|j: int| 0 <= j < i + 1 && kv[j] == q && !deleted.contains(q);
                if j < i {
                    assert(old_r.contains(q));
                    assert(old_l.contains(q));
                    let m = choose|m: int| 0 <= m < before.len() && (#[trigger] before[m]).0@ == q;
                    assert(out@[m] == before[m]);
                } else {
                    assert(out@[out@.len() - 1].0@ == q);
                }
            }
            assert(lhs =~= rhs);
        }
        i += 1;
    }
    proof {
        let lhs = Set::new(|q: Seq<char>| exists|m: int| 0 <= m < out@.len() && (#[trigger] out@[m]).0@ == q);
        let rhs = Set::new(|q: Seq<char>| exists|j: int| 0 <= j < ks@.len() && kv[j] == q && !deleted.contains(q));
        assert forall|q: Seq<char>| rhs.contains(q) <==> row_keys_spec(summary).difference(deleted).contains(q) by {
            if rhs.contains(q) {
                let j = choose|j: int| 0 <= j < ks@.len() && kv[j] == q && !deleted.contains(q);
                assert(ks@[j]@ == q);
                assert(keys_set(ks@).contains(q));
            }
            if row_keys_spec(summary).difference(deleted).contains(q) {
                assert(keys_set(ks@).contains(q));
                let j = choose|j: int| 0 <= j < ks@.len() && (#[trigger] ks@[j])@ == q;
                assert(kv[j] == q);
            }
        }
        assert(lhs =~= row_keys_spec(summary).difference(deleted));
    }
    out
}

/// Law of dependency versions: a version always meets itself; a needed version that is
/// neither blank nor `-` is met only by a present version that reads the same once trimmed,
/// stripped of leading `v`s and lowered; and a blank or `-` need is met by anything.
pub proof fn lemma_dependency_version_law(required: Seq<char>, current: Option<Seq<char>>)
    ensures
        version_matches_spec(required, Some(required)),
        (version_token_spec(required).len() == 0 || version_token_spec(required) == seq!['-']) ==> version_matches_spec(
            required,
            current,
        ),
        (version_token_spec(required).len() > 0 && version_token_spec(required) != seq!['-'] && version_matches_spec(
            required,
            current,
        )) ==> (current is Some && version_token_spec(current->0) == version_token_spec(required)),
        (current is Some && version_token_spec(current->0) == version_token_spec(required)) ==> version_matches_spec(
            required,
            current,
        ),
{
}

} // verus!
