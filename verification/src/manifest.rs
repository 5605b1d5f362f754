//! Reading a mod's manifest out of its JSON: which keys name which field, how lists and
//! dependencies are read, and how two manifests of one mod are merged.
use vstd::prelude::*;
use crate::text::{chars_of, string_from, trim, trim_seq, split_by, split_by_seq, lemma_split_by_nonempty};
use crate::json::{parse_json_text, parsed_json, manifest_text_spec, manifest_json_text};
use crate::json::{JsonValue, json_get, json_str, json_get_str, json_get_exec, json_str_exec, json_get_str_exec};
use crate::model::{keys_set, ModManifestInfo, ManifestDependency};
use crate::order::{sort_dedup, strictly_sorted, strings_view, lex_lt, lex_lt_exec};
use crate::text::{lower_seq, eq_ignore_case};
use crate::roots::opt_view;
use crate::model::copy_opt;
use crate::logs::{same_components, same_components_exec};
use crate::patches::{is_patch_manifest_spec, is_translation_patch_manifest};

verus! {

broadcast use vstd::string::group_string_axioms;

/// The first of `keys` under which the object holds a string.
pub open spec fn first_str(v: JsonValue, keys: Seq<Seq<char>>) -> Option<Seq<char>>
    decreases keys.len(),
{
    if keys.len() == 0 {
        None
    } else {
        match json_get_str(v, keys[0]) {
            Some(s) => Some(s),
            None => first_str(v, keys.skip(1)),
        }
    }
}

/// A text field: the first string found under the keys, trimmed, unless blank.
pub open spec fn string_field_spec(v: JsonValue, keys: Seq<Seq<char>>) -> Option<Seq<char>> {
    match first_str(v, keys) {
        Some(s) => if trim_seq(s).len() > 0 {
            Some(trim_seq(s))
        } else {
            None
        },
        None => None,
    }
}

/// The value under the first of `keys` that the object has.
pub open spec fn first_present(v: JsonValue, keys: Seq<Seq<char>>) -> Option<JsonValue>
    decreases keys.len(),
{
    if keys.len() == 0 {
        None
    } else {
        match json_get(v, keys[0]) {
            Some(x) => Some(x),
            None => first_present(v, keys.skip(1)),
        }
    }
}

pub fn string_field(value: &JsonValue, keys: &Vec<String>) -> (r: Option<String>)
    ensures
        match r {
            Some(s) => string_field_spec(*value, strings_view(keys@)) == Some(s@),
            None => string_field_spec(*value, strings_view(keys@)) is None,
        },
{
    let ghost ks = strings_view(keys@);
    let mut i: usize = 0;
    assert(ks.skip(0) =~= ks);
    while i < keys.len()
        invariant
            i <= keys@.len(),
            ks == strings_view(keys@),
            first_str(*value, ks) == first_str(*value, ks.skip(i as int)),
        decreases keys.len() - i,
    {
        proof {
            assert(ks.skip(i as int)[0] == keys@[i as int]@);
            assert(ks.skip(i as int).skip(1) =~= ks.skip(i + 1));
        }
        if let Some(s) = json_get_str_exec(value, keys[i].as_str()) {
            let t = trim(chars_of(s.as_str()).as_slice());
            if t.len() > 0 {
                return Some(string_from(t.as_slice()));
            } else {
                return None;
            }
        }
        i += 1;
    }
    assert(ks.skip(i as int) =~= Seq::<Seq<char>>::empty());
    None
}

fn first_present_exec<'a>(value: &'a JsonValue, keys: &Vec<String>) -> (r: Option<&'a JsonValue>)
    ensures
        match r {
            Some(x) => first_present(*value, strings_view(keys@)) == Some(*x),
            None => first_present(*value, strings_view(keys@)) is None,
        },
{
    let ghost ks = strings_view(keys@);
    let mut i: usize = 0;
    assert(ks.skip(0) =~= ks);
    while i < keys.len()
        invariant
            i <= keys@.len(),
            ks == strings_view(keys@),
            first_present(*value, ks) == first_present(*value, ks.skip(i as int)),
        decreases keys.len() - i,
    {
        proof {
            assert(ks.skip(i as int)[0] == keys@[i as int]@);
            assert(ks.skip(i as int).skip(1) =~= ks.skip(i + 1));
        }
        if let Some(x) = json_get_exec(value, keys[i].as_str()) {
            return Some(x);
        }
        i += 1;
    }
    assert(ks.skip(i as int) =~= Seq::<Seq<char>>::empty());
    None
}

/// A flag: `true` only where the first key present holds `true`.
pub open spec fn bool_field_spec(v: JsonValue, keys: Seq<Seq<char>>) -> bool {
    match first_present(v, keys) {
        Some(JsonValue::Bool(b)) => b,
        _ => false,
    }
}

pub fn bool_field(value: &JsonValue, keys: &Vec<String>) -> (r: bool)
    ensures
        r == bool_field_spec(*value, strings_view(keys@)),
{
    match first_present_exec(value, keys) {
        Some(JsonValue::Bool(b)) => *b,
        _ => false,
    }
}

/// What names an item of a list: the item as a string, else its `id`, else its `name`.
pub open spec fn item_name_raw(item: JsonValue) -> Option<Seq<char>> {
    match json_str(item) {
        Some(s) => Some(s),
        None => match json_get_str(item, "id"@) {
            Some(s) => Some(s),
            None => json_get_str(item, "name"@),
        },
    }
}

/// That name trimmed, unless blank.
pub open spec fn item_name(item: JsonValue) -> Option<Seq<char>> {
    match item_name_raw(item) {
        Some(s) => if trim_seq(s).len() > 0 {
            Some(trim_seq(s))
        } else {
            None
        },
        None => None,
    }
}

pub open spec fn list_names(items: Seq<JsonValue>) -> Seq<Seq<char>>
    decreases items.len(),
{
    if items.len() == 0 {
        Seq::empty()
    } else {
        match item_name(items.last()) {
            Some(n) => list_names(items.drop_last()).push(n),
            None => list_names(items.drop_last()),
        }
    }
}

/// The trimmed pieces that are not blank.
pub open spec fn piece_names(parts: Seq<Seq<char>>) -> Seq<Seq<char>>
    decreases parts.len(),
{
    if parts.len() == 0 {
        Seq::empty()
    } else if trim_seq(parts.last()).len() > 0 {
        piece_names(parts.drop_last()).push(trim_seq(parts.last()))
    } else {
        piece_names(parts.drop_last())
    }
}

pub open spec fn list_separators() -> Seq<char> {
    seq![',', ';']
}

/// The names a list field gives before sorting: an array's item names, or the pieces of a
/// text split at `,` and `;`.
pub open spec fn raw_list_field(v: JsonValue, keys: Seq<Seq<char>>) -> Seq<Seq<char>> {
    match first_present(v, keys) {
        Some(JsonValue::Array(items)) => list_names(items@),
        Some(JsonValue::Str(t)) => piece_names(split_by_seq(t@, list_separators())),
        _ => Seq::empty(),
    }
}

pub open spec fn seq_set(s: Seq<Seq<char>>) -> Set<Seq<char>> {
    Set::new(|x: Seq<char>| exists|i: int| 0 <= i < s.len() && s[i] == x)
}

fn item_name_exec(item: &JsonValue) -> (r: Option<String>)
    ensures
        match r {
            Some(s) => item_name(*item) == Some(s@),
            None => item_name(*item) is None,
        },
{
    let raw = match json_str_exec(item) {
        Some(s) => Some(s),
        None => match json_get_str_exec(item, "id") {
            Some(s) => Some(s),
            None => json_get_str_exec(item, "name"),
        },
    };
    match raw {
        Some(s) => {
            let t = trim(chars_of(s.as_str()).as_slice());
            if t.len() > 0 {
                Some(string_from(t.as_slice()))
            } else {
                None
            }
        },
        None => None,
    }
}

fn list_names_exec(items: &Vec<JsonValue>) -> (r: Vec<String>)
    ensures
        strings_view(r@) == list_names(items@),
{
    let mut out: Vec<String> = Vec::new();
    let mut i: usize = 0;
    while i < items.len()
        invariant
            i <= items@.len(),
            strings_view(out@) == list_names(items@.take(i as int)),
        decreases items.len() - i,
    {
        proof {
            assert(items@.take(i + 1).drop_last() =~= items@.take(i as int));
            assert(items@.take(i + 1).last() == items@[i as int]);
        }
        let ghost before = out@;
        if let Some(n) = item_name_exec(&items[i]) {
            out.push(n);
            assert(strings_view(out@) =~= strings_view(before).push(out@[out@.len() - 1]@));
        }
        i += 1;
    }
    assert(items@.take(i as int) =~= items@);
    out
}

fn piece_names_exec(t: &str) -> (r: Vec<String>)
    ensures
        strings_view(r@) == piece_names(split_by_seq(t@, list_separators())),
{
    let seps = vec![',', ';'];
    assert(seps@ =~= list_separators());
    let parts = split_by(chars_of(t).as_slice(), seps.as_slice());
    let ghost ps = split_by_seq(t@, list_separators());
    let mut out: Vec<String> = Vec::new();
    let mut i: usize = 0;
    while i < parts.len()
        invariant
            i <= parts@.len(),
            parts@.len() == ps.len(),
            forall|j: int| 0 <= j < parts@.len() ==> #[trigger] parts@[j]@ == ps[j],
            strings_view(out@) == piece_names(ps.take(i as int)),
        decreases parts.len() - i,
    {
        proof {
            assert(ps.take(i + 1).drop_last() =~= ps.take(i as int));
            assert(ps.take(i + 1).last() == ps[i as int]);
        }
        let ghost before = out@;
        let p = trim(parts[i].as_slice());
        if p.len() > 0 {
            out.push(string_from(p.as_slice()));
            assert(strings_view(out@) =~= strings_view(before).push(out@[out@.len() - 1]@));
        }
        i += 1;
    }
    assert(ps.take(i as int) =~= ps);
    out
}

fn raw_list_exec(value: &JsonValue, keys: &Vec<String>) -> (r: Vec<String>)
    ensures
        strings_view(r@) == raw_list_field(*value, strings_view(keys@)),
{
    match first_present_exec(value, keys) {
        Some(JsonValue::Array(items)) => list_names_exec(items),
        Some(JsonValue::Str(t)) => piece_names_exec(t.as_str()),
        _ => {
            let v: Vec<String> = Vec::new();
            assert(strings_view(v@) =~= Seq::<Seq<char>>::empty());
            v
        },
    }
}

/// A list field: its names sorted, each once.
pub fn string_list_field(value: &JsonValue, keys: &Vec<String>) -> (r: Vec<String>)
    ensures
        strictly_sorted(strings_view(r@)),
        keys_set(r@) == seq_set(raw_list_field(*value, strings_view(keys@))),
{
    let raw = raw_list_exec(value, keys);
    proof {
        let rl = raw_list_field(*value, strings_view(keys@));
        assert(keys_set(raw@) =~= seq_set(rl)) by {
            assert forall|x: Seq<char>| keys_set(raw@).contains(x) implies seq_set(rl).contains(x) by {
                let j = choose|j: int| 0 <= j < raw@.len() && (#[trigger] raw@[j])@ == x;
                assert(strings_view(raw@)[j] == x);
            }
            assert forall|x: Seq<char>| seq_set(rl).contains(x) implies keys_set(raw@).contains(x) by {
                let j = choose|j: int| 0 <= j < rl.len() && rl[j] == x;
                assert(strings_view(raw@)[j] == raw@[j]@);
            }
        }
    }
    sort_dedup(raw)
}

/// A dependency as text: its id and the version it asks for.
pub open spec fn dep_view(d: ManifestDependency) -> (Seq<char>, Option<Seq<char>>) {
    (d.id@, opt_view(d.version))
}

pub open spec fn deps_view(ds: Seq<ManifestDependency>) -> Seq<(Seq<char>, Option<Seq<char>>)> {
    Seq::new(ds.len(), |i: int| dep_view(ds[i]))
}

pub open spec fn dep_version_keys() -> Seq<Seq<char>> {
    seq!["version"@, "required_version"@, "target_version"@]
}

/// The dependencies an array lists: each item with a name, and its version field.
pub open spec fn dep_items(items: Seq<JsonValue>) -> Seq<(Seq<char>, Option<Seq<char>>)>
    decreases items.len(),
{
    if items.len() == 0 {
        Seq::empty()
    } else {
        match item_name(items.last()) {
            Some(n) => dep_items(items.drop_last()).push((n, string_field_spec(items.last(), dep_version_keys()))),
            None => dep_items(items.drop_last()),
        }
    }
}

/// `x` placed after every element whose id does not come after its own.
pub open spec fn insert_by_id(s: Seq<(Seq<char>, Option<Seq<char>>)>, x: (Seq<char>, Option<Seq<char>>)) -> Seq<
    (Seq<char>, Option<Seq<char>>),
>
    decreases s.len(),
{
    if s.len() == 0 {
        seq![x]
    } else if lex_lt(x.0, s[0].0) {
        seq![x] + s
    } else {
        seq![s[0]] + insert_by_id(s.skip(1), x)
    }
}

/// A stable sort by id, as insertion sort gives it.
pub open spec fn sort_by_id(s: Seq<(Seq<char>, Option<Seq<char>>)>) -> Seq<(Seq<char>, Option<Seq<char>>)>
    decreases s.len(),
{
    if s.len() == 0 {
        Seq::empty()
    } else {
        insert_by_id(sort_by_id(s.drop_last()), s.last())
    }
}

/// Each run of neighbours whose ids match ignoring ASCII case kept as its first.
pub open spec fn dedup_ids(s: Seq<(Seq<char>, Option<Seq<char>>)>) -> Seq<(Seq<char>, Option<Seq<char>>)>
    decreases s.len(),
{
    if s.len() <= 1 {
        s
    } else if lower_seq(s.last().0) == lower_seq(s[s.len() - 2].0) {
        dedup_ids(s.drop_last())
    } else {
        dedup_ids(s.drop_last()).push(s.last())
    }
}

proof fn lemma_insert_at(s: Seq<(Seq<char>, Option<Seq<char>>)>, x: (Seq<char>, Option<Seq<char>>), k: int)
    requires
        0 <= k <= s.len(),
        forall|j: int| 0 <= j < k ==> !lex_lt(x.0, #[trigger] s[j].0),
        k == s.len() || lex_lt(x.0, s[k].0),
    ensures
        insert_by_id(s, x) == s.insert(k, x),
    decreases k,
{
    if k == 0 {
        if s.len() == 0 {
            assert(s.insert(0, x) =~= seq![x]);
        } else {
            assert(s.insert(0, x) =~= seq![x] + s);
        }
    } else {
        let t = s.skip(1);
        assert forall|j: int| 0 <= j < k - 1 implies !lex_lt(x.0, #[trigger] t[j].0) by {
            assert(t[j] == s[j + 1]);
        }
        if k < s.len() {
            assert(t[k - 1] == s[k]);
        }
        lemma_insert_at(t, x, k - 1);
        assert(seq![s[0]] + t.insert(k - 1, x) =~= s.insert(k, x));
    }
}

fn copy_dep(d: &ManifestDependency) -> (r: ManifestDependency)
    ensures
        dep_view(r) == dep_view(*d),
{
    ManifestDependency { id: d.id.clone(), version: crate::model::copy_opt(&d.version) }
}

/// Sorts dependencies by id, keeping the order of equal ids.
fn sort_deps(v: &Vec<ManifestDependency>) -> (r: Vec<ManifestDependency>)
    ensures
        deps_view(r@) == sort_by_id(deps_view(v@)),
{
    let mut out: Vec<ManifestDependency> = Vec::new();
    let mut i: usize = 0;
    while i < v.len()
        invariant
            i <= v@.len(),
            deps_view(out@) == sort_by_id(deps_view(v@).take(i as int)),
        decreases v.len() - i,
    {
        let x = chars_of(v[i].id.as_str());
        let mut k: usize = 0;
        while k < out.len() && !lex_lt_exec(x.as_slice(), chars_of(out[k].id.as_str()).as_slice())
            invariant
                k <= out@.len(),
                x@ == v@[i as int].id@,
                forall|j: int| 0 <= j < k ==> !lex_lt(x@, #[trigger] out@[j].id@),
            decreases out.len() - k,
        {
            k += 1;
        }
        let ghost before = deps_view(out@);
        proof {
            assert forall|j: int| 0 <= j < k implies !lex_lt(dep_view(v@[i as int]).0, #[trigger] before[j].0) by {
                assert(before[j] == dep_view(out@[j]));
            }
            if k < out@.len() {
                assert(before[k as int] == dep_view(out@[k as int]));
            }
            lemma_insert_at(before, dep_view(v@[i as int]), k as int);
            assert(deps_view(v@).take(i + 1).drop_last() =~= deps_view(v@).take(i as int));
            assert(deps_view(v@).take(i + 1).last() == dep_view(v@[i as int]));
        }
        out.insert(k, copy_dep(&v[i]));
        assert(deps_view(out@) =~= before.insert(k as int, dep_view(v@[i as int])));
        i += 1;
    }
    assert(deps_view(v@).take(i as int) =~= deps_view(v@));
    out
}

/// Drops each dependency whose id matches the one before it, ignoring ASCII case.
fn dedup_deps(v: &Vec<ManifestDependency>) -> (r: Vec<ManifestDependency>)
    ensures
        deps_view(r@) == dedup_ids(deps_view(v@)),
{
    let mut out: Vec<ManifestDependency> = Vec::new();
    let mut i: usize = 0;
    while i < v.len()
        invariant
            i <= v@.len(),
            deps_view(out@) == dedup_ids(deps_view(v@).take(i as int)),
        decreases v.len() - i,
    {
        let ghost t = deps_view(v@).take(i + 1);
        proof {
            assert(t.drop_last() =~= deps_view(v@).take(i as int));
            assert(t.last() == dep_view(v@[i as int]));
            if i >= 1 {
                assert(t[t.len() - 2] == dep_view(v@[i - 1]));
            }
        }
        let ghost before = deps_view(out@);
        let dup = i > 0 && eq_ignore_case(
            chars_of(v[i].id.as_str()).as_slice(),
            chars_of(v[i - 1].id.as_str()).as_slice(),
        );
        if !dup {
            out.push(copy_dep(&v[i]));
            proof {
                if i == 0 {
                    assert(t =~= seq![dep_view(v@[0])]);
                }
                assert(deps_view(out@) =~= before.push(dep_view(v@[i as int])));
            }
        }
        i += 1;
    }
    assert(deps_view(v@).take(i as int) =~= deps_view(v@));
    out
}

pub open spec fn ids_as_deps(ids: Seq<Seq<char>>) -> Seq<(Seq<char>, Option<Seq<char>>)> {
    Seq::new(ids.len(), |i: int| (ids[i], None::<Seq<char>>))
}

/// The dependencies a manifest lists under the first of `keys` it has: an array's items with
/// their versions, else the names of the list field with no version; sorted by id, keeping
/// the first of neighbours whose ids match ignoring ASCII case.
pub open spec fn dep_list_ok(v: JsonValue, keys: Seq<Seq<char>>, r: Seq<ManifestDependency>) -> bool {
    match first_present(v, keys) {
        Some(JsonValue::Array(items)) => deps_view(r) == dedup_ids(sort_by_id(dep_items(items@))),
        _ => exists|ids: Seq<Seq<char>>|
            #![trigger ids_as_deps(ids)]
            strictly_sorted(ids) && seq_set(ids) == seq_set(raw_list_field(v, keys)) && deps_view(r) == dedup_ids(
                sort_by_id(ids_as_deps(ids)),
            ),
    }
}

fn version_keys() -> (r: Vec<String>)
    ensures
        strings_view(r@) == dep_version_keys(),
{
    let r = vec!["version".to_string(), "required_version".to_string(), "target_version".to_string()];
    assert(strings_view(r@) =~= dep_version_keys());
    r
}

fn dep_items_exec(items: &Vec<JsonValue>) -> (r: Vec<ManifestDependency>)
    ensures
        deps_view(r@) == dep_items(items@),
{
    let keys = version_keys();
    let mut out: Vec<ManifestDependency> = Vec::new();
    let mut i: usize = 0;
    while i < items.len()
        invariant
            i <= items@.len(),
            strings_view(keys@) == dep_version_keys(),
            deps_view(out@) == dep_items(items@.take(i as int)),
        decreases items.len() - i,
    {
        proof {
            assert(items@.take(i + 1).drop_last() =~= items@.take(i as int));
            assert(items@.take(i + 1).last() == items@[i as int]);
        }
        let ghost before = deps_view(out@);
        if let Some(id) = item_name_exec(&items[i]) {
            let version = string_field(&items[i], &keys);
            out.push(ManifestDependency { id, version });
            assert(deps_view(out@) =~= before.push(dep_view(out@[out@.len() - 1])));
        }
        i += 1;
    }
    assert(items@.take(i as int) =~= items@);
    out
}

pub fn dependency_list_field(value: &JsonValue, keys: &Vec<String>) -> (r: Vec<ManifestDependency>)
    ensures
        dep_list_ok(*value, strings_view(keys@), r@),
{
    match first_present_exec(value, keys) {
        Some(JsonValue::Array(items)) => {
            let raw = dep_items_exec(items);
            let sorted = sort_deps(&raw);
            dedup_deps(&sorted)
        },
        _ => {
            let ids = string_list_field(value, keys);
            let mut deps: Vec<ManifestDependency> = Vec::new();
            let mut i: usize = 0;
            while i < ids.len()
                invariant
                    i <= ids@.len(),
                    deps_view(deps@) == ids_as_deps(strings_view(ids@)).take(i as int),
                decreases ids.len() - i,
            {
                let ghost before = deps_view(deps@);
                let id = ids[i].clone();
                assert(id@ == ids@[i as int]@);
                deps.push(ManifestDependency { id, version: None });
                assert(deps_view(deps@) =~= before.push((ids@[i as int]@, None::<Seq<char>>)));
                assert(strings_view(ids@)[i as int] == ids@[i as int]@);
                assert(deps_view(deps@) =~= ids_as_deps(strings_view(ids@)).take(i + 1));
                i += 1;
            }
            assert(ids_as_deps(strings_view(ids@)).take(i as int) =~= ids_as_deps(strings_view(ids@)));
            let sorted = sort_deps(&deps);
            let r = dedup_deps(&sorted);
            proof {
                let iv = strings_view(ids@);
                assert(seq_set(iv) =~= keys_set(ids@)) by {
                    assert forall|x: Seq<char>| seq_set(iv).contains(x) implies keys_set(ids@).contains(x) by {
                        let j = choose|j: int| 0 <= j < iv.len() && iv[j] == x;
                        assert(ids@[j]@ == x);
                    }
                    assert forall|x: Seq<char>| keys_set(ids@).contains(x) implies seq_set(iv).contains(x) by {
                        let j = choose|j: int| 0 <= j < ids@.len() && (#[trigger] ids@[j])@ == x;
                        assert(iv[j] == x);
                    }
                }
                assert(strictly_sorted(iv) && seq_set(iv) == seq_set(raw_list_field(*value, strings_view(keys@)))
                    && deps_view(r@) == dedup_ids(sort_by_id(ids_as_deps(iv))));
            }
            r
        },
    }
}

pub open spec fn trimmed_text(o: Option<Seq<char>>) -> Option<Seq<char>> {
    match o {
        Some(s) => if trim_seq(s).len() > 0 {
            Some(trim_seq(s))
        } else {
            None
        },
        None => None,
    }
}

/// A dependency's version after the manifest's `dependency_versions` map is read: its own,
/// else the text under its id in that map, trimmed, unless blank.
pub open spec fn filled_version(d: (Seq<char>, Option<Seq<char>>), v: JsonValue) -> Option<Seq<char>> {
    match d.1 {
        Some(x) => Some(x),
        None => match json_get(v, "dependency_versions"@) {
            Some(map) => trimmed_text(json_get_str(map, d.0)),
            None => None,
        },
    }
}

pub open spec fn first_id_at(ds: Seq<(Seq<char>, Option<Seq<char>>)>, id: Seq<char>, k: int) -> bool {
    0 <= k < ds.len() && lower_seq(ds[k].0) == lower_seq(id) && forall|j: int|
        0 <= j < k ==> lower_seq((#[trigger] ds[j]).0) != lower_seq(id)
}

/// The dependencies with their versions filled: from `dependency_versions`, then the target
/// mod's version for the first dependency naming the target (ignoring ASCII case) that still
/// has none.
pub open spec fn with_versions_spec(info: &ModManifestInfo, v: JsonValue) -> Seq<(Seq<char>, Option<Seq<char>>)> {
    let ds = deps_view(info.dependencies@);
    let filled = Seq::new(ds.len(), |i: int| (ds[i].0, filled_version(ds[i], v)));
    match (info.target_mod_id, info.target_mod_version) {
        (Some(t), Some(tv)) => if exists|k: int| first_id_at(filled, t@, k) {
            let k = choose|k: int| first_id_at(filled, t@, k);
            if filled[k].1 is None {
                filled.update(k, (filled[k].0, Some(tv@)))
            } else {
                filled
            }
        } else {
            filled
        },
        _ => filled,
    }
}

/// Fills the dependencies' versions from the manifest's JSON; the other fields stay.
pub fn with_dependency_versions(info: ModManifestInfo, value: &JsonValue) -> (r: ModManifestInfo)
    ensures
        deps_view(r.dependencies@) == with_versions_spec(&info, *value),
        r == (ModManifestInfo { dependencies: r.dependencies, ..info }),
{
    let ghost ds = deps_view(info.dependencies@);
    let ghost filled = Seq::new(ds.len(), |i: int| (ds[i].0, filled_version(ds[i], *value)));
    let map = json_get_exec(value, "dependency_versions");
    let mut deps: Vec<ManifestDependency> = Vec::new();
    let mut i: usize = 0;
    while i < info.dependencies.len()
        invariant
            i <= info.dependencies@.len(),
            ds == deps_view(info.dependencies@),
            filled == Seq::new(ds.len(), |i: int| (ds[i].0, filled_version(ds[i], *value))),
            match map {
                Some(m) => json_get(*value, "dependency_versions"@) == Some(*m),
                None => json_get(*value, "dependency_versions"@) is None,
            },
            deps_view(deps@) == filled.take(i as int),
        decreases info.dependencies.len() - i,
    {
        let d = &info.dependencies[i];
        let version = match &d.version {
            Some(x) => Some(x.clone()),
            None => match map {
                Some(m) => match json_get_str_exec(m, d.id.as_str()) {
                    Some(t) => {
                        let tt = trim(chars_of(t.as_str()).as_slice());
                        if tt.len() > 0 {
                            Some(string_from(tt.as_slice()))
                        } else {
                            None
                        }
                    },
                    None => None,
                },
                None => None,
            },
        };
        let ghost before = deps_view(deps@);
        deps.push(ManifestDependency { id: d.id.clone(), version });
        assert(deps_view(deps@) =~= before.push(filled[i as int]));
        assert(deps_view(deps@) =~= filled.take(i + 1));
        i += 1;
    }
    assert(filled.take(i as int) =~= filled);
    if let (Some(t), Some(tv)) = (&info.target_mod_id, &info.target_mod_version) {
        let tc = chars_of(t.as_str());
        let mut k: usize = 0;
        while k < deps.len() && !eq_ignore_case(chars_of(deps[k].id.as_str()).as_slice(), tc.as_slice())
            invariant
                k <= deps@.len(),
                deps_view(deps@) == filled,
                tc@ == t@,
                forall|j: int| 0 <= j < k ==> lower_seq((#[trigger] filled[j]).0) != lower_seq(t@),
            decreases deps.len() - k,
        {
            assert(filled[k as int] == dep_view(deps@[k as int]));
            k += 1;
        }
        if k < deps.len() {
            proof {
                assert(filled[k as int] == dep_view(deps@[k as int]));
                assert(first_id_at(filled, t@, k as int));
                let c = choose|c: int| first_id_at(filled, t@, c);
                if c < k {
                    assert(lower_seq(filled[c].0) != lower_seq(t@));
                } else if c > k {
                    assert(lower_seq(filled[k as int].0) != lower_seq(t@));
                }
            }
            if deps[k].version.is_none() {
                let ghost before = deps@;
                let id = deps[k].id.clone();
                deps.set(k, ManifestDependency { id, version: Some(tv.clone()) });
                assert(deps_view(deps@) =~= filled.update(k as int, (filled[k as int].0, Some(tv@))));
            }
        } else {
            proof {
                assert forall|c: int| !first_id_at(filled, t@, c) by {
                    if 0 <= c < filled.len() {
                        assert(lower_seq(filled[c].0) != lower_seq(t@));
                    }
                }
            }
        }
    }
    ModManifestInfo { dependencies: deps, ..info }
}

pub open spec fn keys_of2(a: Seq<char>, b: Seq<char>) -> Seq<Seq<char>> {
    seq![a, b]
}

pub open spec fn keys_of3(a: Seq<char>, b: Seq<char>, c: Seq<char>) -> Seq<Seq<char>> {
    seq![a, b, c]
}

fn keys2(a: &str, b: &str) -> (r: Vec<String>)
    ensures
        strings_view(r@) == keys_of2(a@, b@),
{
    let r = vec![a.to_string(), b.to_string()];
    assert(strings_view(r@) =~= keys_of2(a@, b@));
    r
}

fn keys3(a: &str, b: &str, c: &str) -> (r: Vec<String>)
    ensures
        strings_view(r@) == keys_of3(a@, b@, c@),
{
    let r = vec![a.to_string(), b.to_string(), c.to_string()];
    assert(strings_view(r@) =~= keys_of3(a@, b@, c@));
    r
}

/// Which keys each manifest field is read from, in order of preference.
pub open spec fn manifest_fields_ok(v: JsonValue, info: &ModManifestInfo) -> bool {
    &&& opt_view(info.id) == string_field_spec(v, keys_of2("id"@, "mod_id"@))
    &&& opt_view(info.name) == string_field_spec(v, keys_of3("name"@, "mod_name"@, "id"@))
    &&& opt_view(info.version) == string_field_spec(v, keys_of2("version"@, "mod_version"@))
    &&& opt_view(info.author) == string_field_spec(v, keys_of2("author"@, "creator"@))
    &&& opt_view(info.description) == string_field_spec(v, keys_of2("description"@, "desc"@))
    &&& dep_list_ok(v, keys_of3("dependencies"@, "deps"@, "requires"@), info.dependencies@)
    &&& opt_view(info.target_mod_id) == string_field_spec(v, keys_of3("target_mod_id"@, "target_id"@, "source_mod_id"@))
    &&& opt_view(info.target_mod_name) == string_field_spec(
        v,
        keys_of3("target_mod_name"@, "target_name"@, "source_mod_name"@),
    )
    &&& opt_view(info.target_mod_version) == string_field_spec(
        v,
        keys_of3("target_mod_version"@, "target_version"@, "source_mod_version"@),
    )
    &&& strictly_sorted(strings_view(info.target_languages@))
    &&& keys_set(info.target_languages@) == seq_set(raw_list_field(v, keys_of2("target_languages"@, "languages"@)))
    &&& info.is_translation_patch == bool_field_spec(
        v,
        keys_of3("is_translation_patch"@, "translation_mod"@, "is_translation_mod"@),
    )
}

/// The fields of a manifest, each read from its keys.
pub fn manifest_info_from_value(value: &JsonValue) -> (r: ModManifestInfo)
    ensures
        manifest_fields_ok(*value, &r),
{
    ModManifestInfo {
        id: string_field(value, &keys2("id", "mod_id")),
        name: string_field(value, &keys3("name", "mod_name", "id")),
        version: string_field(value, &keys2("version", "mod_version")),
        author: string_field(value, &keys2("author", "creator")),
        description: string_field(value, &keys2("description", "desc")),
        dependencies: dependency_list_field(value, &keys3("dependencies", "deps", "requires")),
        target_mod_id: string_field(value, &keys3("target_mod_id", "target_id", "source_mod_id")),
        target_mod_name: string_field(value, &keys3("target_mod_name", "target_name", "source_mod_name")),
        target_mod_version: string_field(value, &keys3("target_mod_version", "target_version", "source_mod_version")),
        target_languages: string_list_field(value, &keys2("target_languages", "languages")),
        is_translation_patch: bool_field(value, &keys3("is_translation_patch", "translation_mod", "is_translation_mod")),
    }
}

/// A manifest counts when it names the mod, lists dependencies, targets a mod or says it is
/// a translation patch.
pub open spec fn counts_as_manifest(info: &ModManifestInfo) -> bool {
    ||| info.id is Some
    ||| info.name is Some
    ||| info.version is Some
    ||| info.dependencies@.len() > 0
    ||| info.target_mod_id is Some
    ||| info.target_mod_name is Some
    ||| info.is_translation_patch
}

/// `info` is the manifest that `v` gives: its fields read by their keys, with the
/// dependencies' versions filled in.
pub open spec fn manifest_info_ok(v: JsonValue, info: ModManifestInfo) -> bool {
    exists|raw: ModManifestInfo|
        #![trigger manifest_fields_ok(v, &raw)]
        manifest_fields_ok(v, &raw) && counts_as_manifest(&raw) && info == (ModManifestInfo {
            dependencies: info.dependencies,
            ..raw
        }) && deps_view(info.dependencies@) == with_versions_spec(&raw, v)
}

/// Whether the fields that `v` gives count as a manifest.
pub open spec fn manifest_json_counts(v: JsonValue) -> bool {
    exists|raw: ModManifestInfo| #![trigger manifest_fields_ok(v, &raw)]
        manifest_fields_ok(v, &raw) && counts_as_manifest(&raw)
}

/// What a JSON value gives as a manifest: the manifest where it counts as one, else nothing.
pub open spec fn manifest_json_ok(v: JsonValue, r: Option<ModManifestInfo>) -> bool {
    match r {
        Some(info) => manifest_info_ok(v, info),
        None => !manifest_json_counts(v),
    }
}

/// The manifest a JSON file gives, where it counts as one; its dependencies' versions filled.
pub fn manifest_from_json(value: &JsonValue) -> (r: Option<ModManifestInfo>)
    ensures
        manifest_json_ok(*value, r),
{
    let info = manifest_info_from_value(value);
    if info.id.is_some() || info.name.is_some() || info.version.is_some() || info.dependencies.len() > 0
        || info.target_mod_id.is_some() || info.target_mod_name.is_some() || info.is_translation_patch {
        let ghost raw = info;
        let r = with_dependency_versions(info, value);
        assert(manifest_fields_ok(*value, &raw));
        Some(r)
    } else {
        proof {
            assert forall|raw: ModManifestInfo| #![trigger manifest_fields_ok(*value, &raw)]
                manifest_fields_ok(*value, &raw) implies !counts_as_manifest(&raw) by {
                assert(opt_view(raw.id) == opt_view(info.id));
                assert(opt_view(raw.name) == opt_view(info.name));
                assert(opt_view(raw.version) == opt_view(info.version));
                assert(opt_view(raw.target_mod_id) == opt_view(info.target_mod_id));
                assert(opt_view(raw.target_mod_name) == opt_view(info.target_mod_name));
                lemma_dep_list_empty(*value, keys_of3("dependencies"@, "deps"@, "requires"@), info.dependencies@, raw.dependencies@);
            }
        }
        None
    }
}

/// What a manifest file's text gives: nothing where serde_json refuses the text or the value
/// is no manifest.
pub open spec fn text_manifest_ok(content: Seq<char>, r: Option<ModManifestInfo>) -> bool {
    match parsed_json(manifest_text_spec(content)) {
        Some(v) => manifest_json_ok(v, r),
        None => r is None,
    }
}

/// The manifest a manifest file's text gives: byte-order marks and comments dropped, the
/// rest parsed as JSON and read as above.
pub fn manifest_from_text(content: &str) -> (r: Option<ModManifestInfo>)
    ensures
        text_manifest_ok(content@, r),
{
    let text = manifest_json_text(content);
    match parse_json_text(text.as_str()) {
        Some(v) => manifest_from_json(&v),
        None => None,
    }
}

/// Whether a candidate file, read (`Some`) or not, gives a manifest.
pub open spec fn gives_manifest(content: Option<String>) -> bool {
    match content {
        Some(c) => match parsed_json(manifest_text_spec(c@)) {
            Some(v) => manifest_json_counts(v),
            None => false,
        },
        None => false,
    }
}

/// A manifest with no field set.
pub open spec fn is_empty_manifest(r: ModManifestInfo) -> bool {
    &&& r.id is None && r.name is None && r.version is None && r.author is None && r.description is None
    &&& r.dependencies@.len() == 0 && r.target_languages@.len() == 0
    &&& r.target_mod_id is None && r.target_mod_name is None && r.target_mod_version is None
    &&& !r.is_translation_patch
}

/// `r` is the manifest of the first candidate that gives one, or the empty manifest.
pub open spec fn first_manifest_ok(contents: Seq<Option<String>>, r: ModManifestInfo) -> bool
    decreases contents.len(),
{
    if contents.len() == 0 {
        is_empty_manifest(r)
    } else if gives_manifest(contents[0]) {
        text_manifest_ok(contents[0]->Some_0@, Some(r))
    } else {
        first_manifest_ok(contents.skip(1), r)
    }
}

/// A mod's manifest, read from the texts of its manifest candidates in path order (`None`
/// for one that could not be read): the first that gives a manifest, else the empty one.
pub fn read_mod_manifest_info(contents: &Vec<Option<String>>) -> (r: ModManifestInfo)
    ensures
        first_manifest_ok(contents@, r),
{
    let mut i: usize = 0;
    assert(contents@.skip(0) =~= contents@);
    while i < contents.len()
        invariant
            i <= contents@.len(),
            forall|r: ModManifestInfo| #[trigger] first_manifest_ok(contents@.skip(i as int), r)
                ==> first_manifest_ok(contents@, r),
        decreases contents.len() - i,
    {
        let ghost rest = contents@.skip(i as int);
        assert(rest[0] == contents@[i as int]);
        if let Some(c) = &contents[i] {
            if let Some(info) = manifest_from_text(c.as_str()) {
                assert(gives_manifest(rest[0]));
                assert(first_manifest_ok(rest, info));
                return info;
            }
        }
        assert(!gives_manifest(rest[0]));
        assert(rest.skip(1) =~= contents@.skip(i + 1));
        assert forall|r: ModManifestInfo| #[trigger] first_manifest_ok(contents@.skip(i + 1), r)
            implies first_manifest_ok(contents@, r) by {
            assert(first_manifest_ok(rest, r));
        }
        i += 1;
    }
    let r = empty_manifest_info();
    assert(contents@.skip(i as int).len() == 0);
    assert(first_manifest_ok(contents@.skip(i as int), r));
    r
}

/// Two lists read by the rule above from the same JSON are equally long.
proof fn lemma_dep_list_empty(v: JsonValue, keys: Seq<Seq<char>>, a: Seq<ManifestDependency>, b: Seq<ManifestDependency>)
    requires
        dep_list_ok(v, keys, a),
        dep_list_ok(v, keys, b),
        a.len() == 0,
    ensures
        b.len() == 0,
{
    match first_present(v, keys) {
        Some(JsonValue::Array(items)) => {
            assert(deps_view(a).len() == a.len());
            assert(deps_view(b).len() == b.len());
        },
        _ => {
            let ia = choose|ids: Seq<Seq<char>>| #![trigger ids_as_deps(ids)]
                strictly_sorted(ids) && seq_set(ids) == seq_set(raw_list_field(v, keys)) && deps_view(a) == dedup_ids(
                    sort_by_id(ids_as_deps(ids)),
                );
            let ib = choose|ids: Seq<Seq<char>>| #![trigger ids_as_deps(ids)]
                strictly_sorted(ids) && seq_set(ids) == seq_set(raw_list_field(v, keys)) && deps_view(b) == dedup_ids(
                    sort_by_id(ids_as_deps(ids)),
                );
            assert(deps_view(a).len() == 0);
            lemma_dedup_sort_empty(ids_as_deps(ia));
            assert(ia.len() == 0);
            assert(seq_set(ia) =~= Set::<Seq<char>>::empty());
            if ib.len() > 0 {
                assert(seq_set(ib).contains(ib[0]));
            }
            lemma_dedup_sort_len(ids_as_deps(ib));
            assert(deps_view(b).len() == b.len());
        },
    }
}

proof fn lemma_insert_len(s: Seq<(Seq<char>, Option<Seq<char>>)>, x: (Seq<char>, Option<Seq<char>>))
    ensures
        insert_by_id(s, x).len() == s.len() + 1,
    decreases s.len(),
{
    if s.len() > 0 && !lex_lt(x.0, s[0].0) {
        lemma_insert_len(s.skip(1), x);
    }
}

proof fn lemma_sort_len(s: Seq<(Seq<char>, Option<Seq<char>>)>)
    ensures
        sort_by_id(s).len() == s.len(),
    decreases s.len(),
{
    if s.len() > 0 {
        lemma_sort_len(s.drop_last());
        lemma_insert_len(sort_by_id(s.drop_last()), s.last());
    }
}

proof fn lemma_dedup_len(s: Seq<(Seq<char>, Option<Seq<char>>)>)
    ensures
        s.len() > 0 ==> dedup_ids(s).len() > 0,
        s.len() == 0 ==> dedup_ids(s).len() == 0,
    decreases s.len(),
{
    if s.len() > 1 {
        lemma_dedup_len(s.drop_last());
    }
}

proof fn lemma_dedup_sort_empty(s: Seq<(Seq<char>, Option<Seq<char>>)>)
    ensures
        dedup_ids(sort_by_id(s)).len() == 0 ==> s.len() == 0,
{
    lemma_sort_len(s);
    lemma_dedup_len(sort_by_id(s));
}

proof fn lemma_dedup_sort_len(s: Seq<(Seq<char>, Option<Seq<char>>)>)
    ensures
        s.len() > 0 ==> dedup_ids(sort_by_id(s)).len() > 0,
{
    lemma_sort_len(s);
    lemma_dedup_len(sort_by_id(s));
}

pub open spec fn or_opt(a: Option<String>, b: Option<String>) -> Option<Seq<char>> {
    match a {
        Some(x) => Some(x@),
        None => opt_view(b),
    }
}

/// The fallback's dependencies whose ids are not yet listed (ignoring ASCII case), appended
/// one by one after the primary's.
pub open spec fn merged_deps(primary: Seq<(Seq<char>, Option<Seq<char>>)>, fallback: Seq<(Seq<char>, Option<Seq<char>>)>) -> Seq<
    (Seq<char>, Option<Seq<char>>),
>
    decreases fallback.len(),
{
    if fallback.len() == 0 {
        primary
    } else {
        let prev = merged_deps(primary, fallback.drop_last());
        let d = fallback.last();
        if exists|j: int| 0 <= j < prev.len() && lower_seq((#[trigger] prev[j]).0) == lower_seq(d.0) {
            prev
        } else {
            prev.push(d)
        }
    }
}

/// Two manifests of one mod taken together: each field from `primary` where it has one,
/// else from `fallback`; a patch where either says so; the fallback's languages where the
/// primary lists none.
pub open spec fn merge_ok(p: &ModManifestInfo, f: &ModManifestInfo, r: &ModManifestInfo) -> bool {
    &&& opt_view(r.id) == or_opt(p.id, f.id)
    &&& opt_view(r.name) == or_opt(p.name, f.name)
    &&& opt_view(r.version) == or_opt(p.version, f.version)
    &&& opt_view(r.author) == or_opt(p.author, f.author)
    &&& opt_view(r.description) == or_opt(p.description, f.description)
    &&& opt_view(r.target_mod_id) == or_opt(p.target_mod_id, f.target_mod_id)
    &&& opt_view(r.target_mod_name) == or_opt(p.target_mod_name, f.target_mod_name)
    &&& opt_view(r.target_mod_version) == or_opt(p.target_mod_version, f.target_mod_version)
    &&& r.is_translation_patch == (p.is_translation_patch || f.is_translation_patch)
    &&& r.target_languages@ == if p.target_languages@.len() == 0 {
        f.target_languages@
    } else {
        p.target_languages@
    }
    &&& deps_view(r.dependencies@) == merged_deps(deps_view(p.dependencies@), deps_view(f.dependencies@))
}

fn or_string(a: Option<String>, b: Option<String>) -> (r: Option<String>)
    ensures
        opt_view(r) == or_opt(a, b),
{
    match a {
        Some(x) => Some(x),
        None => b,
    }
}

pub fn merge_manifest_info(primary: ModManifestInfo, fallback: ModManifestInfo) -> (r: ModManifestInfo)
    ensures
        merge_ok(&primary, &fallback, &r),
{
    let ghost p = primary;
    let ghost f = fallback;
    let ModManifestInfo {
        id,
        name,
        version,
        author,
        description,
        dependencies,
        target_mod_id,
        target_mod_name,
        target_mod_version,
        target_languages,
        is_translation_patch,
    } = primary;
    let mut deps = dependencies;
    let ghost fv = deps_view(fallback.dependencies@);
    let mut i: usize = 0;
    while i < fallback.dependencies.len()
        invariant
            i <= fallback.dependencies@.len(),
            fv == deps_view(fallback.dependencies@),
            deps_view(deps@) == merged_deps(deps_view(p.dependencies@), fv.take(i as int)),
        decreases fallback.dependencies.len() - i,
    {
        let d = &fallback.dependencies[i];
        let dc = chars_of(d.id.as_str());
        let mut k: usize = 0;
        while k < deps.len() && !eq_ignore_case(chars_of(deps[k].id.as_str()).as_slice(), dc.as_slice())
            invariant
                k <= deps@.len(),
                dc@ == d.id@,
                forall|j: int| 0 <= j < k ==> lower_seq((#[trigger] deps@[j]).id@) != lower_seq(d.id@),
            decreases deps.len() - k,
        {
            k += 1;
        }
        let ghost prev = deps_view(deps@);
        proof {
            assert(fv.take(i + 1).drop_last() =~= fv.take(i as int));
            assert(fv.take(i + 1).last() == dep_view(*d));
        }
        if k == deps.len() {
            proof {
                assert forall|j: int| 0 <= j < prev.len() implies lower_seq((#[trigger] prev[j]).0) != lower_seq(d.id@) by {
                    assert(prev[j] == dep_view(deps@[j]));
                }
            }
            deps.push(copy_dep(d));
            assert(deps_view(deps@) =~= prev.push(dep_view(*d)));
        } else {
            assert(prev[k as int] == dep_view(deps@[k as int]));
        }
        i += 1;
    }
    assert(fv.take(i as int) =~= fv);
    let langs = if target_languages.len() == 0 {
        fallback.target_languages
    } else {
        target_languages
    };
    ModManifestInfo {
        id: or_string(id, fallback.id),
        name: or_string(name, fallback.name),
        version: or_string(version, fallback.version),
        author: or_string(author, fallback.author),
        description: or_string(description, fallback.description),
        dependencies: deps,
        target_mod_id: or_string(target_mod_id, fallback.target_mod_id),
        target_mod_name: or_string(target_mod_name, fallback.target_mod_name),
        target_mod_version: or_string(target_mod_version, fallback.target_mod_version),
        target_languages: langs,
        is_translation_patch: is_translation_patch || fallback.is_translation_patch,
    }
}

/// A manifest that says nothing.
pub fn empty_manifest_info() -> (r: ModManifestInfo)
    ensures
        r.id is None && r.name is None && r.version is None && r.author is None && r.description is None,
        r.dependencies@.len() == 0 && r.target_languages@.len() == 0,
        r.target_mod_id is None && r.target_mod_name is None && r.target_mod_version is None,
        !r.is_translation_patch,
{
    ModManifestInfo {
        id: None,
        name: None,
        version: None,
        author: None,
        description: None,
        dependencies: Vec::new(),
        target_mod_id: None,
        target_mod_name: None,
        target_mod_version: None,
        target_languages: Vec::new(),
        is_translation_patch: false,
    }
}

/// The manifest of a mod whose files were scanned at `scan_root`: the scan's own where the
/// mod's path is the scan root; else the mod's path's manifest merged with the scan's, the
/// patch's own first where it is a translation patch. `record_manifest` is what was read at
/// the mod's path, if anything was.
pub fn manifest_for_record(
    record_path: &str,
    scan_root: &str,
    scan_manifest: ModManifestInfo,
    record_manifest: Option<ModManifestInfo>,
) -> (r: ModManifestInfo)
    ensures
        same_components(record_path@, scan_root@) ==> r == scan_manifest,
        !same_components(record_path@, scan_root@) ==> match record_manifest {
            Some(rm) => if is_patch_manifest_spec(&rm) {
                merge_ok(&rm, &scan_manifest, &r)
            } else {
                merge_ok(&scan_manifest, &rm, &r)
            },
            None => r == scan_manifest,
        },
{
    if same_components_exec(record_path, scan_root) {
        return scan_manifest;
    }
    match record_manifest {
        Some(rm) => {
            if is_translation_patch_manifest(&rm) {
                merge_manifest_info(rm, scan_manifest)
            } else {
                merge_manifest_info(scan_manifest, rm)
            }
        },
        None => scan_manifest,
    }
}

} // verus!
