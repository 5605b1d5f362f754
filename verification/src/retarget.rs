//! Pointing a translation patch's manifest at the version of the mod it translates.
use vstd::prelude::*;
use crate::text::{chars_of, string_from, trim, trim_seq, lower_seq, eq_ignore_case};
use crate::json::{
    JsonValue, json_get, json_str, pairs_get, keys_unique, member_at, member_index, object_insert,
    json_str_exec, json_get_str_exec, lemma_member_prefix, lemma_member_unique,
};
use crate::json::{parse_json_text, parsed_json, pretty_json, json_text_pretty, manifest_text_spec, manifest_json_text};
use crate::manifest::{item_name_raw, manifest_info_from_value, manifest_fields_ok};
use crate::patches::{is_patch_manifest_spec, is_translation_patch_manifest};
use crate::roots::opt_view;
use crate::model::ModManifestInfo;
use crate::order::{lex_lt, lex_lt_exec, lemma_lex_total, lemma_lex_transitive, lemma_lex_irreflexive};

verus! {

broadcast use vstd::string::group_string_axioms;

/// A member that is the text `s`.
pub open spec fn str_is(v: Option<JsonValue>, s: Seq<char>) -> bool {
    match v {
        Some(x) => json_str(x) == Some(s),
        None => false,
    }
}

/// A dependency entry names the target: as text, or by its `id` or `name`, ignoring ASCII
/// case.
pub open spec fn item_matches(item: JsonValue, target: Seq<char>) -> bool {
    match item_name_raw(item) {
        Some(n) => lower_seq(n) == lower_seq(target),
        None => false,
    }
}

pub fn manifest_dependency_value_matches(value: &JsonValue, target_id: &str) -> (r: bool)
    ensures
        r == item_matches(*value, target_id@),
{
    let raw = match json_str_exec(value) {
        Some(s) => Some(s),
        None => match json_get_str_exec(value, "id") {
            Some(s) => Some(s),
            None => json_get_str_exec(value, "name"),
        },
    };
    match raw {
        Some(s) => eq_ignore_case(chars_of(s.as_str()).as_slice(), chars_of(target_id).as_slice()),
        None => false,
    }
}

pub open spec fn key_matches(k: Seq<char>, target: Seq<char>) -> bool {
    lower_seq(k) == lower_seq(target)
}

/// The key a version map holds the target under: the first, in key order, that names the
/// target ignoring ASCII case; else the target itself.
pub open spec fn least_matching(vp: Seq<(String, JsonValue)>, target: Seq<char>, i: int) -> bool {
    0 <= i < vp.len() && key_matches(vp[i].0@, target) && forall|j: int|
        0 <= j < vp.len() && key_matches((#[trigger] vp[j]).0@, target) ==> !lex_lt(vp[j].0@, vp[i].0@)
}

pub open spec fn version_key(vp: Seq<(String, JsonValue)>, target: Seq<char>) -> Seq<char> {
    if exists|i: int| least_matching(vp, target, i) {
        vp[choose|i: int| least_matching(vp, target, i)].0@
    } else {
        target
    }
}

/// The version map afterwards: the target's key set to the version, the rest kept; a map
/// that is missing or not an object starts empty.
pub open spec fn versions_ok(old: Option<JsonValue>, new: Option<JsonValue>, target: Seq<char>, version: Seq<char>) -> bool {
    match old {
        Some(JsonValue::Object(vp)) => match new {
            Some(JsonValue::Object(nq)) => {
                &&& str_is(pairs_get(nq@, version_key(vp@, target)), version)
                &&& forall|k: Seq<char>| k != version_key(vp@, target) ==> pairs_get(nq@, k) == pairs_get(vp@, k)
                &&& keys_unique(vp@) ==> keys_unique(nq@)
            },
            _ => false,
        },
        _ => match new {
            Some(JsonValue::Object(nq)) => {
                &&& str_is(pairs_get(nq@, target), version)
                &&& forall|k: Seq<char>| k != target ==> pairs_get(nq@, k) is None
                &&& keys_unique(nq@)
            },
            _ => false,
        },
    }
}

/// One dependency entry afterwards: one that names the target and is an object gets the
/// version; any other stays.
pub open spec fn item_ok(old: JsonValue, new: JsonValue, target: Seq<char>, version: Seq<char>) -> bool {
    if item_matches(old, target) && old is Object {
        match (old, new) {
            (JsonValue::Object(p), JsonValue::Object(q)) => {
                &&& str_is(pairs_get(q@, "version"@), version)
                &&& forall|k: Seq<char>| k != "version"@ ==> pairs_get(q@, k) == pairs_get(p@, k)
                &&& keys_unique(p@) ==> keys_unique(q@)
            },
            _ => false,
        }
    } else {
        new == old
    }
}

pub open spec fn any_matches(items: Seq<JsonValue>, target: Seq<char>) -> bool {
    exists|i: int| 0 <= i < items.len() && item_matches(#[trigger] items[i], target)
}

/// The dependency list afterwards: entries for the target get the version, and the target's
/// id is added where no entry names it.
pub open spec fn items_ok(old: Seq<JsonValue>, new: Seq<JsonValue>, target: Seq<char>, version: Seq<char>) -> bool {
    &&& new.len() == old.len() + if any_matches(old, target) {
        0int
    } else {
        1int
    }
    &&& forall|i: int| 0 <= i < old.len() ==> item_ok(old[i], #[trigger] new[i], target, version)
    &&& !any_matches(old, target) ==> json_str(new.last()) == Some(target)
}

pub open spec fn deps_ok(old: Option<JsonValue>, new: Option<JsonValue>, target: Seq<char>, version: Seq<char>) -> bool {
    match old {
        None => match new {
            Some(JsonValue::Array(ni)) => ni@.len() == 1 && json_str(ni@[0]) == Some(target),
            _ => false,
        },
        Some(JsonValue::Array(oi)) => match new {
            Some(JsonValue::Array(ni)) => items_ok(oi@, ni@, target, version),
            _ => false,
        },
        Some(_) => new == old,
    }
}

pub open spec fn touched_key(k: Seq<char>) -> bool {
    ||| k == "target_mod_id"@
    ||| k == "target_mod_name"@
    ||| k == "target_mod_version"@
    ||| k == "target_version"@
    ||| k == "source_mod_version"@
    ||| k == "dependency_versions"@
    ||| k == "dependencies"@
}

pub open spec fn alias_ok(op: Seq<(String, JsonValue)>, np: Seq<(String, JsonValue)>, alias: Seq<char>, version: Seq<char>) -> bool {
    if pairs_get(op, alias) is Some {
        str_is(pairs_get(np, alias), version)
    } else {
        pairs_get(np, alias) is None
    }
}

/// A patch manifest retargeted: the target's id, name (where one is given and not blank,
/// trimmed) and version set; `target_version` and `source_mod_version` updated where present;
/// the version map and the dependency list given the target; all else kept. A value that
/// is not an object is left alone.
pub open spec fn retarget_ok(old: JsonValue, new: JsonValue, target_id: Seq<char>, target_name: Option<Seq<char>>, version: Seq<char>) -> bool {
    match old {
        JsonValue::Object(op) => match new {
            JsonValue::Object(np) => {
                &&& str_is(pairs_get(np@, "target_mod_id"@), target_id)
                &&& match target_name {
                    Some(n) if trim_seq(n).len() > 0 => str_is(pairs_get(np@, "target_mod_name"@), trim_seq(n)),
                    _ => pairs_get(np@, "target_mod_name"@) == pairs_get(op@, "target_mod_name"@),
                }
                &&& str_is(pairs_get(np@, "target_mod_version"@), version)
                &&& alias_ok(op@, np@, "target_version"@, version)
                &&& alias_ok(op@, np@, "source_mod_version"@, version)
                &&& versions_ok(pairs_get(op@, "dependency_versions"@), pairs_get(np@, "dependency_versions"@), target_id, version)
                &&& deps_ok(pairs_get(op@, "dependencies"@), pairs_get(np@, "dependencies"@), target_id, version)
                &&& forall|k: Seq<char>| !touched_key(k) ==> pairs_get(np@, k) == pairs_get(op@, k)
                &&& keys_unique(op@) ==> keys_unique(np@)
            },
            _ => false,
        },
        _ => new == old,
    }
}

/// Takes the value of the member `key` out, leaving `null` in its place.
fn take_member(pairs: &mut Vec<(String, JsonValue)>, key: &str) -> (r: Option<JsonValue>)
    ensures
        r == pairs_get(old(pairs)@, key@),
        forall|k: Seq<char>| k != key@ ==> pairs_get(final(pairs)@, k) == pairs_get(old(pairs)@, k),
        keys_unique(old(pairs)@) ==> keys_unique(final(pairs)@),
{
    let ghost before = pairs@;
    match member_index(pairs, key) {
        None => {
            proof {
                assert(!(exists|m: int| member_at(before, key@, m)));
            }
            None
        },
        Some(i) => {
            let (k, v) = pairs.remove(i);
            pairs.insert(i, (k, JsonValue::Null));
            proof {
                assert(pairs@ =~= before.update(i as int, (before[i as int].0, JsonValue::Null)));
                let c = choose|c: int| member_at(before, key@, c);
                lemma_member_unique(before, key@, i as int, c);
                assert forall|j: int| 0 <= j < pairs@.len() implies (#[trigger] pairs@[j]).0@ == before[j].0@ by {
                }
                lemma_member_prefix(pairs@, before, pairs@.len() as int);
                assert forall|k: Seq<char>| k != key@ implies pairs_get(pairs@, k) == pairs_get(before, k) by {
                    assert forall|m: int| member_at(pairs@, k, m) <==> member_at(before, k, m) by {
                        if 0 <= m < pairs@.len() {
                            assert(member_at(pairs@, k, m) <==> member_at(before, k, m));
                        }
                    }
                    if exists|m: int| member_at(pairs@, k, m) {
                        let m1 = choose|m: int| member_at(pairs@, k, m);
                        let m2 = choose|m: int| member_at(before, k, m);
                        lemma_member_unique(before, k, m1, m2);
                        assert(m1 != i);
                    }
                }
                assert forall|a: int, b: int| 0 <= a < b < pairs@.len() && keys_unique(before) implies (#[trigger] pairs@[a]).0@
                    != (#[trigger] pairs@[b]).0@ by {
                    assert(pairs@[a].0@ == before[a].0@);
                    assert(pairs@[b].0@ == before[b].0@);
                }
            }
            Some(v)
        },
    }
}

/// The key a version map holds the target under.
fn version_key_exec(vp: &Vec<(String, JsonValue)>, target: &str) -> (r: String)
    ensures
        r@ == version_key(vp@, target@),
{
    let t = chars_of(target);
    let mut best: Option<usize> = None;
    let mut i: usize = 0;
    while i < vp.len()
        invariant
            i <= vp@.len(),
            t@ == target@,
            match best {
                Some(b) => b < i && key_matches(vp@[b as int].0@, target@) && forall|j: int|
                    0 <= j < i && key_matches((#[trigger] vp@[j]).0@, target@) ==> !lex_lt(vp@[j].0@, vp@[b as int].0@),
                None => forall|j: int| 0 <= j < i ==> !key_matches((#[trigger] vp@[j]).0@, target@),
            },
        decreases vp.len() - i,
    {
        let k = chars_of(vp[i].0.as_str());
        if eq_ignore_case(k.as_slice(), t.as_slice()) {
            match best {
                None => {
                    proof {
                        lemma_lex_irreflexive(vp@[i as int].0@);
                    }
                    best = Some(i);
                },
                Some(b) => {
                    if lex_lt_exec(k.as_slice(), chars_of(vp[b].0.as_str()).as_slice()) {
                        proof {
                            assert forall|j: int| 0 <= j <= i && key_matches((#[trigger] vp@[j]).0@, target@) implies !lex_lt(
                                vp@[j].0@,
                                vp@[i as int].0@,
                            ) by {
                                if j == i {
                                    lemma_lex_irreflexive(vp@[i as int].0@);
                                } else if lex_lt(vp@[j].0@, vp@[i as int].0@) {
                                    lemma_lex_transitive(vp@[j].0@, vp@[i as int].0@, vp@[b as int].0@);
                                }
                            }
                        }
                        best = Some(i);
                    }
                },
            }
        }
        i += 1;
    }
    match best {
        Some(b) => {
            proof {
                assert(least_matching(vp@, target@, b as int));
                let c = choose|c: int| least_matching(vp@, target@, c);
                assert(!lex_lt(vp@[c].0@, vp@[b as int].0@));
                assert(!lex_lt(vp@[b as int].0@, vp@[c].0@));
                lemma_lex_total(vp@[c].0@, vp@[b as int].0@);
            }
            vp[b].0.clone()
        },
        None => {
            proof {
                assert forall|c: int| !least_matching(vp@, target@, c) by {
                    if 0 <= c < vp@.len() {
                        assert(!key_matches(vp@[c].0@, target@));
                    }
                }
            }
            target.to_string()
        },
    }
}

/// The version map with the target's version set.
fn retarget_versions(old: Option<JsonValue>, target: &str, version: &str) -> (r: JsonValue)
    ensures
        versions_ok(old, Some(r), target@, version@),
{
    match old {
        Some(JsonValue::Object(vp)) => {
            let key = version_key_exec(&vp, target);
            let mut nq = vp;
            object_insert(&mut nq, key.as_str(), JsonValue::Str(version.to_string()));
            JsonValue::Object(nq)
        },
        _ => {
            let mut nq: Vec<(String, JsonValue)> = Vec::new();
            object_insert(&mut nq, target, JsonValue::Str(version.to_string()));
            proof {
                assert forall|k: Seq<char>| k != target@ implies pairs_get(nq@, k) is None by {
                    assert(pairs_get(Seq::<(String, JsonValue)>::empty(), k) is None);
                }
                assert(keys_unique(Seq::<(String, JsonValue)>::empty()));
            }
            JsonValue::Object(nq)
        },
    }
}

/// The dependency list with the target's entries given the version, and the target added
/// where no entry names it.
fn retarget_items(items: Vec<JsonValue>, target: &str, version: &str) -> (r: Vec<JsonValue>)
    ensures
        items_ok(items@, r@, target@, version@),
{
    let ghost old = items@;
    let mut rest = items;
    let mut out: Vec<JsonValue> = Vec::new();
    let mut matched = false;
    while rest.len() > 0
        invariant
            out@.len() + rest@.len() == old.len(),
            rest@ == old.skip(out@.len() as int),
            forall|i: int| 0 <= i < out@.len() ==> item_ok(old[i], #[trigger] out@[i], target@, version@),
            matched == exists|i: int| 0 <= i < out@.len() && item_matches(#[trigger] old[i], target@),
        decreases rest.len(),
    {
        let ghost n = out@.len() as int;
        let x = rest.remove(0);
        assert(x == old[n]);
        assert(rest@ =~= old.skip(n + 1));
        let m = manifest_dependency_value_matches(&x, target);
        let y = if m {
            match x {
                JsonValue::Object(p) => {
                    let mut q = p;
                    object_insert(&mut q, "version", JsonValue::Str(version.to_string()));
                    JsonValue::Object(q)
                },
                other => other,
            }
        } else {
            x
        };
        if m {
            matched = true;
        }
        out.push(y);
        proof {
            assert(out@[n] == y);
            if !m && matched {
                let i = choose|i: int| 0 <= i < n && item_matches(#[trigger] old[i], target@);
                assert(old[i] == old[i]);
            }
        }
        assert(matched == exists|i: int| 0 <= i < out@.len() && item_matches(#[trigger] old[i], target@)) by {
            if m {
                assert(item_matches(old[n], target@));
            }
            if matched && !m {
                let i = choose|i: int| 0 <= i < n && item_matches(#[trigger] old[i], target@);
                assert(0 <= i < out@.len());
            }
        }
    }
    assert(out@.len() == old.len());
    if !matched {
        out.push(JsonValue::Str(target.to_string()));
    }
    proof {
        assert(matched == any_matches(old, target@));
    }
    out
}

proof fn lemma_keys_distinct()
    ensures
        "target_mod_id"@ != "target_mod_name"@,
        "target_mod_id"@ != "target_mod_version"@,
        "target_mod_id"@ != "target_version"@,
        "target_mod_id"@ != "source_mod_version"@,
        "target_mod_id"@ != "dependency_versions"@,
        "target_mod_id"@ != "dependencies"@,
        "target_mod_name"@ != "target_mod_version"@,
        "target_mod_name"@ != "target_version"@,
        "target_mod_name"@ != "source_mod_version"@,
        "target_mod_name"@ != "dependency_versions"@,
        "target_mod_name"@ != "dependencies"@,
        "target_mod_version"@ != "target_version"@,
        "target_mod_version"@ != "source_mod_version"@,
        "target_mod_version"@ != "dependency_versions"@,
        "target_mod_version"@ != "dependencies"@,
        "target_version"@ != "source_mod_version"@,
        "target_version"@ != "dependency_versions"@,
        "target_version"@ != "dependencies"@,
        "source_mod_version"@ != "dependency_versions"@,
        "source_mod_version"@ != "dependencies"@,
        "dependency_versions"@ != "dependencies"@,
{
    reveal_strlit("target_mod_id");
    reveal_strlit("target_mod_name");
    reveal_strlit("target_mod_version");
    reveal_strlit("target_version");
    reveal_strlit("source_mod_version");
    reveal_strlit("dependency_versions");
    reveal_strlit("dependencies");
    assert("target_mod_version"@[0] != "source_mod_version"@[0]);
    assert("target_mod_id"@.len() != "target_mod_name"@.len());
    assert("target_mod_version"@.len() != "target_version"@.len());
    assert("target_version"@.len() != "dependency_versions"@.len());
}

/// Sets `key` to the text `version` where the object already has it.
fn update_alias(pairs: &mut Vec<(String, JsonValue)>, key: &str, version: &str)
    ensures
        alias_ok(old(pairs)@, final(pairs)@, key@, version@),
        forall|k: Seq<char>| k != key@ ==> pairs_get(final(pairs)@, k) == pairs_get(old(pairs)@, k),
        keys_unique(old(pairs)@) ==> keys_unique(final(pairs)@),
{
    match member_index(pairs, key) {
        Some(_) => {
            object_insert(pairs, key, JsonValue::Str(version.to_string()));
        },
        None => {
            assert(!(exists|m: int| member_at(old(pairs)@, key@, m)));
        },
    }
}

/// Points a translation patch's manifest at `target_id`, naming it `target_name` where that
/// is given, at version `target_version`.
pub fn update_translation_patch_manifest_value(
    value: &mut JsonValue,
    target_id: &str,
    target_name: Option<&str>,
    target_version: &str,
)
    ensures
        retarget_ok(*old(value), *final(value), target_id@, match target_name {
            Some(n) => Some(n@),
            None => None,
        }, target_version@),
{
    let mut taken = JsonValue::Null;
    std::mem::swap(&mut taken, value);
    let ghost orig = taken;
    match taken {
        JsonValue::Object(p0) => {
            let ghost op = p0@;
            let mut pairs = p0;
            object_insert(&mut pairs, "target_mod_id", JsonValue::Str(target_id.to_string()));
            let ghost p1 = pairs@;
            let name: Option<Vec<char>> = match target_name {
                Some(n) => {
                    let t = trim(chars_of(n).as_slice());
                    if t.len() > 0 {
                        Some(t)
                    } else {
                        None
                    }
                },
                None => None,
            };
            match name {
                Some(t) => {
                    object_insert(&mut pairs, "target_mod_name", JsonValue::Str(string_from(t.as_slice())));
                },
                None => {},
            }
            let ghost p2 = pairs@;
            object_insert(&mut pairs, "target_mod_version", JsonValue::Str(target_version.to_string()));
            let ghost p3 = pairs@;
            update_alias(&mut pairs, "target_version", target_version);
            let ghost p4 = pairs@;
            update_alias(&mut pairs, "source_mod_version", target_version);
            let ghost p5 = pairs@;
            let old_versions = take_member(&mut pairs, "dependency_versions");
            let nv = retarget_versions(old_versions, target_id, target_version);
            object_insert(&mut pairs, "dependency_versions", nv);
            let ghost p6 = pairs@;
            let old_deps = take_member(&mut pairs, "dependencies");
            let ghost od = old_deps;
            let nd = match old_deps {
                None => {
                    let mut items: Vec<JsonValue> = Vec::new();
                    items.push(JsonValue::Str(target_id.to_string()));
                    JsonValue::Array(items)
                },
                Some(JsonValue::Array(items)) => JsonValue::Array(retarget_items(items, target_id, target_version)),
                Some(other) => other,
            };
            object_insert(&mut pairs, "dependencies", nd);
            proof {
                lemma_keys_distinct();
                assert(pairs_get(pairs@, "dependencies"@) == Some(nd));
                assert(od == pairs_get(p6, "dependencies"@));
                assert(pairs_get(p6, "dependencies"@) == pairs_get(op, "dependencies"@));
                assert(pairs_get(p6, "dependency_versions"@) == Some(nv));
                assert(pairs_get(p5, "dependency_versions"@) == pairs_get(op, "dependency_versions"@));
            }
            *value = JsonValue::Object(pairs);
        },
        other => {
            *value = other;
        },
    }
}

/// The version a patch is synced to: the target's version trimmed, unless blank or `-`.
pub open spec fn sync_version_spec(v: Option<Seq<char>>) -> Option<Seq<char>> {
    match v {
        Some(x) => if trim_seq(x).len() > 0 && trim_seq(x) != "-"@ {
            Some(trim_seq(x))
        } else {
            None
        },
        None => None,
    }
}

pub fn sync_target_version(target_version: Option<&str>) -> (r: Option<String>)
    ensures
        opt_view(r) == sync_version_spec(match target_version {
            Some(x) => Some(x@),
            None => None,
        }),
{
    match target_version {
        Some(x) => {
            let t = trim(chars_of(x).as_slice());
            let dash = chars_of("-");
            if t.len() > 0 && !crate::text::seq_eq(t.as_slice(), dash.as_slice()) {
                Some(string_from(t.as_slice()))
            } else {
                None
            }
        },
        None => None,
    }
}

/// A manifest file's JSON retargeted where it declares a translation patch: at the mod it
/// names itself, else at `target_id`. Other manifests give nothing.
pub fn retarget_patch_manifest(value: JsonValue, target_id: &str, target_name: Option<&str>, target_version: &str) -> (r: Option<
    JsonValue,
>)
    ensures
        forall|info: ModManifestInfo| #![trigger manifest_fields_ok(value, &info)]
            manifest_fields_ok(value, &info) ==> match r {
                None => !is_patch_manifest_spec(&info),
                Some(nv) => is_patch_manifest_spec(&info) && retarget_ok(value, nv, match info.target_mod_id {
                    Some(t) => t@,
                    None => target_id@,
                }, match target_name {
                    Some(n) => Some(n@),
                    None => None,
                }, target_version@),
            },
{
    let info = manifest_info_from_value(&value);
    if !is_translation_patch_manifest(&info) {
        proof {
            assert forall|other: ModManifestInfo| #![trigger manifest_fields_ok(value, &other)]
                manifest_fields_ok(value, &other) implies !is_patch_manifest_spec(&other) by {
                assert(opt_view(other.target_mod_id) == opt_view(info.target_mod_id));
                assert(opt_view(other.target_mod_name) == opt_view(info.target_mod_name));
                assert(crate::model::keys_set(other.target_languages@) == crate::model::keys_set(info.target_languages@));
                if other.target_languages@.len() > 0 {
                    assert(crate::model::keys_set(other.target_languages@).contains(other.target_languages@[0]@));
                }
            }
        }
        return None;
    }
    let dependency_id = match &info.target_mod_id {
        Some(t) => t.clone(),
        None => target_id.to_string(),
    };
    let mut v = value;
    update_translation_patch_manifest_value(&mut v, dependency_id.as_str(), target_name, target_version);
    proof {
        assert forall|other: ModManifestInfo| #![trigger manifest_fields_ok(value, &other)]
            manifest_fields_ok(value, &other) implies is_patch_manifest_spec(&other) && opt_view(other.target_mod_id)
            == opt_view(info.target_mod_id) by {
            assert(opt_view(other.target_mod_id) == opt_view(info.target_mod_id));
            assert(opt_view(other.target_mod_name) == opt_view(info.target_mod_name));
            assert(crate::model::keys_set(other.target_languages@) == crate::model::keys_set(info.target_languages@));
            if info.target_languages@.len() > 0 {
                assert(crate::model::keys_set(info.target_languages@).contains(info.target_languages@[0]@));
            }
        }
    }
    Some(v)
}

/// The mod a patch manifest is pointed at: the one it names itself, else `target_id`.
pub open spec fn patch_target(info: ModManifestInfo, target_id: Seq<char>) -> Seq<char> {
    match info.target_mod_id {
        Some(t) => t@,
        None => target_id,
    }
}

pub open spec fn opt_str_view(o: Option<&str>) -> Option<Seq<char>> {
    match o {
        Some(x) => Some(x@),
        None => None,
    }
}

/// Whether a manifest file's text is JSON that declares a translation patch.
pub open spec fn patch_text(content: Seq<char>) -> bool {
    match parsed_json(manifest_text_spec(content)) {
        Some(v) => exists|info: ModManifestInfo| #![trigger manifest_fields_ok(v, &info)]
            manifest_fields_ok(v, &info) && is_patch_manifest_spec(&info),
        None => false,
    }
}

/// `out` is the text of a patch manifest retargeted as above, written out pretty.
pub open spec fn retargeted_text_ok(
    content: Seq<char>,
    target_id: Seq<char>,
    target_name: Option<Seq<char>>,
    version: Seq<char>,
    out: Seq<char>,
) -> bool {
    match parsed_json(manifest_text_spec(content)) {
        Some(v) => exists|info: ModManifestInfo, nv: JsonValue| #![trigger manifest_fields_ok(v, &info), pretty_json(nv)]
            manifest_fields_ok(v, &info) && retarget_ok(v, nv, patch_target(info, target_id), target_name, version)
                && out == pretty_json(nv),
        None => false,
    }
}

/// A manifest file's text retargeted where it declares a translation patch, written out
/// again; nothing for other texts.
pub fn retarget_patch_manifest_text(content: &str, target_id: &str, target_name: Option<&str>, target_version: &str) -> (r:
    Option<String>)
    ensures
        r is Some <==> patch_text(content@),
        r matches Some(t) ==> retargeted_text_ok(content@, target_id@, opt_str_view(target_name), target_version@, t@),
{
    let text = manifest_json_text(content);
    match parse_json_text(text.as_str()) {
        Some(v) => {
            let ghost v0 = v;
            let info = manifest_info_from_value(&v);
            match retarget_patch_manifest(v, target_id, target_name, target_version) {
                Some(nv) => {
                    let t = json_text_pretty(&nv);
                    assert(manifest_fields_ok(v0, &info) && is_patch_manifest_spec(&info));
                    assert(manifest_fields_ok(v0, &info) && retarget_ok(v0, nv, patch_target(info, target_id@),
                        opt_str_view(target_name), target_version@) && t@ == pretty_json(nv));
                    Some(t)
                },
                None => {
                    assert(!patch_text(content@)) by {
                        if patch_text(content@) {
                            let other = choose|o: ModManifestInfo| #![trigger manifest_fields_ok(v0, &o)]
                                manifest_fields_ok(v0, &o) && is_patch_manifest_spec(&o);
                            assert(manifest_fields_ok(v0, &other));
                        }
                    }
                    None
                },
            }
        },
        None => None,
    }
}

/// Whether the `i`-th candidate is the first that was read and declares a translation patch.
pub open spec fn first_patch_index(contents: Seq<Option<String>>, i: int) -> bool {
    &&& 0 <= i < contents.len()
    &&& contents[i] is Some && patch_text(contents[i]->Some_0@)
    &&& forall|j: int| 0 <= j < i ==> !(#[trigger] contents[j] is Some && patch_text(contents[j]->Some_0@))
}

/// Syncing a translation patch to its target's version: among the texts of the patch's
/// manifest candidates in path order (`None` for one that could not be read), the first that
/// declares a translation patch, retargeted; with its index. Nothing where the version is
/// blank or `-`, or no candidate declares a patch.
pub fn sync_translation_patch_manifest_version(
    contents: &Vec<Option<String>>,
    target_id: &str,
    target_name: Option<&str>,
    target_version: Option<&str>,
) -> (r: Option<(usize, String)>)
    ensures
        match r {
            Some((i, t)) => sync_version_spec(opt_str_view(target_version)) is Some && first_patch_index(contents@, i as int)
                && retargeted_text_ok(contents@[i as int]->Some_0@, target_id@, opt_str_view(target_name),
                sync_version_spec(opt_str_view(target_version))->Some_0, t@),
            None => sync_version_spec(opt_str_view(target_version)) is None || forall|j: int| 0 <= j < contents@.len()
                ==> !(#[trigger] contents@[j] is Some && patch_text(contents@[j]->Some_0@)),
        },
{
    let version = match sync_target_version(target_version) {
        Some(v) => v,
        None => {
            return None;
        },
    };
    assert(opt_str_view(target_version) == match target_version {
        Some(x) => Some(x@),
        None => None::<Seq<char>>,
    });
    let mut i: usize = 0;
    while i < contents.len()
        invariant
            i <= contents@.len(),
            version@ == sync_version_spec(opt_str_view(target_version))->Some_0,
            sync_version_spec(opt_str_view(target_version)) is Some,
            forall|j: int| 0 <= j < i ==> !(#[trigger] contents@[j] is Some && patch_text(contents@[j]->Some_0@)),
        decreases contents.len() - i,
    {
        if let Some(c) = &contents[i] {
            if let Some(t) = retarget_patch_manifest_text(c.as_str(), target_id, target_name, version.as_str()) {
                return Some((i, t));
            }
        }
        i += 1;
    }
    None
}

} // verus!
