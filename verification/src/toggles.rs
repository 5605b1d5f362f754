//! Turning mods on and off: which state each chosen mod should take, and whether the
//! choice may stand.
use vstd::prelude::*;
use crate::text::{chars_of, cat, seq_eq};
use crate::model::keys_set;
use crate::order::{sort_dedup, strictly_sorted};
use crate::rows::{ModRowDto, ModDependencyDto};
use crate::roots::opt_view;
use crate::deleted::contains_key;

verus! {

broadcast use vstd::string::group_string_axioms;

/// A change asked for in the mods table: `active` is the mod's state when it was clicked.
pub struct ModToggleDto {
    pub key: String,
    pub active: bool,
    pub force: Option<bool>,
}

/// The state a mod should take, and whether to take it without its dependencies.
pub struct ToggleTarget {
    pub key: String,
    pub target_active: bool,
    pub force: bool,
}

pub open spec fn last_change_at(changes: Seq<ModToggleDto>, key: Seq<char>, i: int) -> bool {
    0 <= i < changes.len() && changes[i].key@ == key && forall|j: int| i < j < changes.len() ==> (#[trigger] changes[j]).key@ != key
}

/// The last change asked for a key.
pub open spec fn last_change(changes: Seq<ModToggleDto>, key: Seq<char>) -> Option<ModToggleDto> {
    if exists|i: int| last_change_at(changes, key, i) {
        Some(changes[choose|i: int| last_change_at(changes, key, i)])
    } else {
        None
    }
}

pub open spec fn change_keys(changes: Seq<ModToggleDto>) -> Set<Seq<char>> {
    Set::new(|k: Seq<char>| exists|i: int| 0 <= i < changes.len() && (#[trigger] changes[i]).key@ == k)
}

pub open spec fn targets_ok(changes: Seq<ModToggleDto>, r: Seq<ToggleTarget>) -> bool {
    &&& strictly_sorted(Seq::new(r.len(), |i: int| r[i].key@))
    &&& Set::new(|k: Seq<char>| exists|i: int| 0 <= i < r.len() && (#[trigger] r[i]).key@ == k) == change_keys(changes)
    &&& forall|i: int|
        0 <= i < r.len() ==> target_follows(last_change(changes, (#[trigger] r[i]).key@), r[i])
}

/// A target takes the opposite of the state its change was clicked in, and the change's
/// force flag, off where unset.
pub open spec fn target_follows(c: Option<ModToggleDto>, t: ToggleTarget) -> bool {
    match c {
        Some(c) => t.target_active == !c.active && t.force == match c.force {
            Some(f) => f,
            None => false,
        },
        None => false,
    }
}

/// One target per mod key, sorted by key: the opposite of the state its last change was
/// clicked in, and that change's force flag (off where unset).
pub fn toggle_targets(changes: &Vec<ModToggleDto>) -> (r: Vec<ToggleTarget>)
    ensures
        targets_ok(changes@, r@),
{
    let mut keys: Vec<String> = Vec::new();
    let mut i: usize = 0;
    while i < changes.len()
        invariant
            i <= changes@.len(),
            keys@.len() == i,
            forall|k: int| 0 <= k < i ==> (#[trigger] keys@[k])@ == changes@[k].key@,
        decreases changes.len() - i,
    {
        keys.push(changes[i].key.clone());
        i += 1;
    }
    assert(keys_set(keys@) =~= change_keys(changes@)) by {
        assert forall|k: Seq<char>| keys_set(keys@).contains(k) implies change_keys(changes@).contains(k) by {
            let j = choose|j: int| 0 <= j < keys@.len() && (#[trigger] keys@[j])@ == k;
            assert(changes@[j].key@ == k);
        }
        assert forall|k: Seq<char>| change_keys(changes@).contains(k) implies keys_set(keys@).contains(k) by {
            let j = choose|j: int| 0 <= j < changes@.len() && (#[trigger] changes@[j]).key@ == k;
            assert(keys@[j]@ == k);
        }
    }
    let sorted = sort_dedup(keys);
    let mut out: Vec<ToggleTarget> = Vec::new();
    let mut m: usize = 0;
    while m < sorted.len()
        invariant
            m <= sorted@.len(),
            keys_set(sorted@) == change_keys(changes@),
            strictly_sorted(crate::order::strings_view(sorted@)),
            out@.len() == m,
            forall|k: int| 0 <= k < m ==> (#[trigger] out@[k]).key@ == sorted@[k]@,
            forall|k: int|
                0 <= k < m ==> target_follows(last_change(changes@, (#[trigger] out@[k]).key@), out@[k]),
        decreases sorted.len() - m,
    {
        let key = chars_of(sorted[m].as_str());
        proof {
            assert(keys_set(sorted@).contains(sorted@[m as int]@));
        }
        let mut j: usize = changes.len();
        while j > 0 && !seq_eq(chars_of(changes[j - 1].key.as_str()).as_slice(), key.as_slice())
            invariant
                j <= changes@.len(),
                key@ == sorted@[m as int]@,
                forall|q: int| j <= q < changes@.len() ==> (#[trigger] changes@[q]).key@ != key@,
            decreases j,
        {
            j -= 1;
        }
        if j == 0 {
            proof {
                assert(change_keys(changes@).contains(key@));
                let q = choose|q: int| 0 <= q < changes@.len() && (#[trigger] changes@[q]).key@ == key@;
                assert(changes@[q].key@ != key@);
            }
            return out;
        }
        let c = &changes[j - 1];
        proof {
            assert(last_change_at(changes@, key@, j - 1));
            let q = choose|q: int| last_change_at(changes@, key@, q);
            if q < j - 1 {
                assert(changes@[j - 1].key@ != key@);
            } else if q > j - 1 {
                assert(changes@[q].key@ != key@);
            }
        }
        let force = match c.force {
            Some(f) => f,
            None => false,
        };
        out.push(ToggleTarget { key: sorted[m].clone(), target_active: !c.active, force });
        m += 1;
    }
    proof {
        assert(Seq::new(out@.len(), |i: int| out@[i].key@) =~= crate::order::strings_view(sorted@));
        assert(Set::new(|k: Seq<char>| exists|i: int| 0 <= i < out@.len() && (#[trigger] out@[i]).key@ == k) =~= keys_set(sorted@)) by {
            assert forall|k: Seq<char>| (exists|i: int| 0 <= i < out@.len() && (#[trigger] out@[i]).key@ == k) implies keys_set(sorted@).contains(k) by {
                let i = choose|i: int| 0 <= i < out@.len() && (#[trigger] out@[i]).key@ == k;
                assert(sorted@[i]@ == k);
            }
            assert forall|k: Seq<char>| keys_set(sorted@).contains(k) implies (exists|i: int| 0 <= i < out@.len() && (#[trigger] out@[i]).key@ == k) by {
                let i = choose|i: int| 0 <= i < sorted@.len() && (#[trigger] sorted@[i])@ == k;
                assert(out@[i].key@ == k);
            }
        }
    }
    out
}

pub open spec fn enabled_keys(ts: Seq<ToggleTarget>) -> Seq<Seq<char>>
    decreases ts.len(),
{
    if ts.len() == 0 {
        Seq::empty()
    } else if ts.last().target_active {
        enabled_keys(ts.drop_last()).push(ts.last().key@)
    } else {
        enabled_keys(ts.drop_last())
    }
}

pub open spec fn enabled_targets(ts: Seq<ToggleTarget>) -> Seq<ToggleTarget>
    decreases ts.len(),
{
    if ts.len() == 0 {
        Seq::empty()
    } else if ts.last().target_active {
        enabled_targets(ts.drop_last()).push(ts.last())
    } else {
        enabled_targets(ts.drop_last())
    }
}

/// The first mod to turn on that was deleted.
pub open spec fn deleted_error(en: Seq<ToggleTarget>, deleted: Set<Seq<char>>) -> Option<Seq<char>>
    decreases en.len(),
{
    if en.len() == 0 {
        None
    } else if deleted.contains(en[0].key@) {
        Some(en[0].key@ + " 모드는 삭제된 항목입니다. 설정에서 복원한 뒤 활성화해 주세요."@)
    } else {
        deleted_error(en.skip(1), deleted)
    }
}

pub open spec fn in_seq(s: Seq<Seq<char>>, k: Seq<char>) -> bool {
    exists|i: int| 0 <= i < s.len() && s[i] == k
}

/// What keeps one dependency from being turned on with the mod: it is missing, or it is
/// off and not being turned on and the mod is not forced.
pub open spec fn dep_error(d: ModDependencyDto, enabling: Seq<Seq<char>>, force: bool) -> Option<Seq<char>> {
    if !d.available {
        Some("선행 모드가 없습니다: "@ + d.id@)
    } else if !d.active && !(opt_view(d.key) matches Some(k) && in_seq(enabling, k)) && !force {
        Some("선행 모드가 비활성화되어 있습니다: "@ + d.name@)
    } else {
        None
    }
}

pub open spec fn deps_error(ds: Seq<ModDependencyDto>, enabling: Seq<Seq<char>>, force: bool) -> Option<Seq<char>>
    decreases ds.len(),
{
    if ds.len() == 0 {
        None
    } else {
        match dep_error(ds[0], enabling, force) {
            Some(m) => Some(m),
            None => deps_error(ds.skip(1), enabling, force),
        }
    }
}

pub open spec fn first_row_at(rows: Seq<ModRowDto>, key: Seq<char>, i: int) -> bool {
    0 <= i < rows.len() && rows[i].key@ == key && forall|j: int| 0 <= j < i ==> (#[trigger] rows[j]).key@ != key
}

pub open spec fn row_error(t: ToggleTarget, rows: Seq<ModRowDto>, enabling: Seq<Seq<char>>) -> Option<Seq<char>> {
    if exists|i: int| first_row_at(rows, t.key@, i) {
        let i = choose|i: int| first_row_at(rows, t.key@, i);
        deps_error(rows[i].dependencies@, enabling, t.force)
    } else {
        Some(t.key@ + " 모드를 찾을 수 없습니다."@)
    }
}

pub open spec fn rows_error(en: Seq<ToggleTarget>, rows: Seq<ModRowDto>, enabling: Seq<Seq<char>>) -> Option<Seq<char>>
    decreases en.len(),
{
    if en.len() == 0 {
        None
    } else {
        match row_error(en[0], rows, enabling) {
            Some(m) => Some(m),
            None => rows_error(en.skip(1), rows, enabling),
        }
    }
}

/// Whether the toggles may be applied, and how many mods change. Nothing is checked when
/// no mod is turned on. Else a mod turned on may not be a deleted one, must be in the table,
/// and needs its dependencies present and on (or being turned on), unless forced.
/// `deleted_keys` are the keys deleted for the current scan, `rows` the mods table.
pub open spec fn apply_toggles_spec(ts: Seq<ToggleTarget>, deleted: Set<Seq<char>>, rows: Seq<ModRowDto>) -> Result<
    usize,
    Seq<char>,
> {
    let en = enabled_targets(ts);
    if en.len() == 0 {
        Ok(ts.len() as usize)
    } else {
        match deleted_error(en, deleted) {
            Some(m) => Err(m),
            None => match rows_error(en, rows, enabled_keys(ts)) {
                Some(m) => Err(m),
                None => Ok(ts.len() as usize),
            },
        }
    }
}

proof fn lemma_enabled(ts: Seq<ToggleTarget>)
    ensures
        enabled_keys(ts) == Seq::new(enabled_targets(ts).len(), |i: int| enabled_targets(ts)[i].key@),
    decreases ts.len(),
{
    if ts.len() > 0 {
        lemma_enabled(ts.drop_last());
        assert(enabled_keys(ts) =~= Seq::new(enabled_targets(ts).len(), |i: int| enabled_targets(ts)[i].key@));
    }
}

fn copy_target(t: &ToggleTarget) -> (r: ToggleTarget)
    ensures
        r.target_active == t.target_active,
        r.force == t.force,
        r.key@ == t.key@,
{
    ToggleTarget { key: t.key.clone(), target_active: t.target_active, force: t.force }
}

fn deps_check(ds: &Vec<ModDependencyDto>, enabling: &Vec<String>, force: bool) -> (r: Option<String>)
    ensures
        opt_view(r) == deps_error(ds@, crate::order::strings_view(enabling@), force),
{
    let ghost ev = crate::order::strings_view(enabling@);
    let mut i: usize = 0;
    assert(ds@.skip(0) =~= ds@);
    while i < ds.len()
        invariant
            i <= ds@.len(),
            ev == crate::order::strings_view(enabling@),
            deps_error(ds@, ev, force) == deps_error(ds@.skip(i as int), ev, force),
        decreases ds.len() - i,
    {
        let d = &ds[i];
        proof {
            assert(ds@.skip(i as int)[0] == d);
            assert(ds@.skip(i as int).skip(1) =~= ds@.skip(i + 1));
        }
        if !d.available {
            return Some(cat("선행 모드가 없습니다: ", d.id.as_str()));
        }
        let will = match &d.key {
            Some(k) => contains_key(enabling, k.as_str()),
            None => false,
        };
        proof {
            if let Some(k) = &d.key {
                assert(keys_set(enabling@).contains(k@) == in_seq(ev, k@)) by {
                    if keys_set(enabling@).contains(k@) {
                        let j = choose|j: int| 0 <= j < enabling@.len() && (#[trigger] enabling@[j])@ == k@;
                        assert(ev[j] == k@);
                    }
                    if in_seq(ev, k@) {
                        let j = choose|j: int| 0 <= j < ev.len() && ev[j] == k@;
                        assert(enabling@[j]@ == k@);
                    }
                }
            }
        }
        if !d.active && !will && !force {
            return Some(cat("선행 모드가 비활성화되어 있습니다: ", d.name.as_str()));
        }
        i += 1;
    }
    assert(ds@.skip(i as int) =~= Seq::<ModDependencyDto>::empty());
    None
}

/// Checks the toggles against the deleted keys and the mods table; `Ok` gives how many
/// mods change.
pub fn apply_mod_toggles(targets: &Vec<ToggleTarget>, deleted_keys: &Vec<String>, rows: &Vec<ModRowDto>) -> (r: Result<
    usize,
    String,
>)
    ensures
        match r {
            Ok(n) => apply_toggles_spec(targets@, keys_set(deleted_keys@), rows@) == Ok::<usize, Seq<char>>(n),
            Err(m) => apply_toggles_spec(targets@, keys_set(deleted_keys@), rows@) == Err::<usize, Seq<char>>(m@),
        },
{
    let mut enable: Vec<ToggleTarget> = Vec::new();
    let mut enable_keys: Vec<String> = Vec::new();
    let mut i: usize = 0;
    while i < targets.len()
        invariant
            i <= targets@.len(),
            crate::order::strings_view(enable_keys@) == enabled_keys(targets@.take(i as int)),
            enable@.len() == enabled_targets(targets@.take(i as int)).len(),
            forall|k: int| 0 <= k < enable@.len() ==> (#[trigger] enable@[k]).key@ == enabled_targets(targets@.take(i as int))[k].key@
                && enable@[k].target_active == enabled_targets(targets@.take(i as int))[k].target_active
                && enable@[k].force == enabled_targets(targets@.take(i as int))[k].force,
        decreases targets.len() - i,
    {
        let ghost ek = enable_keys@;
        let ghost et = enable@;
        proof {
            assert(targets@.take(i + 1).drop_last() =~= targets@.take(i as int));
            assert(targets@.take(i + 1).last() == targets@[i as int]);
        }
        if targets[i].target_active {
            enable.push(copy_target(&targets[i]));
            enable_keys.push(targets[i].key.clone());
            assert(crate::order::strings_view(enable_keys@) =~= crate::order::strings_view(ek).push(targets@[i as int].key@));
        }
        i += 1;
    }
    assert(targets@.take(i as int) =~= targets@);
    let ghost en = enabled_targets(targets@);
    if enable.len() == 0 {
        return Ok(targets.len());
    }
    let mut k: usize = 0;
    assert(en.skip(0) =~= en);
    while k < enable.len()
        invariant
            k <= enable@.len(),
            en == enabled_targets(targets@),
            enable@.len() == en.len(),
            forall|q: int| 0 <= q < enable@.len() ==> (#[trigger] enable@[q]).key@ == en[q].key@ && enable@[q].force == en[q].force,
            deleted_error(en, keys_set(deleted_keys@)) == deleted_error(en.skip(k as int), keys_set(deleted_keys@)),
        decreases enable.len() - k,
    {
        proof {
            assert(en.skip(k as int)[0] == en[k as int]);
            assert(en.skip(k as int).skip(1) =~= en.skip(k + 1));
        }
        if contains_key(deleted_keys, enable[k].key.as_str()) {
            return Err(cat(enable[k].key.as_str(), " 모드는 삭제된 항목입니다. 설정에서 복원한 뒤 활성화해 주세요."));
        }
        k += 1;
    }
    assert(en.skip(k as int) =~= Seq::<ToggleTarget>::empty());
    let ghost ev = crate::order::strings_view(enable_keys@);
    let mut m: usize = 0;
    assert(en.skip(0) =~= en);
    while m < enable.len()
        invariant
            m <= enable@.len(),
            en == enabled_targets(targets@),
            en.len() > 0,
            deleted_error(en, keys_set(deleted_keys@)) is None,
            enable@.len() == en.len(),
            ev == crate::order::strings_view(enable_keys@),
            ev == enabled_keys(targets@),
            forall|q: int| 0 <= q < enable@.len() ==> (#[trigger] enable@[q]).key@ == en[q].key@ && enable@[q].force == en[q].force,
            rows_error(en, rows@, ev) == rows_error(en.skip(m as int), rows@, ev),
        decreases enable.len() - m,
    {
        let t = &enable[m];
        proof {
            assert(en.skip(m as int)[0] == en[m as int]);
            assert(en.skip(m as int).skip(1) =~= en.skip(m + 1));
        }
        let key = chars_of(t.key.as_str());
        let mut j: usize = 0;
        while j < rows.len() && !seq_eq(chars_of(rows[j].key.as_str()).as_slice(), key.as_slice())
            invariant
                j <= rows@.len(),
                key@ == t.key@,
                forall|q: int| 0 <= q < j ==> (#[trigger] rows@[q]).key@ != key@,
            decreases rows.len() - j,
        {
            j += 1;
        }
        if j == rows.len() {
            proof {
                assert forall|q: int| !first_row_at(rows@, en[m as int].key@, q) by {
                    if 0 <= q < rows@.len() {
                        assert(rows@[q].key@ != key@);
                    }
                }
            }
            return Err(cat(t.key.as_str(), " 모드를 찾을 수 없습니다."));
        }
        proof {
            assert(first_row_at(rows@, en[m as int].key@, j as int));
            let q = choose|q: int| first_row_at(rows@, en[m as int].key@, q);
            if q < j {
                assert(rows@[q].key@ != key@);
            } else if q > j {
                assert(rows@[j as int].key@ != key@);
            }
        }
        match deps_check(&rows[j].dependencies, &enable_keys, t.force) {
            Some(msg) => return Err(msg),
            None => {},
        }
        m += 1;
    }
    assert(en.skip(m as int) =~= Seq::<ToggleTarget>::empty());
    Ok(targets.len())
}

} // verus!
