//! Free names in a folder: where a backup, a repair or a staged replacement goes without
//! overwriting what is there. `existing` holds the names of the entries the folder has.
use vstd::prelude::*;
use crate::text::{chars_of, string_from, push_all, dec_seq, digits_value, lemma_dec_digits, format_u64};
use crate::paths::{
    join_name_spec, join_name_str, stem_of, extension_of, stem_exec, extension_exec, parent_spec, parent_chars,
    file_name_spec, file_name_exec,
};
use crate::model::keys_set;
use crate::deleted::contains_key;

verus! {

broadcast use vstd::string::group_string_axioms;

pub proof fn lemma_keys_set_bound(v: Seq<String>)
    ensures
        keys_set(v).finite(),
        keys_set(v).len() <= v.len(),
    decreases v.len(),
{
    if v.len() == 0 {
        assert(keys_set(v) =~= Set::<Seq<char>>::empty());
    } else {
        lemma_keys_set_bound(v.drop_last());
        assert(keys_set(v) =~= keys_set(v.drop_last()).insert(v.last()@)) by {
            assert forall|k: Seq<char>| keys_set(v).contains(k) implies keys_set(v.drop_last()).insert(
                v.last()@,
            ).contains(k) by {
                let i = choose|i: int| 0 <= i < v.len() && (#[trigger] v[i])@ == k;
                if i < v.len() - 1 {
                    assert(v.drop_last()[i] == v[i]);
                }
            }
            assert forall|k: Seq<char>| keys_set(v.drop_last()).insert(v.last()@).contains(k) implies keys_set(
                v,
            ).contains(k) by {
                if k != v.last()@ {
                    let i = choose|i: int| 0 <= i < v.drop_last().len() && (#[trigger] v.drop_last()[i])@ == k;
                    assert(v[i] == v.drop_last()[i]);
                } else {
                    assert(v[v.len() - 1]@ == k);
                }
            }
        }
    }
}

/// Two names built around different numbers differ.
pub proof fn lemma_numbered_distinct(p: Seq<char>, s: Seq<char>, a: nat, b: nat)
    requires
        p + dec_seq(a) + s == p + dec_seq(b) + s,
    ensures
        a == b,
{
    let x = p + dec_seq(a) + s;
    let y = p + dec_seq(b) + s;
    assert(x.len() == y.len());
    assert(dec_seq(a).len() == dec_seq(b).len());
    assert(x.subrange(p.len() as int, p.len() + dec_seq(a).len() as int) =~= dec_seq(a));
    assert(y.subrange(p.len() as int, p.len() + dec_seq(b).len() as int) =~= dec_seq(b));
    lemma_dec_digits(a);
    lemma_dec_digits(b);
}

/// How numbered names are made.
pub enum NameScheme {
    /// `stem-N.ext` (or `stem-N`), from 1.
    Backup { stem: String, ext: Option<String> },
    /// `name.repairing`, then `name.repairing-N`.
    Repair { name: String },
}

/// A naming scheme as plain text.
pub enum SchemeView {
    Backup(Seq<char>, Option<Seq<char>>),
    Repair(Seq<char>),
}

impl View for NameScheme {
    type V = SchemeView;

    open spec fn view(&self) -> SchemeView {
        match self {
            NameScheme::Backup { stem, ext } => SchemeView::Backup(
                stem@,
                match ext {
                    Some(e) => Some(e@),
                    None => None,
                },
            ),
            NameScheme::Repair { name } => SchemeView::Repair(name@),
        }
    }
}

pub open spec fn scheme_name(s: SchemeView, k: nat) -> Seq<char> {
    match s {
        SchemeView::Backup(stem, ext) => match ext {
            Some(e) => stem + seq!['-'] + dec_seq(k) + (seq!['.'] + e),
            None => stem + seq!['-'] + dec_seq(k) + Seq::<char>::empty(),
        },
        SchemeView::Repair(name) => if k == 0 {
            name + ".repairing"@
        } else {
            name + ".repairing-"@ + dec_seq(k) + Seq::<char>::empty()
        },
    }
}

proof fn lemma_scheme_distinct(s: SchemeView, a: nat, b: nat)
    requires
        scheme_name(s, a) == scheme_name(s, b),
    ensures
        a == b,
{
    match s {
        SchemeView::Backup(stem, ext) => {
            let suf = match ext {
                Some(e) => seq!['.'] + e,
                None => Seq::<char>::empty(),
            };
            lemma_numbered_distinct(stem + seq!['-'], suf, a, b);
        },
        SchemeView::Repair(name) => {
            reveal_strlit(".repairing");
            reveal_strlit(".repairing-");
            if a == 0 && b == 0 {
            } else if a == 0 || b == 0 {
                crate::text::lemma_dec_len(a);
                crate::text::lemma_dec_len(b);
                assert(scheme_name(s, a).len() != scheme_name(s, b).len());
            } else {
                lemma_numbered_distinct(name + ".repairing-"@, Seq::<char>::empty(), a, b);
            }
        },
    }
}

/// `k` is the first number from `start` whose name is free.
pub open spec fn first_free(s: SchemeView, existing: Set<Seq<char>>, start: nat, k: nat) -> bool {
    &&& start <= k
    &&& !existing.contains(scheme_name(s, k))
    &&& forall|j: nat| start <= j < k ==> existing.contains(#[trigger] scheme_name(s, j))
}

/// The first free numbered name from `start`.
pub open spec fn free_name(s: SchemeView, existing: Set<Seq<char>>, start: nat) -> Seq<char> {
    scheme_name(s, choose|k: nat| first_free(s, existing, start, k))
}

fn make_name(s: &NameScheme, k: usize) -> (r: Vec<char>)
    ensures
        r@ == scheme_name(s@, k as nat),
{
    let n = format_u64(k as u64);
    match s {
        NameScheme::Backup { stem, ext } => {
            let mut out = chars_of(stem.as_str());
            out.push('-');
            push_all(&mut out, n.as_slice());
            match ext {
                Some(e) => {
                    out.push('.');
                    push_all(&mut out, chars_of(e.as_str()).as_slice());
                    assert(out@ =~= scheme_name(s@, k as nat));
                },
                None => {
                    assert(out@ =~= scheme_name(s@, k as nat));
                },
            }
            out
        },
        NameScheme::Repair { name } => {
            let mut out = chars_of(name.as_str());
            if k == 0 {
                push_all(&mut out, chars_of(".repairing").as_slice());
            } else {
                push_all(&mut out, chars_of(".repairing-").as_slice());
                push_all(&mut out, n.as_slice());
            }
            assert(out@ =~= scheme_name(s@, k as nat));
            out
        },
    }
}

/// The first free numbered name from `start`, as a loop that tries each number finds it.
fn first_free_name(s: &NameScheme, existing: &Vec<String>, start: usize) -> (r: Vec<char>)
    requires
        start <= 1,
        existing@.len() < usize::MAX - 1,
    ensures
        r@ == free_name(s@, keys_set(existing@), start as nat),
        first_free(s@, keys_set(existing@), start as nat, choose|k: nat| first_free(s@, keys_set(existing@), start as nat, k)),
        !keys_set(existing@).contains(r@),
{
    let ghost ex = keys_set(existing@);
    let ghost mut tried: Set<Seq<char>> = Set::empty();
    proof {
        lemma_keys_set_bound(existing@);
    }
    let mut k: usize = start;
    loop
        invariant
            start <= 1,
            ex == keys_set(existing@),
            ex.finite(),
            ex.len() <= existing@.len(),
            existing@.len() < usize::MAX - 1,
            start <= k,
            tried.finite(),
            tried.len() == k - start,
            tried.subset_of(ex),
            forall|j: nat| start <= j < k ==> tried.contains(#[trigger] scheme_name(s@, j)),
            forall|n: Seq<char>| tried.contains(n) ==> exists|j: nat| start <= j < k && n == #[trigger] scheme_name(s@, j),
        decreases existing@.len() - tried.len(),
    {
        let name = make_name(s, k);
        let text = string_from(name.as_slice());
        if !contains_key(existing, text.as_str()) {
            proof {
                assert(first_free(s@, ex, start as nat, k as nat)) by {
                    assert forall|j: nat| start <= j < k implies ex.contains(#[trigger] scheme_name(s@, j)) by {
                        assert(tried.contains(scheme_name(s@, j)));
                    }
                }
                let c = choose|c: nat| first_free(s@, ex, start as nat, c);
                if c < k {
                    assert(tried.contains(scheme_name(s@, c)));
                } else if c > k {
                    assert(ex.contains(scheme_name(s@, k as nat)));
                }
            }
            return name;
        }
        proof {
            let n = scheme_name(s@, k as nat);
            if tried.contains(n) {
                let j = choose|j: nat| start <= j < k && n == #[trigger] scheme_name(s@, j);
                lemma_scheme_distinct(s@, j, k as nat);
            }
            let t2 = tried.insert(n);
            assert(t2.len() == tried.len() + 1);
            vstd::set_lib::lemma_len_subset(t2, ex);
            assert forall|m: Seq<char>| t2.contains(m) implies exists|j: nat| start <= j < k + 1 && m == #[trigger] scheme_name(s@, j) by {
                if m == n {
                    assert(scheme_name(s@, k as nat) == m);
                } else {
                    let j = choose|j: nat| start <= j < k && m == #[trigger] scheme_name(s@, j);
                }
            }
            tried = t2;
        }
        k = k + 1;
    }
}

/// The name a backup of `file_name` takes in a folder: the name itself where it is free,
/// else `stem-N.ext` with the first free `N` from 1.
pub open spec fn backup_name_spec(file_name: Seq<char>, existing: Set<Seq<char>>) -> Seq<char> {
    if !existing.contains(file_name) {
        file_name
    } else {
        free_name(SchemeView::Backup(stem_of(file_name), extension_of(file_name)), existing, 1)
    }
}

/// Where a backup of `file_name` goes in `parent`, whose entries are named in `existing`.
pub fn unique_backup_path(parent: &str, file_name: &str, existing: &Vec<String>) -> (r: String)
    requires
        existing@.len() < usize::MAX - 1,
    ensures
        r@ == join_name_spec(parent@, backup_name_spec(file_name@, keys_set(existing@))),
        !keys_set(existing@).contains(backup_name_spec(file_name@, keys_set(existing@))),
        keys_set(existing@).contains(file_name@) ==> exists|k: nat|
            first_free(SchemeView::Backup(stem_of(file_name@), extension_of(file_name@)), keys_set(existing@), 1, k)
                && backup_name_spec(file_name@, keys_set(existing@)) == scheme_name(
                SchemeView::Backup(stem_of(file_name@), extension_of(file_name@)),
                k,
            ),
{
    if !contains_key(existing, file_name) {
        return join_name_str(parent, file_name);
    }
    let f = chars_of(file_name);
    let stem = string_from(stem_exec(f.as_slice()).as_slice());
    let ext = match extension_exec(f.as_slice()) {
        Some(e) => Some(string_from(e.as_slice())),
        None => None,
    };
    let scheme = NameScheme::Backup { stem, ext };
    let name = first_free_name(&scheme, existing, 1);
    proof {
        let sv = SchemeView::Backup(stem_of(file_name@), extension_of(file_name@));
        let k = choose|k: nat| first_free(scheme@, keys_set(existing@), 1, k);
        assert(scheme@ == sv);
        assert(first_free(sv, keys_set(existing@), 1, k));
    }
    join_name_str(parent, string_from(name.as_slice()).as_str())
}

/// Where a folder is rebuilt beside the original: `name.repairing`, or
/// `name.repairing-N` with the first free `N`.
pub fn unique_repair_sibling_path(parent: &str, file_name: &str, existing: &Vec<String>) -> (r: String)
    requires
        existing@.len() < usize::MAX - 1,
    ensures
        r@ == join_name_spec(
            parent@,
            free_name(SchemeView::Repair(file_name@), keys_set(existing@), 0),
        ),
        !keys_set(existing@).contains(free_name(SchemeView::Repair(file_name@), keys_set(existing@), 0)),
{
    let scheme = NameScheme::Repair { name: file_name.to_string() };
    let name = first_free_name(&scheme, existing, 0);
    join_name_str(parent, string_from(name.as_slice()).as_str())
}

/// Where a deleted mod is restored to: its old path where nothing is there now, else a free
/// name beside it (see `unique_backup_path`); `existing` names the entries of its folder.
pub fn unique_restore_target(path: &str, exists: bool, existing: &Vec<String>) -> (r: Result<String, String>)
    requires
        existing@.len() < usize::MAX - 1,
    ensures
        !exists ==> (r matches Ok(p) && p@ == path@),
        exists ==> match (parent_spec(path@), file_name_spec(path@)) {
            (Some(parent), Some(name)) => r matches Ok(p) && p@ == join_name_spec(
                parent,
                backup_name_spec(name, keys_set(existing@)),
            ),
            (None, _) => r matches Err(e) && e@ == "복원 위치를 계산하지 못했습니다: "@ + path@,
            (Some(_), None) => r matches Err(e) && e@ == "복원 이름을 계산하지 못했습니다: "@ + path@,
        },
{
    if !exists {
        return Ok(path.to_string());
    }
    let p = chars_of(path);
    let parent = match parent_chars(p.as_slice()) {
        Some(x) => string_from(x.as_slice()),
        None => {
            return Err(crate::text::cat("복원 위치를 계산하지 못했습니다: ", path));
        },
    };
    let name = match file_name_exec(p.as_slice()) {
        Some(n) => string_from(n.as_slice()),
        None => {
            return Err(crate::text::cat("복원 이름을 계산하지 못했습니다: ", path));
        },
    };
    Ok(unique_backup_path(parent.as_str(), name.as_str(), existing))
}

/// `i` is the first number below 1000 whose staging name is free.
pub open spec fn first_free_stage(existing: Set<Seq<char>>, stamp: Seq<char>, file_name: Seq<char>, i: u32) -> bool {
    &&& 1 <= i < 1000
    &&& !existing.contains(staged_name(stamp, Some(i), file_name))
    &&& forall|j: u32| 1 <= j < i ==> existing.contains(#[trigger] staged_name(stamp, Some(j), file_name))
}

/// Where a dropped mod is staged before it replaces one: `.drop-import-<stamp>-<N>-<name>`
/// with the first free `N` below 1000, else the name without a number.
pub fn staged_replacement_path(parent: &str, stamp: &str, file_name: &str, existing: &Vec<String>) -> (r: String)
    ensures
        (exists|i: u32| #[trigger] first_free_stage(keys_set(existing@), stamp@, file_name@, i)
            && r@ == crate::replace::staged_candidate_spec(parent@, stamp@, Some(i), file_name@))
        || ((forall|j: u32| 1 <= j < 1000 ==> keys_set(existing@).contains(#[trigger] staged_name(stamp@, Some(j), file_name@)))
            && r@ == crate::replace::staged_candidate_spec(parent@, stamp@, None, file_name@)),
{
    let mut i: u32 = 1;
    while i < 1000
        invariant
            1 <= i <= 1000,
            forall|j: u32| 1 <= j < i ==> keys_set(existing@).contains(#[trigger] staged_name(stamp@, Some(j), file_name@)),
        decreases 1000 - i,
    {
        let name = staged_name_exec(stamp, Some(i), file_name);
        if !contains_key(existing, name.as_str()) {
            let r = crate::replace::staged_replacement_candidate(parent, stamp, Some(i), file_name);
            proof {
                assert(r@ == crate::replace::staged_candidate_spec(parent@, stamp@, Some(i), file_name@));
                assert(!keys_set(existing@).contains(staged_name(stamp@, Some(i), file_name@)));
                assert(first_free_stage(keys_set(existing@), stamp@, file_name@, i));
            }
            return r;
        }
        i += 1;
    }
    crate::replace::staged_replacement_candidate(parent, stamp, None, file_name)
}

/// The staging name itself, without the folder.
pub open spec fn staged_name(stamp: Seq<char>, index: Option<u32>, file_name: Seq<char>) -> Seq<char> {
    match index {
        Some(i) => ".drop-import-"@ + stamp + seq!['-'] + dec_seq(i as nat) + seq!['-'] + file_name,
        None => ".drop-import-"@ + stamp + seq!['-'] + file_name,
    }
}

fn staged_name_exec(stamp: &str, index: Option<u32>, file_name: &str) -> (r: String)
    ensures
        r@ == staged_name(stamp@, index, file_name@),
{
    let mut name = chars_of(".drop-import-");
    push_all(&mut name, chars_of(stamp).as_slice());
    name.push('-');
    if let Some(i) = index {
        let n = format_u64(i as u64);
        push_all(&mut name, n.as_slice());
        name.push('-');
    }
    push_all(&mut name, chars_of(file_name).as_slice());
    proof {
        match index {
            Some(i) => assert(name@ =~= staged_name(stamp@, index, file_name@)),
            None => assert(name@ =~= staged_name(stamp@, index, file_name@)),
        }
    }
    string_from(name.as_slice())
}

/// Where a deleted mod that appeared again in the game's mods folder is moved: beside its
/// backup, under a free name (see `unique_backup_path`; `existing` names the entries of
/// the backup's folder). `None` where the mod is not in the mods folder or is not there
/// (`original_exists`); an error where the backup has no folder or the mod no name.
pub fn quarantine_target(
    entry: &crate::deleted::DeletedModEntry,
    game_mods_dir: &str,
    original_exists: bool,
    existing: &Vec<String>,
) -> (r: Result<Option<String>, String>)
    requires
        existing@.len() < usize::MAX - 1,
    ensures
        !crate::roots::path_starts_with(entry.original_path@, game_mods_dir@) || !original_exists ==> r matches Ok(None),
        crate::roots::path_starts_with(entry.original_path@, game_mods_dir@) && original_exists ==> match (
            parent_spec(entry.backup_path@),
            file_name_spec(entry.original_path@),
        ) {
            (Some(parent), Some(name)) => r matches Ok(Some(t)) && t@ == join_name_spec(
                parent,
                backup_name_spec(name, keys_set(existing@)),
            ),
            (None, _) => r matches Err(e) && e@ == "삭제 백업 위치를 계산하지 못했습니다: "@ + entry.backup_path@,
            (Some(_), None) => r matches Err(e) && e@ == "격리할 모드 이름을 계산하지 못했습니다: "@
                + entry.original_path@,
        },
{
    if !crate::roots::path_starts_with_exec(entry.original_path.as_str(), game_mods_dir) || !original_exists {
        return Ok(None);
    }
    let parent = match parent_chars(chars_of(entry.backup_path.as_str()).as_slice()) {
        Some(p) => string_from(p.as_slice()),
        None => {
            return Err(crate::text::cat("삭제 백업 위치를 계산하지 못했습니다: ", entry.backup_path.as_str()));
        },
    };
    let name = match file_name_exec(chars_of(entry.original_path.as_str()).as_slice()) {
        Some(n) => string_from(n.as_slice()),
        None => {
            return Err(crate::text::cat("격리할 모드 이름을 계산하지 못했습니다: ", entry.original_path.as_str()));
        },
    };
    Ok(Some(unique_backup_path(parent.as_str(), name.as_str(), existing)))
}

} // verus!
