//! The mods that a scan finds, the manifests they carry, and the questions asked of them.
use vstd::prelude::*;
use crate::text::{
    ascii_lower, cat, chars_of, lower_seq, split_by, split_by_seq, string_from, trim, trim_seq,
    is_ascii_digit, is_ascii_digit_exec,
};
use crate::paths::{
    comps_of, components, ext_is, ext_is_exec, extension_spec, file_name_exec, file_name_spec,
    stem_exec, stem_of, vv,
};
use crate::language::is_text;

verus! {

broadcast use vstd::string::group_string_axioms;

#[derive(Clone, Copy, PartialEq, Eq, Structural, Debug)]
pub enum ModKind {
    Directory,
    Archive,
    Package,
    UnknownFile,
}

#[derive(Clone, Copy, PartialEq, Eq, Structural, Debug)]
pub enum ModSource {
    GameMods,
    Disabled,
    Vault,
    ExternalManager,
}

/// A mod as a scan reports it. `key` is the stable key that the scanner gives it.
pub struct ModRecord {
    pub key: String,
    pub name: String,
    pub path: String,
    pub source: ModSource,
    pub kind: ModKind,
    pub version_hint: Option<String>,
    pub bytes: u64,
    pub modified_epoch: Option<u64>,
}

/// The mods of one scan, by where they were found.
pub struct ScanSummary {
    pub game_mods: Vec<ModRecord>,
    pub disabled_mods: Vec<ModRecord>,
    pub vault_mods: Vec<ModRecord>,
    pub external_manager_mods: Vec<ModRecord>,
}

pub struct ManifestDependency {
    pub id: String,
    pub version: Option<String>,
}

/// What a mod's JSON manifest says of it.
pub struct ModManifestInfo {
    pub id: Option<String>,
    pub name: Option<String>,
    pub version: Option<String>,
    pub author: Option<String>,
    pub description: Option<String>,
    pub dependencies: Vec<ManifestDependency>,
    pub target_mod_id: Option<String>,
    pub target_mod_name: Option<String>,
    pub target_mod_version: Option<String>,
    pub target_languages: Vec<String>,
    pub is_translation_patch: bool,
}

pub open spec fn opt_view(o: Option<String>) -> Option<Seq<char>> {
    match o {
        Some(s) => Some(s@),
        None => None,
    }
}

pub fn copy_opt(o: &Option<String>) -> (r: Option<String>)
    ensures
        opt_view(r) == opt_view(*o),
{
    match o {
        Some(s) => Some(s.clone()),
        None => None,
    }
}

impl ModRecord {
    pub open spec fn same_as(&self, other: &ModRecord) -> bool {
        &&& self.key@ == other.key@
        &&& self.name@ == other.name@
        &&& self.path@ == other.path@
        &&& self.source == other.source
        &&& self.kind == other.kind
        &&& opt_view(self.version_hint) == opt_view(other.version_hint)
        &&& self.bytes == other.bytes
        &&& self.modified_epoch == other.modified_epoch
    }

    pub fn duplicate(&self) -> (r: ModRecord)
        ensures
            r.same_as(self),
    {
        ModRecord {
            key: self.key.clone(),
            name: self.name.clone(),
            path: self.path.clone(),
            source: self.source,
            kind: self.kind,
            version_hint: copy_opt(&self.version_hint),
            bytes: self.bytes,
            modified_epoch: self.modified_epoch,
        }
    }
}

pub open spec fn kind_label_spec(kind: ModKind) -> Seq<char> {
    match kind {
        ModKind::Directory => "folder"@,
        ModKind::Archive => "archive"@,
        ModKind::Package => "package"@,
        ModKind::UnknownFile => "file"@,
    }
}

/// The word that the dashboard shows for a kind of mod.
pub fn kind_label(kind: ModKind) -> (r: &'static str)
    ensures
        r@ == kind_label_spec(kind),
{
    match kind {
        ModKind::Directory => "folder",
        ModKind::Archive => "archive",
        ModKind::Package => "package",
        ModKind::UnknownFile => "file",
    }
}

/// Folders, archives and packages can be dropped in; other files cannot.
pub fn is_supported_dropped_mod_kind(kind: ModKind) -> (r: bool)
    ensures
        r == (kind != ModKind::UnknownFile),
{
    match kind {
        ModKind::Directory => true,
        ModKind::Archive => true,
        ModKind::Package => true,
        ModKind::UnknownFile => false,
    }
}

pub open spec fn classify_spec(path: Seq<char>, is_dir: bool) -> ModKind {
    if is_dir {
        ModKind::Directory
    } else if ext_is(path, "zip"@) || ext_is(path, "7z"@) || ext_is(path, "rar"@) {
        ModKind::Archive
    } else if ext_is(path, "jar"@) || ext_is(path, "pck"@) || ext_is(path, "pak"@) {
        ModKind::Package
    } else {
        ModKind::UnknownFile
    }
}

fn ext_is_lit(p: &[char], e: &str) -> (r: bool)
    ensures
        r == ext_is(p@, e@),
{
    let ec = chars_of(e);
    ext_is_exec(p, ec.as_slice())
}

/// The kind of a dropped path, from whether it is a folder and from its extension.
pub fn classify_dropped_mod_path(path: &str, is_dir: bool) -> (r: ModKind)
    ensures
        r == classify_spec(path@, is_dir),
{
    if is_dir {
        return ModKind::Directory;
    }
    let p = chars_of(path);
    let p = p.as_slice();
    if ext_is_lit(p, "zip") || ext_is_lit(p, "7z") || ext_is_lit(p, "rar") {
        ModKind::Archive
    } else if ext_is_lit(p, "jar") || ext_is_lit(p, "pck") || ext_is_lit(p, "pak") {
        ModKind::Package
    } else {
        ModKind::UnknownFile
    }
}

/// A `.pck` or `.pak` package.
pub fn is_pck_path(path: &str) -> (r: bool)
    ensures
        r == (ext_is(path@, "pck"@) || ext_is(path@, "pak"@)),
{
    let p = chars_of(path);
    ext_is_lit(p.as_slice(), "pck") || ext_is_lit(p.as_slice(), "pak")
}

pub fn is_zip_path(path: &str) -> (r: bool)
    ensures
        r == ext_is(path@, "zip"@),
{
    let p = chars_of(path);
    ext_is_lit(p.as_slice(), "zip")
}

/// A `.zip`, `.7z` or `.rar` archive.
pub fn is_supported_archive_path(path: &str) -> (r: bool)
    ensures
        r == (ext_is(path@, "zip"@) || ext_is(path@, "7z"@) || ext_is(path@, "rar"@)),
{
    let p = chars_of(path);
    let p = p.as_slice();
    ext_is_lit(p, "zip") || ext_is_lit(p, "7z") || ext_is_lit(p, "rar")
}

pub fn is_supported_extractable_path(path: &str) -> (r: bool)
    ensures
        r == (ext_is(path@, "zip"@) || ext_is(path@, "7z"@) || ext_is(path@, "rar"@) || ext_is(
            path@,
            "pck"@,
        ) || ext_is(path@, "pak"@)),
{
    is_supported_archive_path(path) || is_pck_path(path)
}

/// The archive kinds that a drop accepts.
pub fn is_supported_drop_archive_path(path: &str) -> (r: bool)
    ensures
        r == (ext_is(path@, "zip"@) || ext_is(path@, "7z"@) || ext_is(path@, "rar"@)),
{
    is_supported_archive_path(path)
}

pub fn drop_is_zip_archive(path: &str) -> (r: bool)
    ensures
        r == ext_is(path@, "zip"@),
{
    is_zip_path(path)
}

/// Files that are build payloads rather than translation sheets.
pub fn is_translation_memory_payload_file(path: &str) -> (r: bool)
    ensures
        r == (ext_is(path@, "pck"@) || ext_is(path@, "zip"@) || ext_is(path@, "rar"@) || ext_is(
            path@,
            "7z"@,
        )),
{
    let p = chars_of(path);
    let p = p.as_slice();
    ext_is_lit(p, "pck") || ext_is_lit(p, "zip") || ext_is_lit(p, "rar") || ext_is_lit(p, "7z")
}

pub open spec fn display_name_spec(path: Seq<char>, kind: ModKind) -> Seq<char> {
    let raw = match file_name_spec(path) {
        Some(n) => if kind == ModKind::Directory {
            Some(n)
        } else {
            Some(stem_of(n))
        },
        None => None,
    };
    match raw {
        Some(n) => if trim_seq(n).len() > 0 {
            trim_seq(n)
        } else {
            "unknown-mod"@
        },
        None => "unknown-mod"@,
    }
}

/// The name shown for a dropped mod: the folder name, or the file name without extension.
pub fn dropped_mod_display_name(path: &str, kind: ModKind) -> (r: String)
    ensures
        r@ == display_name_spec(path@, kind),
{
    let p = chars_of(path);
    match file_name_exec(p.as_slice()) {
        Some(n) => {
            let raw = if kind == ModKind::Directory {
                n
            } else {
                stem_exec(n.as_slice())
            };
            let t = trim(raw.as_slice());
            if t.len() > 0 {
                string_from(t.as_slice())
            } else {
                "unknown-mod".to_string()
            }
        },
        None => "unknown-mod".to_string(),
    }
}

pub open spec fn version_seps() -> Seq<char> {
    seq!['-', '_', ' ', '[', ']']
}

pub open spec fn looks_like_version(part: Seq<char>) -> bool {
    let l = lower_seq(part);
    l.len() > 0 && l[0] == 'v' && exists|i: int| 1 <= i < l.len() && is_ascii_digit(#[trigger] l[i])
}

/// The version written in a dropped file's name: the first piece (between `-`, `_`, space,
/// `[` and `]`) that starts with `v` and holds a digit.
pub open spec fn version_hint_spec(name: Seq<char>) -> Option<Seq<char>> {
    let parts = split_by_seq(name, version_seps());
    if exists|i: int| 0 <= i < parts.len() && looks_like_version(#[trigger] parts[i]) {
        let i = choose|i: int|
            0 <= i < parts.len() && looks_like_version(parts[i]) && forall|j: int|
                0 <= j < i ==> !looks_like_version(#[trigger] parts[j]);
        Some(trim_seq(parts[i]))
    } else {
        None
    }
}

fn looks_like_version_exec(part: &[char]) -> (r: bool)
    ensures
        r == looks_like_version(part@),
{
    let l = ascii_lower(part);
    if l.len() == 0 || l[0] != 'v' {
        return false;
    }
    let mut i: usize = 1;
    while i < l.len()
        invariant
            1 <= i <= l@.len(),
            l@ == lower_seq(part@),
            l@[0] == 'v',
            forall|j: int| 1 <= j < i ==> !is_ascii_digit(#[trigger] l@[j]),
        decreases l.len() - i,
    {
        if is_ascii_digit_exec(l[i]) {
            assert(is_ascii_digit(l@[i as int]));
            return true;
        }
        i += 1;
    }
    false
}

pub fn infer_dropped_version_hint(name: &str) -> (r: Option<String>)
    ensures
        match r {
            Some(s) => version_hint_spec(name@) == Some(s@),
            None => version_hint_spec(name@) is None,
        },
{
    let n = chars_of(name);
    let seps: Vec<char> = vec!['-', '_', ' ', '[', ']'];
    assert(seps@ =~= version_seps());
    let parts = split_by(n.as_slice(), seps.as_slice());
    let ghost ps = split_by_seq(name@, version_seps());
    let mut i: usize = 0;
    while i < parts.len()
        invariant
            i <= parts@.len(),
            ps == split_by_seq(name@, version_seps()),
            parts@.len() == ps.len(),
            forall|k: int| 0 <= k < parts@.len() ==> #[trigger] parts@[k]@ == ps[k],
            forall|j: int| 0 <= j < i ==> !looks_like_version(#[trigger] ps[j]),
        decreases parts.len() - i,
    {
        if looks_like_version_exec(parts[i].as_slice()) {
            proof {
                assert(looks_like_version(ps[i as int]));
                let k = choose|k: int|
                    0 <= k < ps.len() && looks_like_version(ps[k]) && forall|j: int|
                        0 <= j < k ==> !looks_like_version(#[trigger] ps[j]);
                if k < i {
                    assert(!looks_like_version(ps[k]));
                } else if k > i {
                    assert(!looks_like_version(ps[i as int]));
                }
                assert(k == i);
                assert(parts@[i as int]@ == ps[i as int]);
            }
            let t = trim(parts[i].as_slice());
            return Some(string_from(t.as_slice()));
        }
        i += 1;
    }
    None
}

pub open spec fn is_disabled_component(c: Seq<char>) -> bool {
    lower_seq(c) == lower_seq(".disabled"@) || lower_seq(c) == lower_seq("mods.disabled"@)
}

/// A mod that lies under a `.disabled` or `mods.disabled` folder.
pub fn is_game_disabled_record(path: &str) -> (r: bool)
    ensures
        r == exists|i: int|
            0 <= i < components(path@).len() && is_disabled_component(#[trigger] components(path@)[i]),
{
    let p = chars_of(path);
    let comps = comps_of(p.as_slice());
    let a = chars_of(".disabled");
    let b = chars_of("mods.disabled");
    let mut i: usize = 0;
    while i < comps.len()
        invariant
            i <= comps@.len(),
            vv(comps@) == components(path@),
            a@ == ".disabled"@,
            b@ == "mods.disabled"@,
            forall|j: int| 0 <= j < i ==> !is_disabled_component(#[trigger] vv(comps@)[j]),
        decreases comps.len() - i,
    {
        let hit = crate::text::eq_ignore_case(comps[i].as_slice(), a.as_slice())
            || crate::text::eq_ignore_case(comps[i].as_slice(), b.as_slice());
        assert(vv(comps@)[i as int] == comps@[i as int]@);
        if hit {
            assert(is_disabled_component(vv(comps@)[i as int]));
            return true;
        }
        assert(!is_disabled_component(vv(comps@)[i as int]));
        i += 1;
    }
    false
}

pub open spec fn records_keys(v: Seq<ModRecord>) -> Set<Seq<char>> {
    Set::new(|k: Seq<char>| exists|i: int| 0 <= i < v.len() && (#[trigger] v[i]).key@ == k)
}

pub open spec fn enabled_keys(v: Seq<ModRecord>) -> Set<Seq<char>> {
    Set::new(
        |k: Seq<char>|
            exists|i: int|
                0 <= i < v.len() && (#[trigger] v[i]).key@ == k && !exists|j: int|
                    0 <= j < components(v[i].path@).len() && is_disabled_component(
                        #[trigger] components(v[i].path@)[j],
                    ),
    )
}

/// Keys of the mods that the game can see: those in the game and disabled folders that do
/// not lie under a disabled folder, and every mod of an outside manager.
pub open spec fn connected_keys_spec(summary: &ScanSummary) -> Set<Seq<char>> {
    enabled_keys(summary.game_mods@).union(enabled_keys(summary.disabled_mods@)).union(
        records_keys(summary.external_manager_mods@),
    )
}

pub open spec fn keys_set(v: Seq<String>) -> Set<Seq<char>> {
    Set::new(|k: Seq<char>| exists|i: int| 0 <= i < v.len() && (#[trigger] v[i])@ == k)
}

pub(crate) fn add_keys(out: &mut Vec<String>, records: &Vec<ModRecord>, skip_disabled: bool)
    ensures
        keys_set(final(out)@) == keys_set(old(out)@).union(
            if skip_disabled {
                enabled_keys(records@)
            } else {
                records_keys(records@)
            },
        ),
{
    let ghost start = out@;
    let mut i: usize = 0;
    while i < records.len()
        invariant
            i <= records@.len(),
            keys_set(out@) == keys_set(start).union(
                if skip_disabled {
                    enabled_keys(records@.take(i as int))
                } else {
                    records_keys(records@.take(i as int))
                },
            ),
        decreases records.len() - i,
    {
        let r = &records[i];
        let hidden = skip_disabled && is_game_disabled_record(r.path.as_str());
        let ghost before = out@;
        if !hidden {
            out.push(r.key.clone());
        }
        i += 1;
        proof {
            let t = records@.take(i as int);
            let s = records@.take(i - 1);
            if skip_disabled {
                assert(keys_set(out@) =~= keys_set(start).union(enabled_keys(t))) by {
                    assert forall|k: Seq<char>| keys_set(out@).contains(k) implies keys_set(
                        start,
                    ).union(enabled_keys(t)).contains(k) by {
                        let m = choose|m: int| 0 <= m < out@.len() && (#[trigger] out@[m])@ == k;
                        if m < before.len() {
                            assert(keys_set(before).contains(k));
                            if enabled_keys(s).contains(k) {
                                let w = choose|w: int|
                                    0 <= w < s.len() && (#[trigger] s[w]).key@ == k && !exists|
                                        j: int,
                                    |
                                        0 <= j < components(s[w].path@).len()
                                            && is_disabled_component(
                                            #[trigger] components(s[w].path@)[j],
                                        );
                                assert(t[w] == s[w]);
                            }
                        } else {
                            assert(t[i - 1] == records@[i - 1]);
                        }
                    }
                    assert forall|k: Seq<char>| keys_set(start).union(enabled_keys(t)).contains(
                        k,
                    ) implies keys_set(out@).contains(k) by {
                        if keys_set(start).contains(k) {
                            assert(keys_set(before).contains(k));
                            let m = choose|m: int| 0 <= m < before.len() && (#[trigger] before[m])@ == k;
                            assert(out@[m] == before[m]);
                        } else {
                            let w = choose|w: int|
                                0 <= w < t.len() && (#[trigger] t[w]).key@ == k && !exists|j: int|
                                    0 <= j < components(t[w].path@).len() && is_disabled_component(
                                        #[trigger] components(t[w].path@)[j],
                                    );
                            if w < i - 1 {
                                assert(s[w] == t[w]);
                                assert(enabled_keys(s).contains(k));
                                assert(keys_set(before).contains(k));
                                let m = choose|m: int|
                                    0 <= m < before.len() && (#[trigger] before[m])@ == k;
                                assert(out@[m] == before[m]);
                            } else {
                                assert(out@[out@.len() - 1]@ == k);
                            }
                        }
                    }
                }
            } else {
                assert(keys_set(out@) =~= keys_set(start).union(records_keys(t))) by {
                    assert forall|k: Seq<char>| keys_set(out@).contains(k) implies keys_set(
                        start,
                    ).union(records_keys(t)).contains(k) by {
                        let m = choose|m: int| 0 <= m < out@.len() && (#[trigger] out@[m])@ == k;
                        if m < before.len() {
                            assert(keys_set(before).contains(k));
                            if records_keys(s).contains(k) {
                                let w = choose|w: int| 0 <= w < s.len() && (#[trigger] s[w]).key@ == k;
                                assert(t[w] == s[w]);
                            }
                        } else {
                            assert(t[i - 1] == records@[i - 1]);
                        }
                    }
                    assert forall|k: Seq<char>| keys_set(start).union(records_keys(t)).contains(
                        k,
                    ) implies keys_set(out@).contains(k) by {
                        if keys_set(start).contains(k) {
                            assert(keys_set(before).contains(k));
                            let m = choose|m: int| 0 <= m < before.len() && (#[trigger] before[m])@ == k;
                            assert(out@[m] == before[m]);
                        } else {
                            let w = choose|w: int| 0 <= w < t.len() && (#[trigger] t[w]).key@ == k;
                            if w < i - 1 {
                                assert(s[w] == t[w]);
                                assert(records_keys(s).contains(k));
                                assert(keys_set(before).contains(k));
                                let m = choose|m: int|
                                    0 <= m < before.len() && (#[trigger] before[m])@ == k;
                                assert(out@[m] == before[m]);
                            } else {
                                assert(out@[out@.len() - 1]@ == k);
                            }
                        }
                    }
                }
            }
        }
    }
    assert(records@.take(records@.len() as int) =~= records@);
}

/// The keys of the mods that the game can load now.
pub fn connected_mod_keys(summary: &ScanSummary) -> (r: Vec<String>)
    ensures
        keys_set(r@) == connected_keys_spec(summary),
{
    let mut out: Vec<String> = Vec::new();
    assert(keys_set(out@) =~= Set::<Seq<char>>::empty());
    add_keys(&mut out, &summary.game_mods, true);
    add_keys(&mut out, &summary.disabled_mods, true);
    add_keys(&mut out, &summary.external_manager_mods, false);
    assert(keys_set(out@) =~= connected_keys_spec(summary));
    out
}

/// The positions of the records of supported kinds among `kinds`, in order.
pub open spec fn supported_positions(kinds: Seq<ModKind>) -> Seq<usize>
    decreases kinds.len(),
{
    if kinds.len() == 0 {
        Seq::empty()
    } else {
        let prev = supported_positions(kinds.drop_last());
        if kinds.last() != ModKind::UnknownFile {
            prev.push((kinds.len() - 1) as usize)
        } else {
            prev
        }
    }
}

/// What to do with a dropped folder after looking into it.
pub enum DropStep {
    /// Take these records of the folder (by position) as the dropped mods.
    Take(Vec<usize>),
    /// Look into the record at this position, the folder's only mod, a folder itself.
    Enter(usize),
}

/// Whether a dropped folder, entered `depth` folders deep, is looked into further: where it
/// holds exactly one supported record, a folder, and fewer than three folders were entered.
pub open spec fn enters(depth: nat, kinds: Seq<ModKind>) -> bool {
    let s = supported_positions(kinds);
    depth < 3 && s.len() == 1 && kinds[s[0] as int] == ModKind::Directory
}

/// One step of splitting a dropped folder into mods. `kinds` are the kinds of the records
/// found in the folder now looked at, `depth` folders below the one dropped. Several
/// supported records, or none, are taken as they are; a lone folder is entered, up to three
/// folders deep; a lone record of another kind is taken alone; at the last depth whatever
/// is supported is taken.
pub fn split_dropped_step(depth: usize, kinds: &Vec<ModKind>) -> (r: DropStep)
    ensures
        enters(depth as nat, kinds@) ==> r == DropStep::Enter(supported_positions(kinds@)[0]),
        !enters(depth as nat, kinds@) ==> (r matches DropStep::Take(v) && v@ == supported_positions(kinds@)),
{
    let mut s: Vec<usize> = Vec::new();
    let mut i: usize = 0;
    while i < kinds.len()
        invariant
            i <= kinds@.len(),
            s@ == supported_positions(kinds@.take(i as int)),
            forall|j: int| 0 <= j < s@.len() ==> s@[j] < i,
        decreases kinds.len() - i,
    {
        assert(kinds@.take(i + 1).drop_last() =~= kinds@.take(i as int));
        if is_supported_dropped_mod_kind(kinds[i]) {
            s.push(i);
        }
        i += 1;
    }
    assert(kinds@.take(i as int) =~= kinds@);
    if depth < 3 && s.len() == 1 && kinds[s[0]] == ModKind::Directory {
        DropStep::Enter(s[0])
    } else {
        DropStep::Take(s)
    }
}

} // verus!
