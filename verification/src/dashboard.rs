//! What the dashboard shows of paths, tools, presets and launches, the messages it gives,
//! and the names it makes for dropped mods.
use vstd::prelude::*;
use crate::text::{chars_of, string_from, cat, u64_text, dec_seq, push_all, seq_eq};
use crate::paths::{file_name_spec, file_name_exec, join_name_spec, join_name_str};
use crate::settings::AppConfig;
use crate::roots::{game_disabled_dir, game_disabled_dir_spec, opt_view, path_starts_with, path_starts_with_exec};
use crate::model::{ModRecord, ScanSummary, kind_label, kind_label_spec, copy_opt};
use crate::logs::{strings_view, push_unique_path, push_unique_spec};
use crate::deleted::rest_under;

verus! {

broadcast use vstd::string::group_string_axioms;

/// A path as the dashboard shows it: as text, unchanged.
pub fn display_path(path: &str) -> (r: String)
    ensures
        r@ == path@,
{
    path.to_string()
}

/// The folders the dashboard lists.
pub struct PathsDto {
    pub workspace: String,
    pub game: String,
    pub game_mods: String,
    pub save_dir: String,
    pub save_backup: String,
    pub disabled: String,
    pub presets: String,
    pub translation_work: String,
    pub state: String,
    pub vendor: String,
    pub external_manager_dirs: Vec<String>,
}

pub fn paths_dto(config: &AppConfig) -> (r: PathsDto)
    ensures
        r.workspace@ == config.workspace_dir@,
        r.game@ == config.game_dir@,
        r.game_mods@ == config.game_mods_dir@,
        r.save_dir@ == match config.save_dir {
            Some(s) => s@,
            None => Seq::<char>::empty(),
        },
        r.save_backup@ == config.save_backup_dir@,
        r.disabled@ == game_disabled_dir_spec(config.game_mods_dir@),
        r.presets@ == config.presets_dir@,
        r.translation_work@ == config.translation_work_dir@,
        r.state@ == config.state_dir@,
        r.vendor@ == config.vendor_dir@,
        strings_view(r.external_manager_dirs@) == strings_view(config.external_manager_dirs@),
{
    let mut dirs: Vec<String> = Vec::new();
    let mut i: usize = 0;
    while i < config.external_manager_dirs.len()
        invariant
            i <= config.external_manager_dirs@.len(),
            strings_view(dirs@) == strings_view(config.external_manager_dirs@).take(i as int),
        decreases config.external_manager_dirs.len() - i,
    {
        let ghost before = dirs@;
        let d = display_path(config.external_manager_dirs[i].as_str());
        dirs.push(d);
        proof {
            assert(strings_view(dirs@) =~= strings_view(before).push(config.external_manager_dirs@[i as int]@));
            assert(strings_view(config.external_manager_dirs@).take(i + 1) =~= strings_view(
                config.external_manager_dirs@,
            ).take(i as int).push(config.external_manager_dirs@[i as int]@));
        }
        i += 1;
    }
    assert(strings_view(config.external_manager_dirs@).take(i as int) =~= strings_view(config.external_manager_dirs@));
    PathsDto {
        workspace: display_path(config.workspace_dir.as_str()),
        game: display_path(config.game_dir.as_str()),
        game_mods: display_path(config.game_mods_dir.as_str()),
        save_dir: match &config.save_dir {
            Some(s) => display_path(s.as_str()),
            None => String::new(),
        },
        save_backup: display_path(config.save_backup_dir.as_str()),
        disabled: game_disabled_dir(config.game_mods_dir.as_str()),
        presets: display_path(config.presets_dir.as_str()),
        translation_work: display_path(config.translation_work_dir.as_str()),
        state: display_path(config.state_dir.as_str()),
        vendor: display_path(config.vendor_dir.as_str()),
        external_manager_dirs: dirs,
    }
}

/// Whether the game can be launched, and with what.
pub struct LaunchStatus {
    pub ready: bool,
    pub game_exe: Option<String>,
    pub steam_exe: Option<String>,
    pub running: bool,
}

pub struct LaunchStatusDto {
    pub ready: bool,
    pub game_exe: Option<String>,
    pub steam_exe: Option<String>,
    pub target_label: String,
    pub running: bool,
}

/// The launch target's label: the game, else Steam as a fallback, else `not found`.
pub open spec fn target_label_spec(game: Option<Seq<char>>, steam: Option<Seq<char>>) -> Seq<char> {
    match game {
        Some(g) => g,
        None => match steam {
            Some(s) => "Steam fallback ("@ + s + ")"@,
            None => "not found"@,
        },
    }
}

pub fn launch_dto(status: LaunchStatus) -> (r: LaunchStatusDto)
    ensures
        r.ready == status.ready,
        r.running == status.running,
        opt_view(r.game_exe) == opt_view(status.game_exe),
        opt_view(r.steam_exe) == opt_view(status.steam_exe),
        r.target_label@ == target_label_spec(opt_view(status.game_exe), opt_view(status.steam_exe)),
{
    let target_label = match &status.game_exe {
        Some(g) => g.clone(),
        None => match &status.steam_exe {
            Some(s) => {
                let a = cat("Steam fallback (", s.as_str());
                cat(a.as_str(), ")")
            },
            None => "not found".to_string(),
        },
    };
    LaunchStatusDto {
        ready: status.ready,
        game_exe: status.game_exe,
        steam_exe: status.steam_exe,
        target_label,
        running: status.running,
    }
}

/// A bundled tool and where it is looked for.
pub struct VendorTool {
    pub name: String,
    pub available: bool,
    pub purpose: String,
    pub expected_path: String,
}

pub struct ToolDto {
    pub name: String,
    pub available: bool,
    pub purpose: String,
    pub expected_path: String,
}

pub fn tool_dto(tool: VendorTool) -> (r: ToolDto)
    ensures
        r.name@ == tool.name@,
        r.available == tool.available,
        r.purpose@ == tool.purpose@,
        r.expected_path@ == tool.expected_path@,
{
    ToolDto {
        name: tool.name,
        available: tool.available,
        purpose: tool.purpose,
        expected_path: display_path(tool.expected_path.as_str()),
    }
}

/// A translation workspace of a mod version.
pub struct TranslationWorkspace {
    pub mod_key: String,
    pub version_id: String,
    pub review_required: bool,
    pub path: String,
}

pub struct TranslationWorkspaceDto {
    pub mod_key: String,
    pub version_id: String,
    pub review_required: bool,
    pub path: String,
}

pub fn translation_dto(workspace: TranslationWorkspace) -> (r: TranslationWorkspaceDto)
    ensures
        r.mod_key@ == workspace.mod_key@,
        r.version_id@ == workspace.version_id@,
        r.review_required == workspace.review_required,
        r.path@ == workspace.path@,
{
    TranslationWorkspaceDto {
        mod_key: workspace.mod_key,
        version_id: workspace.version_id,
        review_required: workspace.review_required,
        path: display_path(workspace.path.as_str()),
    }
}

/// A mod as a preset remembers it.
pub struct PresetEntry {
    pub key: String,
    pub version_hint: Option<String>,
    pub bytes: u64,
    pub modified_epoch: Option<u64>,
    pub file_name: String,
}

pub struct Preset {
    pub name: String,
    pub mods: Vec<PresetEntry>,
}

pub struct PresetModDto {
    pub key: String,
    pub version_hint: Option<String>,
    pub bytes: Option<u64>,
    pub modified_epoch: Option<u64>,
    pub file_name: Option<String>,
}

pub struct PresetDto {
    pub name: String,
    pub mod_count: usize,
    pub mods: Vec<PresetModDto>,
}

pub open spec fn preset_mod_ok(d: PresetModDto, e: PresetEntry) -> bool {
    &&& d.key@ == e.key@
    &&& opt_view(d.version_hint) == opt_view(e.version_hint)
    &&& d.bytes == Some(e.bytes)
    &&& d.modified_epoch == e.modified_epoch
    &&& opt_view(d.file_name) == Some(e.file_name@)
}

pub fn preset_dto(preset: Preset) -> (r: PresetDto)
    ensures
        r.name@ == preset.name@,
        r.mod_count == preset.mods@.len(),
        r.mods@.len() == preset.mods@.len(),
        forall|i: int| 0 <= i < r.mods@.len() ==> preset_mod_ok(#[trigger] r.mods@[i], preset.mods@[i]),
{
    let mut mods: Vec<PresetModDto> = Vec::new();
    let mut i: usize = 0;
    while i < preset.mods.len()
        invariant
            i <= preset.mods@.len(),
            mods@.len() == i,
            forall|k: int| 0 <= k < i ==> preset_mod_ok(#[trigger] mods@[k], preset.mods@[k]),
        decreases preset.mods.len() - i,
    {
        let e = &preset.mods[i];
        mods.push(
            PresetModDto {
                key: e.key.clone(),
                version_hint: copy_opt(&e.version_hint),
                bytes: Some(e.bytes),
                modified_epoch: e.modified_epoch,
                file_name: Some(e.file_name.clone()),
            },
        );
        i += 1;
    }
    PresetDto { name: preset.name, mod_count: preset.mods.len(), mods }
}

/// A save backup as the backup store lists it; `kind` and `kind_label` name its kind.
pub struct SaveBackupEntry {
    pub id: String,
    pub kind: String,
    pub kind_label: String,
    pub created_epoch: u64,
    pub path: String,
    pub bytes: u64,
}

pub struct SaveBackupDto {
    pub id: String,
    pub kind: String,
    pub kind_label: String,
    pub created_epoch: u64,
    pub path: String,
    pub bytes: u64,
}

pub fn save_backup_dto(entry: SaveBackupEntry) -> (r: SaveBackupDto)
    ensures
        r.id@ == entry.id@,
        r.kind@ == entry.kind@,
        r.kind_label@ == entry.kind_label@,
        r.created_epoch == entry.created_epoch,
        r.path@ == entry.path@,
        r.bytes == entry.bytes,
{
    SaveBackupDto {
        id: entry.id,
        kind: entry.kind,
        kind_label: entry.kind_label,
        created_epoch: entry.created_epoch,
        path: display_path(entry.path.as_str()),
        bytes: entry.bytes,
    }
}

/// What applying a preset did.
pub struct PresetApplyReport {
    pub disabled: Vec<String>,
    pub enabled: Vec<String>,
    pub missing: Vec<String>,
    pub version_warnings: Vec<String>,
}

pub open spec fn preset_apply_message_spec(name: Seq<char>, report: &PresetApplyReport) -> Seq<char> {
    let first = "'"@ + name + "' 프리셋 적용 완료: "@ + dec_seq(report.enabled@.len()) + "개 활성화, "@
        + dec_seq(report.disabled@.len()) + "개 비활성화"@;
    let with_missing = if report.missing@.len() > 0 {
        first + " / "@ + "누락 "@ + dec_seq(report.missing@.len()) + "개"@
    } else {
        first
    };
    if report.version_warnings@.len() > 0 {
        with_missing + " / "@ + "버전 확인 필요 "@ + dec_seq(report.version_warnings@.len()) + "개"@
    } else {
        with_missing
    }
}

fn count_text(n: usize) -> (r: String)
    ensures
        r@ == dec_seq(n as nat),
{
    u64_text(n as u64)
}

/// The message after a preset is applied: how many mods were enabled and disabled, and
/// how many were missing or need a version check, where any.
pub fn preset_apply_message(name: &str, report: &PresetApplyReport) -> (r: String)
    ensures
        r@ == preset_apply_message_spec(name@, report),
{
    let m = cat("'", name);
    let m = cat(m.as_str(), "' 프리셋 적용 완료: ");
    let m = cat(m.as_str(), count_text(report.enabled.len()).as_str());
    let m = cat(m.as_str(), "개 활성화, ");
    let m = cat(m.as_str(), count_text(report.disabled.len()).as_str());
    let mut m = cat(m.as_str(), "개 비활성화");
    if report.missing.len() > 0 {
        let a = cat(m.as_str(), " / ");
        let a = cat(a.as_str(), "누락 ");
        let a = cat(a.as_str(), count_text(report.missing.len()).as_str());
        m = cat(a.as_str(), "개");
    }
    if report.version_warnings.len() > 0 {
        let a = cat(m.as_str(), " / ");
        let a = cat(a.as_str(), "버전 확인 필요 ");
        let a = cat(a.as_str(), count_text(report.version_warnings.len()).as_str());
        m = cat(a.as_str(), "개");
    }
    m
}

/// What a launch did.
pub struct LaunchReport {
    pub process_id: u32,
    pub save_backups_created: usize,
    pub seeded_modded_profiles: usize,
    pub save_backup_warning: Option<String>,
}

pub open spec fn launch_message_spec(prefix: Seq<char>, report: &LaunchReport) -> Seq<char> {
    let sep = " · "@;
    let a = prefix + ": pid "@ + dec_seq(report.process_id as nat);
    let b = if report.save_backups_created > 0 {
        a + sep + "세이브 백업 "@ + dec_seq(report.save_backups_created as nat) + "개"@
    } else {
        a
    };
    let c = if report.seeded_modded_profiles > 0 {
        b + sep + "modded 프로필 "@ + dec_seq(report.seeded_modded_profiles as nat) + "개 초기 복사"@
    } else {
        b
    };
    match report.save_backup_warning {
        Some(w) => c + sep + "백업 건너뜀: "@ + w@,
        None => c,
    }
}

/// The message after a launch: the process id, then the backups made, the profiles seeded
/// and a backup warning, where any.
pub fn launch_message(prefix: &str, report: &LaunchReport) -> (r: String)
    ensures
        r@ == launch_message_spec(prefix@, report),
{
    let m = cat(prefix, ": pid ");
    let mut m = cat(m.as_str(), u64_text(report.process_id as u64).as_str());
    if report.save_backups_created > 0 {
        let a = cat(m.as_str(), " · ");
        let a = cat(a.as_str(), "세이브 백업 ");
        let a = cat(a.as_str(), count_text(report.save_backups_created).as_str());
        m = cat(a.as_str(), "개");
    }
    if report.seeded_modded_profiles > 0 {
        let a = cat(m.as_str(), " · ");
        let a = cat(a.as_str(), "modded 프로필 ");
        let a = cat(a.as_str(), count_text(report.seeded_modded_profiles).as_str());
        m = cat(a.as_str(), "개 초기 복사");
    }
    if let Some(w) = &report.save_backup_warning {
        let a = cat(m.as_str(), " · ");
        let a = cat(a.as_str(), "백업 건너뜀: ");
        m = cat(a.as_str(), w.as_str());
    }
    m
}

pub open spec fn first_key_at(v: Seq<ModRecord>, key: Seq<char>, i: int) -> bool {
    0 <= i < v.len() && v[i].key@ == key && forall|j: int| 0 <= j < i ==> (#[trigger] v[j]).key@ != key
}

pub open spec fn first_with_key(v: Seq<ModRecord>, key: Seq<char>) -> Option<ModRecord> {
    if exists|i: int| first_key_at(v, key, i) {
        Some(v[choose|i: int| first_key_at(v, key, i)])
    } else {
        None
    }
}

/// The first mod with the key among the game's mods, then the vault's, then the outside
/// managers'.
pub open spec fn find_record_spec(summary: &ScanSummary, key: Seq<char>) -> Option<ModRecord> {
    match first_with_key(summary.game_mods@, key) {
        Some(r) => Some(r),
        None => match first_with_key(summary.vault_mods@, key) {
            Some(r) => Some(r),
            None => first_with_key(summary.external_manager_mods@, key),
        },
    }
}

fn find_in(records: &Vec<ModRecord>, key: &[char]) -> (r: Option<usize>)
    ensures
        match r {
            Some(i) => i < records@.len() && first_with_key(records@, key@) == Some(records@[i as int]),
            None => first_with_key(records@, key@) is None,
        },
{
    let mut i: usize = 0;
    while i < records.len()
        invariant
            i <= records@.len(),
            forall|j: int| 0 <= j < i ==> (#[trigger] records@[j]).key@ != key@,
        decreases records.len() - i,
    {
        if seq_eq(chars_of(records[i].key.as_str()).as_slice(), key) {
            proof {
                assert(first_key_at(records@, key@, i as int));
                let c = choose|c: int| first_key_at(records@, key@, c);
                if c < i {
                    assert(records@[c].key@ != key@);
                } else if c > i {
                    assert(records@[i as int].key@ != key@);
                }
            }
            return Some(i);
        }
        i += 1;
    }
    proof {
        assert forall|c: int| !first_key_at(records@, key@, c) by {
            if 0 <= c < records@.len() {
                assert(records@[c].key@ != key@);
            }
        }
    }
    None
}

/// The mod with a key, or the error that names it.
pub fn find_mod_record(summary: &ScanSummary, key: &str) -> (r: Result<ModRecord, String>)
    ensures
        match r {
            Ok(rec) => find_record_spec(summary, key@) matches Some(f) && rec.same_as(&f),
            Err(e) => find_record_spec(summary, key@) is None && e@ == key@ + " 모드를 찾을 수 없습니다."@,
        },
{
    let k = chars_of(key);
    if let Some(i) = find_in(&summary.game_mods, k.as_slice()) {
        return Ok(summary.game_mods[i].duplicate());
    }
    if let Some(i) = find_in(&summary.vault_mods, k.as_slice()) {
        return Ok(summary.vault_mods[i].duplicate());
    }
    if let Some(i) = find_in(&summary.external_manager_mods, k.as_slice()) {
        return Ok(summary.external_manager_mods[i].duplicate());
    }
    Err(cat(key, " 모드를 찾을 수 없습니다."))
}

pub open spec fn fnv_spec(bytes: Seq<u8>) -> u64
    decreases bytes.len(),
{
    if bytes.len() == 0 {
        0xcbf29ce484222325u64
    } else {
        (fnv_spec(bytes.drop_last()) ^ (bytes.last() as u64)).wrapping_mul(0x100000001b3u64)
    }
}

/// The 64-bit FNV-1a hash of a text's UTF-8 bytes.
pub fn drop_stable_hash(value: &str) -> (r: u64)
    ensures
        r == fnv_spec(vstd::utf8::encode_utf8(value@)),
{
    let bytes = value.as_bytes();
    let mut hash: u64 = 0xcbf29ce484222325u64;
    let mut i: usize = 0;
    while i < bytes.len()
        invariant
            i <= bytes@.len(),
            bytes@ == vstd::utf8::encode_utf8(value@),
            hash == fnv_spec(bytes@.take(i as int)),
        decreases bytes.len() - i,
    {
        proof {
            assert(bytes@.take(i + 1).drop_last() =~= bytes@.take(i as int));
        }
        hash = (hash ^ (bytes[i] as u64)).wrapping_mul(0x100000001b3u64);
        i += 1;
    }
    assert(bytes@.take(i as int) =~= bytes@);
    hash
}

/// The 64-bit FNV-1a hash of a text's UTF-8 bytes, as log findings and cache entries are
/// named by it.
pub fn stable_hash(value: &str) -> (r: u64)
    ensures
        r == fnv_spec(vstd::utf8::encode_utf8(value@)),
{
    drop_stable_hash(value)
}

pub open spec fn hex_char(d: nat) -> char {
    if d < 10 {
        ((d + 48) as u8) as char
    } else {
        ((d + 87) as u8) as char
    }
}

/// The last `k` hexadecimal digits of `n`, zero-padded, in lower case.
pub open spec fn hex_spec(n: nat, k: nat) -> Seq<char>
    decreases k,
{
    if k == 0 {
        Seq::empty()
    } else {
        hex_spec(n / 16, (k - 1) as nat).push(hex_char(n % 16))
    }
}

pub fn hex_digits(n: u64, k: usize) -> (r: Vec<char>)
    ensures
        r@ == hex_spec(n as nat, k as nat),
    decreases k,
{
    if k == 0 {
        Vec::new()
    } else {
        let mut v = hex_digits(n / 16, k - 1);
        let d = n % 16;
        let c = if d < 10 { ((d as u8) + 48) as char } else { ((d as u8) + 87) as char };
        v.push(c);
        v
    }
}

pub open spec fn drop_cache_key(path: Seq<char>, meta: Option<(u64, u64)>) -> Seq<char> {
    match meta {
        Some((len, modified)) => path + seq![':'] + dec_seq(len as nat) + seq![':'] + dec_seq(modified as nat),
        None => path,
    }
}

/// Where a dropped archive is unpacked: a folder in the state folder named by the hash of
/// the archive's path, size and modification time (`meta`, where they could be read).
pub fn drop_import_extract_dir(path: &str, meta: Option<(u64, u64)>, config: &AppConfig) -> (r: String)
    ensures
        r@ == join_name_spec(
            join_name_spec(config.state_dir@, "drop_imports"@),
            "drop-"@ + hex_spec(fnv_spec(vstd::utf8::encode_utf8(drop_cache_key(path@, meta))) as nat, 16),
        ),
{
    let key = match meta {
        Some((len, modified)) => {
            let mut v = chars_of(path);
            v.push(':');
            push_all(&mut v, crate::text::format_u64(len).as_slice());
            v.push(':');
            push_all(&mut v, crate::text::format_u64(modified).as_slice());
            string_from(v.as_slice())
        },
        None => path.to_string(),
    };
    let h = drop_stable_hash(key.as_str());
    let mut name = chars_of("drop-");
    push_all(&mut name, hex_digits(h, 16).as_slice());
    let name = string_from(name.as_slice());
    let base = join_name_str(config.state_dir.as_str(), "drop_imports");
    assert(key@ == drop_cache_key(path@, meta));
    join_name_str(base.as_str(), name.as_str())
}

pub open spec fn quote_spec(p: Seq<char>) -> Seq<char>
    decreases p.len(),
{
    if p.len() == 0 {
        Seq::empty()
    } else if p.last() == '\'' {
        quote_spec(p.drop_last()) + seq!['\'', '\'']
    } else {
        quote_spec(p.drop_last()).push(p.last())
    }
}

/// A path quoted for PowerShell: in single quotes, each single quote doubled.
pub fn drop_powershell_quote(path: &str) -> (r: String)
    ensures
        r@ == seq!['\''] + quote_spec(path@) + seq!['\''],
{
    let p = chars_of(path);
    let mut body: Vec<char> = Vec::new();
    let mut i: usize = 0;
    while i < p.len()
        invariant
            i <= p@.len(),
            body@ == quote_spec(p@.take(i as int)),
        decreases p.len() - i,
    {
        if p[i] == '\'' {
            body.push('\'');
            body.push('\'');
        } else {
            body.push(p[i]);
        }
        proof {
            assert(p@.take(i + 1).drop_last() =~= p@.take(i as int));
        }
        i += 1;
    }
    assert(p@.take(i as int) =~= p@);
    let mut out: Vec<char> = Vec::new();
    out.push('\'');
    push_all(&mut out, body.as_slice());
    out.push('\'');
    assert(out@ =~= seq!['\''] + quote_spec(path@) + seq!['\'']);
    string_from(out.as_slice())
}

pub open spec fn name_or_path(p: Seq<char>) -> Seq<char> {
    match file_name_spec(p) {
        Some(n) => n,
        None => p,
    }
}

/// How a mod found inside a dropped folder or archive is shown: `container > child`.
pub fn container_child_display_path(container: &str, child: &str) -> (r: String)
    ensures
        r@ == name_or_path(container@) + " > "@ + name_or_path(child@),
{
    let c = match file_name_exec(chars_of(container).as_slice()) {
        Some(n) => string_from(n.as_slice()),
        None => display_path(container),
    };
    let d = match file_name_exec(chars_of(child).as_slice()) {
        Some(n) => string_from(n.as_slice()),
        None => display_path(child),
    };
    let m = cat(c.as_str(), " > ");
    cat(m.as_str(), d.as_str())
}

/// The folder of the vault that holds a path: the vault's first folder on the way to it.
pub open spec fn vault_entry_spec(path: Seq<char>, vault: Seq<char>) -> Option<Seq<char>> {
    match rest_under(path, vault) {
        Some(rest) => if rest.len() > 0 {
            Some(join_name_spec(vault, rest[0]))
        } else {
            None
        },
        None => None,
    }
}

pub fn vault_entry_root_for_path(path: &str, vault_dir: &str) -> (r: Option<String>)
    ensures
        match r {
            Some(p) => vault_entry_spec(path@, vault_dir@) == Some(p@),
            None => vault_entry_spec(path@, vault_dir@) is None,
        },
{
    if !path_starts_with_exec(path, vault_dir) {
        return None;
    }
    let pc = crate::paths::comps_of(chars_of(path).as_slice());
    let vc = crate::paths::comps_of(chars_of(vault_dir).as_slice());
    assert(crate::paths::vv(pc@).len() == pc@.len());
    assert(crate::paths::vv(vc@).len() == vc@.len());
    if vc.len() >= pc.len() {
        proof {
            assert(crate::paths::components(path@).skip(crate::paths::components(vault_dir@).len() as int).len() == 0);
        }
        return None;
    }
    let first = string_from(pc[vc.len()].as_slice());
    proof {
        assert(crate::paths::components(path@).skip(crate::paths::components(vault_dir@).len() as int)[0]
            == crate::paths::vv(pc@)[vc@.len() as int]);
    }
    Some(join_name_str(vault_dir, first.as_str()))
}

/// Where bundled tools may be: `vendor` in the resources, the resources themselves,
/// `_up_\vendor`, and the same two beside the resources; each once.
pub open spec fn vendor_candidates_spec(resource: Seq<char>) -> Seq<Seq<char>> {
    let a = push_unique_spec(Seq::empty(), join_name_spec(resource, "vendor"@));
    let b = push_unique_spec(a, resource);
    let c = push_unique_spec(b, join_name_spec(join_name_spec(resource, "_up_"@), "vendor"@));
    match crate::paths::parent_spec(resource) {
        Some(p) => push_unique_spec(
            push_unique_spec(c, join_name_spec(p, "vendor"@)),
            join_name_spec(join_name_spec(p, "_up_"@), "vendor"@),
        ),
        None => c,
    }
}

pub fn bundled_vendor_candidates(resource_dir: &str) -> (r: Vec<String>)
    ensures
        strings_view(r@) == vendor_candidates_spec(resource_dir@),
{
    let mut c: Vec<String> = Vec::new();
    assert(strings_view(c@) =~= Seq::<Seq<char>>::empty());
    push_unique_path(&mut c, join_name_str(resource_dir, "vendor"));
    push_unique_path(&mut c, resource_dir.to_string());
    let up = join_name_str(resource_dir, "_up_");
    push_unique_path(&mut c, join_name_str(up.as_str(), "vendor"));
    match crate::paths::parent_chars(chars_of(resource_dir).as_slice()) {
        Some(p) => {
            let ps = string_from(p.as_slice());
            push_unique_path(&mut c, join_name_str(ps.as_str(), "vendor"));
            let pu = join_name_str(ps.as_str(), "_up_");
            push_unique_path(&mut c, join_name_str(pu.as_str(), "vendor"));
        },
        None => {},
    }
    c
}

/// The files whose presence marks a folder of bundled tools.
pub open spec fn vendor_markers(path: Seq<char>) -> (Seq<char>, Seq<char>) {
    (
        join_name_spec(join_name_spec(path, "7zip"@), "7z.exe"@),
        join_name_spec(
            join_name_spec(path, "godot-pck-explorer-dotnet-ui-console-win-linux-mac"@),
            "GodotPCKExplorer.Console.exe"@,
        ),
    )
}

/// A folder holds bundled tools when 7-Zip or the PCK explorer is there; `existing_files`
/// are the files known to exist.
pub fn looks_like_vendor_dir(path: &str, existing_files: &Vec<String>) -> (r: bool)
    ensures
        r == exists|i: int|
            0 <= i < existing_files@.len() && (crate::logs::same_components(
                #[trigger] existing_files@[i]@,
                vendor_markers(path@).0,
            ) || crate::logs::same_components(existing_files@[i]@, vendor_markers(path@).1)),
{
    let a0 = join_name_str(path, "7zip");
    let a = join_name_str(a0.as_str(), "7z.exe");
    let b0 = join_name_str(path, "godot-pck-explorer-dotnet-ui-console-win-linux-mac");
    let b = join_name_str(b0.as_str(), "GodotPCKExplorer.Console.exe");
    let mut i: usize = 0;
    while i < existing_files.len()
        invariant
            i <= existing_files@.len(),
            a@ == vendor_markers(path@).0,
            b@ == vendor_markers(path@).1,
            forall|j: int| 0 <= j < i ==> !(crate::logs::same_components(#[trigger] existing_files@[j]@, a@)
                || crate::logs::same_components(existing_files@[j]@, b@)),
        decreases existing_files.len() - i,
    {
        if crate::logs::same_components_exec(existing_files[i].as_str(), a.as_str())
            || crate::logs::same_components_exec(existing_files[i].as_str(), b.as_str()) {
            return true;
        }
        i += 1;
    }
    false
}

/// The folder beside the executable, where a portable marker file lies there.
pub fn portable_workspace_dir(exe_path: &str, marker_is_file: bool) -> (r: Option<String>)
    ensures
        match r {
            Some(d) => marker_is_file && crate::paths::parent_spec(exe_path@) == Some(d@),
            None => !marker_is_file || crate::paths::parent_spec(exe_path@) is None,
        },
{
    match crate::paths::parent_chars(chars_of(exe_path).as_slice()) {
        Some(p) => if marker_is_file {
            Some(string_from(p.as_slice()))
        } else {
            None
        },
        None => None,
    }
}

pub open spec fn workspace_name() -> Seq<char> {
    "STS2-Mod-Translation-Manager"@
}

/// An environment value that names a path: set and not empty.
pub open spec fn env_value(v: Option<Seq<char>>) -> Option<Seq<char>> {
    match v {
        Some(s) => if s.len() > 0 {
            Some(s)
        } else {
            None
        },
        None => None,
    }
}

pub open spec fn opt_text_view(v: Option<&str>) -> Option<Seq<char>> {
    match v {
        Some(s) => Some(s@),
        None => None,
    }
}

/// The user's workspace: in `LOCALAPPDATA`, else `APPDATA`, else `XDG_DATA_HOME`, else
/// `HOME/.local/share`, else the current folder (or `.`).
pub open spec fn default_workspace_spec(
    local_app_data: Option<Seq<char>>,
    app_data: Option<Seq<char>>,
    xdg_data_home: Option<Seq<char>>,
    home: Option<Seq<char>>,
    current_dir: Option<Seq<char>>,
) -> Seq<char> {
    if let Some(p) = env_value(local_app_data) {
        join_name_spec(p, workspace_name())
    } else if let Some(p) = env_value(app_data) {
        join_name_spec(p, workspace_name())
    } else if let Some(p) = env_value(xdg_data_home) {
        join_name_spec(p, workspace_name())
    } else if let Some(p) = env_value(home) {
        join_name_spec(join_name_spec(join_name_spec(p, ".local"@), "share"@), workspace_name())
    } else {
        join_name_spec(
            match current_dir {
                Some(c) => c,
                None => "."@,
            },
            workspace_name(),
        )
    }
}

fn env_value_exec(v: Option<&str>) -> (r: Option<&str>)
    ensures
        opt_text_view(r) == env_value(opt_text_view(v)),
{
    match v {
        Some(s) => if s.unicode_len() > 0 {
            Some(s)
        } else {
            None
        },
        None => None,
    }
}

/// The workspace folder from the environment's values, as read by the caller.
pub fn default_user_workspace_dir(
    local_app_data: Option<&str>,
    app_data: Option<&str>,
    xdg_data_home: Option<&str>,
    home: Option<&str>,
    current_dir: Option<&str>,
) -> (r: String)
    ensures
        r@ == default_workspace_spec(
            opt_text_view(local_app_data),
            opt_text_view(app_data),
            opt_text_view(xdg_data_home),
            opt_text_view(home),
            opt_text_view(current_dir),
        ),
{
    let name = "STS2-Mod-Translation-Manager";
    if let Some(p) = env_value_exec(local_app_data) {
        return join_name_str(p, name);
    }
    if let Some(p) = env_value_exec(app_data) {
        return join_name_str(p, name);
    }
    if let Some(p) = env_value_exec(xdg_data_home) {
        return join_name_str(p, name);
    }
    if let Some(p) = env_value_exec(home) {
        let a = join_name_str(p, ".local");
        let b = join_name_str(a.as_str(), "share");
        return join_name_str(b.as_str(), name);
    }
    match current_dir {
        Some(c) => join_name_str(c, name),
        None => join_name_str(".", name),
    }
}

/// The workspace in use: the `STS2_MOD_MANAGER_WORKSPACE` value where set, else the
/// portable folder beside the executable, else the development checkout (debug builds),
/// else the app-data workspace.
pub fn resolve_workspace_dir(
    explicit: Option<&str>,
    portable: Option<String>,
    development: Option<String>,
    app_data_workspace: String,
) -> (r: String)
    ensures
        r@ == match env_value(opt_text_view(explicit)) {
            Some(p) => p,
            None => match portable {
                Some(p) => p@,
                None => match development {
                    Some(d) => d@,
                    None => app_data_workspace@,
                },
            },
        },
{
    if let Some(p) = env_value_exec(explicit) {
        return p.to_string();
    }
    match portable {
        Some(p) => p,
        None => match development {
            Some(d) => d,
            None => app_data_workspace,
        },
    }
}

/// A dropped mod as the drop preview shows it.
pub struct DroppedModPreviewDto {
    pub path: String,
    pub display_path: String,
    pub key: String,
    pub name: String,
    pub kind: String,
    pub version_hint: Option<String>,
    pub bytes: u64,
    pub modified_epoch: Option<u64>,
}

/// A mod found in what was dropped, and how to show where it came from.
pub struct DroppedModCandidate {
    pub record: ModRecord,
    pub display_path: String,
}

pub fn dropped_mod_preview_dto(candidate: DroppedModCandidate) -> (r: DroppedModPreviewDto)
    ensures
        r.path@ == candidate.record.path@,
        r.display_path@ == candidate.display_path@,
        r.key@ == candidate.record.key@,
        r.name@ == candidate.record.name@,
        r.kind@ == kind_label_spec(candidate.record.kind),
        opt_view(r.version_hint) == opt_view(candidate.record.version_hint),
        r.bytes == candidate.record.bytes,
        r.modified_epoch == candidate.record.modified_epoch,
{
    let record = candidate.record;
    DroppedModPreviewDto {
        path: display_path(record.path.as_str()),
        display_path: candidate.display_path,
        key: record.key,
        name: record.name,
        kind: kind_label(record.kind).to_string(),
        version_hint: record.version_hint,
        bytes: record.bytes,
        modified_epoch: record.modified_epoch,
    }
}

} // verus!
