use sts2_manager::deleted::{
    escape_cache_field, parse_deleted_mod_index, prune_deleted_desired_mod_keys, prune_expired_deleted_mods,
    read_deleted_mod_entries, read_deleted_mod_tombstones, remember_deleted_mod_tombstone,
    remove_deleted_mod_entry, remove_deleted_mod_tombstone, unescape_cache_field, upsert_deleted_mod_entry,
    write_deleted_mod_entries, write_deleted_mod_tombstones, DeletedModEntry,
};
use sts2_manager::settings::{read_ui_settings, ui_settings_text, AppConfig, UiSettingsDto};
use sts2_manager::setup::path_overlap_kind;
use sts2_manager::text::{format_u64, parse_u64};

fn config() -> AppConfig {
    AppConfig {
        workspace_dir: "C:\\ws".to_string(),
        game_dir: "C:\\game".to_string(),
        game_mods_dir: "C:\\game\\mods".to_string(),
        presets_dir: "C:\\ws\\presets".to_string(),
        translation_work_dir: "C:\\ws\\work".to_string(),
        state_dir: "C:\\ws\\state".to_string(),
        vendor_dir: "C:\\ws\\vendor".to_string(),
        save_backup_dir: "C:\\ws\\saves".to_string(),
        save_dir: None,
        game_exe_path: None,
        external_manager_dirs: vec![],
        save_backup_retention_days: 7,
        save_backup_max_entries: 14,
    }
}

fn entry(id: &str, key: &str, epoch: u64) -> DeletedModEntry {
    DeletedModEntry {
        id: id.to_string(),
        key: key.to_string(),
        name: format!("{key} name"),
        original_path: format!("C:\\game\\mods\\{key}"),
        backup_path: format!("C:\\ws\\deleted\\{id}"),
        deleted_epoch: epoch,
        bytes: 1024,
    }
}

fn ids(entries: &[DeletedModEntry]) -> Vec<String> {
    entries.iter().map(|e| e.id.clone()).collect()
}

#[test]
fn settings_written_are_read_back() {
    let settings = UiSettingsDto {
        translation_work_dir: "D:\\work".to_string(),
        target_language: "kor".to_string(),
        game_exe_path: "D:\\game\\SlayTheSpire2.exe".to_string(),
        game_log_path: "D:\\logs\\godot.log".to_string(),
        save_dir: "D:\\saves".to_string(),
        save_backup_dir: "D:\\backups".to_string(),
        save_backup_retention_days: 30,
        save_backup_max_entries: 20,
        deleted_retention_days: 10,
        mod_view_mode: "simple".to_string(),
    };
    let text = ui_settings_text(&settings);
    assert!(text.starts_with("translation_work_dir\tD:\\work\n"));
    let back = read_ui_settings(&config(), None, None, Some(text.as_str()));
    assert_eq!(back.translation_work_dir, settings.translation_work_dir);
    assert_eq!(back.target_language, settings.target_language);
    assert_eq!(back.game_exe_path, settings.game_exe_path);
    assert_eq!(back.game_log_path, settings.game_log_path);
    assert_eq!(back.save_dir, settings.save_dir);
    assert_eq!(back.save_backup_dir, settings.save_backup_dir);
    assert_eq!(back.save_backup_retention_days, 30);
    assert_eq!(back.save_backup_max_entries, 20);
    assert_eq!(back.deleted_retention_days, 10);
    assert_eq!(back.mod_view_mode, "simple");
}

#[test]
fn settings_without_file_follow_the_config() {
    let s = read_ui_settings(&config(), Some("C:\\logs\\godot.log".to_string()), None, None);
    assert_eq!(s.translation_work_dir, "C:\\ws\\work");
    assert_eq!(s.save_backup_dir, "C:\\ws\\saves");
    assert_eq!(s.save_backup_retention_days, 7);
    assert_eq!(s.save_backup_max_entries, 14);
}

#[test]
fn settings_file_values_are_clamped() {
    let s = read_ui_settings(
        &config(),
        None,
        None,
        Some("deleted_retention_days\t9999\nsave_backup_max_entries\t0\nmod_view_mode\tSIMPLE\n"),
    );
    assert_eq!(s.deleted_retention_days, 365);
    assert_eq!(s.save_backup_max_entries, 1);
    assert_eq!(s.mod_view_mode, "simple");
}

#[test]
fn escaped_fields_read_back() {
    let raw = "a\\b\tc\nd";
    let esc = escape_cache_field(raw);
    assert_eq!(esc, "a\\\\b\\tc\\nd");
    assert_eq!(unescape_cache_field(&esc), raw);
    assert_eq!(unescape_cache_field("x\\q"), "x\\q");
}

#[test]
fn deleted_index_written_is_read_back() {
    let mut odd = entry("1-a", "a", 100);
    odd.name = "tab\there\nand line".to_string();
    let entries = vec![odd, entry("2-b", "b", 200)];
    let text = write_deleted_mod_entries(&entries);
    assert!(text.starts_with("id\tkey\tname\toriginal_path\tdeleted_epoch\tbackup_path\tbytes\n"));
    let back = parse_deleted_mod_index(&text);
    assert_eq!(back.len(), 2);
    assert_eq!(back[0].name, "tab\there\nand line");
    assert_eq!(back[0].deleted_epoch, 100);
    assert_eq!(back[1].id, "2-b");
    assert_eq!(back[1].bytes, 1024);
}

#[test]
fn deleted_index_skips_bad_lines() {
    let back = parse_deleted_mod_index("id\tkey\tname\toriginal_path\tdeleted_epoch\tbackup_path\tbytes\nbroken line\nx\tk\tn\to\tnotnum\tb\t1\nx\tk\tn\to\t5\tb\t1\n");
    assert_eq!(ids(&back), vec!["x".to_string()]);
    assert_eq!(back[0].deleted_epoch, 5);
}

#[test]
fn deleted_entries_come_newest_first() {
    let entries = vec![entry("a", "a", 10), entry("b", "b", 30), entry("c", "c", 20), entry("d", "d", 40)];
    let kept = read_deleted_mod_entries(entries, &vec![true, true, true, false]);
    assert_eq!(ids(&kept), vec!["b".to_string(), "c".to_string(), "a".to_string()]);
}

#[test]
fn upsert_replaces_same_id_or_key() {
    let entries = vec![entry("1", "a", 10), entry("2", "b", 20), entry("3", "c", 30)];
    let (next, gone) = upsert_deleted_mod_entry(&entries, entry("4", "b", 40));
    assert_eq!(ids(&next), vec!["1".to_string(), "3".to_string(), "4".to_string()]);
    assert_eq!(gone, vec!["C:\\ws\\deleted\\2".to_string()]);
    let removed = remove_deleted_mod_entry(&next, "3");
    assert_eq!(ids(&removed), vec!["1".to_string(), "4".to_string()]);
}

#[test]
fn expired_entries_are_split_off() {
    let day = 86_400u64;
    let entries = vec![entry("old", "o", 0), entry("new", "n", 9 * day)];
    let (kept, gone) = prune_expired_deleted_mods(&entries, 7, 10 * day);
    assert_eq!(ids(&kept), vec!["new".to_string()]);
    assert_eq!(ids(&gone), vec!["old".to_string()]);
    let (kept, gone) = prune_expired_deleted_mods(&entries, 0, 10 * day);
    assert_eq!(kept.len(), 2);
    assert!(gone.is_empty());
}

#[test]
fn tombstones_remember_and_forget() {
    let mut keys = read_deleted_mod_tombstones(Some(" a \n\nb\na\n"));
    keys.sort();
    assert_eq!(keys, vec!["a".to_string(), "b".to_string()]);
    remember_deleted_mod_tombstone(&mut keys, "c");
    remember_deleted_mod_tombstone(&mut keys, "a");
    assert_eq!(keys.len(), 3);
    remove_deleted_mod_tombstone(&mut keys, "c");
    assert!(!keys.contains(&"c".to_string()));
    let text = write_deleted_mod_tombstones(&keys);
    let mut back = read_deleted_mod_tombstones(Some(text.as_str()));
    back.sort();
    assert_eq!(back, vec!["a".to_string(), "b".to_string()]);
    assert!(read_deleted_mod_tombstones(None).is_empty());
}

#[test]
fn deleted_keys_are_pruned_from_desired() {
    let deleted = vec!["b".to_string()];
    let desired = vec!["a".to_string(), "b".to_string(), "c".to_string(), "b".to_string()];
    let (kept, removed) = prune_deleted_desired_mod_keys(&deleted, &desired);
    assert_eq!(kept, vec!["a".to_string(), "c".to_string()]);
    assert_eq!(removed, 2);
}

#[test]
fn numbers_format_and_parse() {
    for n in [0u64, 7, 42, 1_000_000, u64::MAX] {
        let text = format_u64(n);
        assert_eq!(text.iter().collect::<String>(), n.to_string());
        assert_eq!(parse_u64(&text), Some(n));
    }
    let over: Vec<char> = "18446744073709551616".chars().collect();
    assert_eq!(parse_u64(&over), None);
    let bad: Vec<char> = "12a".chars().collect();
    assert_eq!(parse_u64(&bad), None);
}

#[test]
fn overlap_is_symmetric() {
    assert_eq!(path_overlap_kind("C:\\a", "C:\\a\\b"), Some("포함 관계입니다"));
    assert_eq!(path_overlap_kind("C:\\a\\b", "C:\\a"), Some("포함 관계입니다"));
    assert_eq!(path_overlap_kind("C:\\A", "c:/a"), Some("같습니다"));
    assert_eq!(path_overlap_kind("C:\\a", "C:\\ab"), None);
}

#[test]
fn ui_settings_prefills_detected_game_exe() {
    let exe = "C:\\game\\SlayTheSpire2.exe".to_string();
    let s = read_ui_settings(&config(), None, Some(exe.clone()), None);
    assert_eq!(s.game_exe_path, exe);
}

#[test]
fn ui_settings_empty_game_exe_keeps_detected_default() {
    let exe = "C:\\game\\SlayTheSpire2.exe".to_string();
    let s = read_ui_settings(&config(), None, Some(exe.clone()), Some("target_language\tkor\ngame_exe_path\t\n"));
    assert_eq!(s.game_exe_path, exe);
    let mut configured = config();
    configured.game_exe_path = Some("D:\\g\\game.exe".to_string());
    let s = read_ui_settings(&configured, None, Some(exe), None);
    assert_eq!(s.game_exe_path, "D:\\g\\game.exe");
}
