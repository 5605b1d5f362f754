use sts2_manager::deleted::DeletedModEntry;
use sts2_manager::names::{quarantine_target, staged_replacement_path, unique_backup_path, unique_repair_sibling_path, unique_restore_target};

fn strings(v: &[&str]) -> Vec<String> {
    v.iter().map(|s| s.to_string()).collect()
}

#[test]
fn backup_names_count_up_from_one() {
    assert_eq!(unique_backup_path("C:\\b", "mod.zip", &vec![]), "C:\\b\\mod.zip");
    assert_eq!(unique_backup_path("C:\\b", "mod.zip", &strings(&["mod.zip", "mod-1.zip"])), "C:\\b\\mod-2.zip");
    assert_eq!(unique_backup_path("C:\\b", "folder", &strings(&["folder"])), "C:\\b\\folder-1");
    assert_eq!(unique_backup_path("C:\\b", ".hidden", &strings(&[".hidden"])), "C:\\b\\.hidden-1");
    assert_eq!(unique_backup_path("C:\\b", "a.b.c", &strings(&["a.b.c", "a.b-1.c"])), "C:\\b\\a.b-2.c");
}

#[test]
fn repair_names_start_without_a_number() {
    assert_eq!(unique_repair_sibling_path("C:\\m", "Mod", &vec![]), "C:\\m\\Mod.repairing");
    assert_eq!(unique_repair_sibling_path("C:\\m", "Mod", &strings(&["Mod.repairing"])), "C:\\m\\Mod.repairing-1");
    assert_eq!(
        unique_repair_sibling_path("C:\\m", "Mod", &strings(&["Mod.repairing", "Mod.repairing-1", "other"])),
        "C:\\m\\Mod.repairing-2"
    );
}

#[test]
fn restore_target_moves_aside_when_taken() {
    assert_eq!(unique_restore_target("C:\\game\\mods\\A", false, &vec![]), Ok("C:\\game\\mods\\A".to_string()));
    assert_eq!(unique_restore_target("C:\\game\\mods\\A", true, &strings(&["A"])), Ok("C:\\game\\mods\\A-1".to_string()));
    assert_eq!(unique_restore_target("", true, &vec![]), Err("복원 위치를 계산하지 못했습니다: ".to_string()));
}

#[test]
fn staging_names_use_the_first_free_number() {
    assert_eq!(staged_replacement_path("C:\\m", "123", "x.zip", &vec![]), "C:\\m\\.drop-import-123-1-x.zip");
    assert_eq!(
        staged_replacement_path("C:\\m", "123", "x.zip", &strings(&[".drop-import-123-1-x.zip"])),
        "C:\\m\\.drop-import-123-2-x.zip"
    );
    let all: Vec<String> = (1..1000).map(|i| format!(".drop-import-9-{i}-y")).collect();
    assert_eq!(staged_replacement_path("C:\\m", "9", "y", &all), "C:\\m\\.drop-import-9-y");
}

#[test]
fn reappeared_mods_are_moved_beside_their_backup() {
    let entry = DeletedModEntry {
        id: "1-Foo".to_string(),
        key: "game:Foo".to_string(),
        name: "Foo".to_string(),
        original_path: "C:\\game\\mods\\Foo".to_string(),
        backup_path: "C:\\ws\\deleted\\1-Foo\\Foo".to_string(),
        deleted_epoch: 1,
        bytes: 2,
    };
    assert_eq!(
        quarantine_target(&entry, "C:\\game\\mods", true, &strings(&["Foo"])),
        Ok(Some("C:\\ws\\deleted\\1-Foo\\Foo-1".to_string()))
    );
    assert_eq!(quarantine_target(&entry, "C:\\game\\mods", false, &vec![]), Ok(None));
    assert_eq!(quarantine_target(&entry, "D:\\other", true, &vec![]), Ok(None));
}
