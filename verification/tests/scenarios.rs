use sts2_manager::dashboard::{bundled_vendor_candidates, looks_like_vendor_dir, portable_workspace_dir};
use sts2_manager::language::language_label;
use sts2_manager::logs::classify_game_log_line;
use sts2_manager::model::{connected_mod_keys, ModKind, ModManifestInfo, ModRecord, ModSource, ScanSummary};
use sts2_manager::package::sanitize_package_id;
use sts2_manager::patches::{translation_patch_matches_language, translation_patch_targets_base};
use sts2_manager::setup::mod_safety_warnings;

fn record(key: &str, name: &str, path: &str, source: ModSource, kind: ModKind) -> ModRecord {
    ModRecord {
        key: key.to_string(),
        name: name.to_string(),
        path: path.to_string(),
        source,
        kind,
        version_hint: None,
        bytes: 1,
        modified_epoch: None,
    }
}

fn empty_manifest() -> ModManifestInfo {
    ModManifestInfo {
        id: None,
        name: None,
        version: None,
        author: None,
        description: None,
        dependencies: Vec::new(),
        target_mod_id: None,
        target_mod_name: None,
        target_mod_version: None,
        target_languages: Vec::new(),
        is_translation_patch: false,
    }
}

#[test]
fn patch_mod_package_id_keeps_mod_id_shape() {
    assert_eq!(sanitize_package_id("Aki Sister"), "Aki_Sister");
    assert_eq!(sanitize_package_id("___"), "translation_patch");
}

#[test]
fn kor_language_label_is_korean() {
    assert_eq!(language_label("kor"), "한국어");
}

#[test]
fn log_classifier_categorizes_pck_and_lock_failures() {
    let pck = classify_game_log_line("[Error] failed to load mod payload.pck").expect("pck");
    let locked = classify_game_log_line("Access is denied while moving mod file").expect("lock");

    assert_eq!(pck.0, "pck");
    assert_eq!(locked.0, "locked");
}

#[test]
fn log_classifier_marks_model_not_found_as_current_run_conflict() {
    let current_run = classify_game_log_line(
        "ERROR: MegaCrit.Sts2.Core.Models.Exceptions.ModelNotFoundException: Model id=CHARACTER.MIYU_CHARACTER not found",
    )
    .expect("current-run conflict");

    assert_eq!(current_run.0, "current-run");
    assert!(current_run.1.contains("진행 중 런"));
}

#[test]
fn mod_safety_warnings_ignore_manifest_keywords() {
    let manifest = ModManifestInfo {
        id: None,
        name: Some("Co-op Sync".to_string()),
        version: None,
        author: None,
        description: Some("Adds online multiplayer save sync".to_string()),
        dependencies: Vec::new(),
        target_mod_id: None,
        target_mod_name: None,
        target_mod_version: None,
        target_languages: Vec::new(),
        is_translation_patch: false,
    };

    assert!(mod_safety_warnings(&manifest).is_empty());
}

#[test]
fn portable_workspace_uses_marker_next_to_exe() {
    let root = r"C:\Temp\sts2-portable";
    let exe = r"C:\Temp\sts2-portable\STS2 Mod Manager.exe";

    assert_eq!(portable_workspace_dir(exe, true), Some(root.to_string()));
}

#[test]
fn bundled_vendor_dir_accepts_resource_vendor_folder() {
    let files = vec![r"C:\Temp\sts2-resource\vendor\7zip\7z.exe".to_string()];

    assert!(looks_like_vendor_dir(r"C:\Temp\sts2-resource\vendor", &files));
}

#[test]
fn bundled_vendor_candidates_include_up_vendor_folder() {
    let root = r"C:\Temp\sts2-resource-up";
    let files = vec![r"C:\Temp\sts2-resource-up\_up_\vendor\7zip\7z.exe".to_string()];
    let up_vendor = r"C:\Temp\sts2-resource-up\_up_\vendor".to_string();
    let candidates = bundled_vendor_candidates(root);

    assert!(candidates.contains(&up_vendor));
    assert!(looks_like_vendor_dir(&up_vendor, &files));
}

#[test]
fn translation_patch_targets_base_manifest_id_when_folder_name_differs() {
    let base_record = record(
        "miyu-sts2-622-v1-0-2-7-12-9-1777882282",
        "Miyu STS2-622-v1-0-2-7-12-9-1777882282",
        r"Z:\game\Slay the Spire 2\mods.disabled\Miyu",
        ModSource::Disabled,
        ModKind::Directory,
    );
    let patch_record = record(
        "miyu_character_tr",
        "Miyu_character_tr",
        r"Z:\game\Slay the Spire 2\mods.disabled\Miyu_character_tr",
        ModSource::Disabled,
        ModKind::Directory,
    );
    let base_manifest = ModManifestInfo {
        id: Some("Miyu_character".to_string()),
        name: Some("霞沢美游[Kasumizawa Miyu]".to_string()),
        version: Some("1.0.2.7.12.9".to_string()),
        ..empty_manifest()
    };
    let patch_manifest = ModManifestInfo {
        is_translation_patch: true,
        target_mod_id: Some("Miyu_character".to_string()),
        target_languages: vec!["kor".to_string()],
        ..empty_manifest()
    };

    assert!(translation_patch_matches_language(&patch_manifest, "kor"));
    assert!(translation_patch_targets_base(
        &patch_record,
        &patch_manifest,
        &base_record,
        &base_manifest
    ));
}

#[test]
fn connected_mod_keys_skip_disabled_game_versions() {
    let active = record(
        "the-reaper-for-main-branch-412-0-43-1777465658",
        "The Reaper For Main Branch-412-0-43-1777465658",
        r"Z:\game\Slay the Spire 2\mods\The Reaper.zip",
        ModSource::GameMods,
        ModKind::Archive,
    );
    let disabled = record(
        "the-reaper-for-main-branch-412-0-40-1777040399",
        "The Reaper For Main Branch-412-0-40-1777040399",
        r"Z:\game\Slay the Spire 2\mods.disabled\The Reaper Old.zip",
        ModSource::Disabled,
        ModKind::Archive,
    );
    let keys = connected_mod_keys(&ScanSummary {
        game_mods: vec![active],
        disabled_mods: vec![disabled],
        vault_mods: Vec::new(),
        external_manager_mods: Vec::new(),
    });

    assert!(keys.contains(&"the-reaper-for-main-branch-412-0-43-1777465658".to_string()));
    assert!(!keys.contains(&"the-reaper-for-main-branch-412-0-40-1777040399".to_string()));
}
