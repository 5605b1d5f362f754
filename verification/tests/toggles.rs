use sts2_manager::rows::{ModDependencyDto, ModRowDto};
use sts2_manager::toggles::{apply_mod_toggles, toggle_targets, ModToggleDto, ToggleTarget};

fn change(key: &str, active: bool, force: Option<bool>) -> ModToggleDto {
    ModToggleDto { key: key.to_string(), active, force }
}

fn target(key: &str, on: bool, force: bool) -> ToggleTarget {
    ToggleTarget { key: key.to_string(), target_active: on, force }
}

fn dep(id: &str, key: Option<&str>, active: bool, available: bool) -> ModDependencyDto {
    ModDependencyDto {
        id: id.to_string(),
        key: key.map(|k| k.to_string()),
        name: format!("{id} mod"),
        active,
        available,
        version_required: None,
        version_current: None,
        version_matches: None,
    }
}

fn row(key: &str, dependencies: Vec<ModDependencyDto>) -> ModRowDto {
    ModRowDto {
        key: key.to_string(),
        name: key.to_string(),
        manifest_id: None,
        group_name: None,
        active: false,
        managed: true,
        external: false,
        source_label: String::new(),
        kind: String::new(),
        version_hint: None,
        bytes: 0,
        modified_epoch: None,
        registered_epoch: None,
        updated_epoch: None,
        path: String::new(),
        download_state: None,
        update_state: String::new(),
        change_reasons: vec![],
        translation_state: String::new(),
        translation_applied: false,
        translation_applied_epoch: None,
        translation_patch_count: 0,
        translation_patch_active_count: 0,
        translation_patch_names: vec![],
        needs_recheck: false,
        translation_review_required: false,
        safety_warnings: vec![],
        extraction_hint: String::new(),
        extraction_source_path: String::new(),
        extraction_target: String::new(),
        is_translation_patch: false,
        translation_target_id: None,
        translation_target_key: None,
        translation_target_name: None,
        translation_target_version: None,
        dependencies,
        language_preview: vec![],
        extraction_tree: vec![],
    }
}

#[test]
fn last_change_per_key_wins_and_keys_are_sorted() {
    let changes = vec![
        change("b", true, None),
        change("a", false, Some(true)),
        change("b", false, Some(false)),
    ];
    let ts = toggle_targets(&changes);
    assert_eq!(ts.len(), 2);
    assert_eq!(ts[0].key, "a");
    assert!(ts[0].target_active);
    assert!(ts[0].force);
    assert_eq!(ts[1].key, "b");
    assert!(ts[1].target_active);
    assert!(!ts[1].force);
}

#[test]
fn turning_off_is_never_checked() {
    let r = apply_mod_toggles(&vec![target("x", false, false)], &vec!["x".to_string()], &vec![]);
    assert_eq!(r, Ok(1));
}

#[test]
fn deleted_mod_cannot_be_enabled() {
    let r = apply_mod_toggles(&vec![target("x", true, false)], &vec!["x".to_string()], &vec![row("x", vec![])]);
    assert_eq!(r, Err("x 모드는 삭제된 항목입니다. 설정에서 복원한 뒤 활성화해 주세요.".to_string()));
}

#[test]
fn unknown_mod_cannot_be_enabled() {
    let r = apply_mod_toggles(&vec![target("x", true, false)], &vec![], &vec![row("y", vec![])]);
    assert_eq!(r, Err("x 모드를 찾을 수 없습니다.".to_string()));
}

#[test]
fn dependencies_must_be_present_and_on() {
    let rows = vec![
        row("x", vec![dep("core", Some("core"), false, true)]),
        row("y", vec![dep("lib", None, false, false)]),
        row("core", vec![]),
    ];
    let off = apply_mod_toggles(&vec![target("x", true, false)], &vec![], &rows);
    assert_eq!(off, Err("선행 모드가 비활성화되어 있습니다: core mod".to_string()));
    let forced = apply_mod_toggles(&vec![target("x", true, true)], &vec![], &rows);
    assert_eq!(forced, Ok(1));
    let together = apply_mod_toggles(&vec![target("core", true, false), target("x", true, false)], &vec![], &rows);
    assert_eq!(together, Ok(2));
    let missing = apply_mod_toggles(&vec![target("y", true, true)], &vec![], &rows);
    assert_eq!(missing, Err("선행 모드가 없습니다: lib".to_string()));
}
