use sts2_manager::apply::TranslationContext;
use sts2_manager::model::{ModKind, ModManifestInfo, ModRecord, ModSource, ManifestDependency};
use sts2_manager::node::{
    extract_display_path, extract_relative_path, first_path_index, node_copy_relative_path, node_translation_dto,
    node_work_layout, pck_stem_of_contents_root, stable_resource_id, NodePrepared,
};
use sts2_manager::package::{
    manifest_has_identity, original_package_id, patch_export_dir, patch_mod_manifest, patch_package_id,
    patch_manifest_text, export_paths, export_refusal,
    sanitize_package_id,
};
use sts2_manager::patches::{
    connected_patch_conflict, is_translation_patch_manifest, target_language_relative_path, translation_match_tokens,
    translation_patch_label, translation_patch_matches_language, translation_patch_targets_base,
};
use sts2_manager::patching::{
    normalize_pck_target_path, patched_install_plan, pck_target_for_language_output, pck_version_from_listing,
    should_require_pck_pack, translated_pck_output_path, PatchedInstall, PatchedInstallFacts,
};
use sts2_manager::replace::{
    replace_existing_mod_plan, replacement_target_path, staged_replacement_candidate, ReplaceFacts, ReplacePlan,
};
use sts2_manager::settings::AppConfig;

fn manifest() -> ModManifestInfo {
    ModManifestInfo {
        id: None,
        name: None,
        version: None,
        author: None,
        description: None,
        dependencies: Vec::new(),
        target_mod_id: None,
        target_mod_name: None,
        target_mod_version: None,
        target_languages: Vec::new(),
        is_translation_patch: false,
    }
}

fn context() -> TranslationContext {
    TranslationContext {
        mod_key: None,
        extraction_source_path: None,
        input_pck_path: None,
        pck_contents_root: None,
        pck_stem: None,
        translation_patch_source_path: None,
        translation_patch_pck_stem: None,
    }
}

fn config() -> AppConfig {
    AppConfig {
        workspace_dir: r"C:\mm".to_string(),
        game_dir: r"C:\game".to_string(),
        game_mods_dir: r"C:\game\mods".to_string(),
        presets_dir: r"C:\mm\presets".to_string(),
        translation_work_dir: r"C:\mm\work".to_string(),
        state_dir: r"C:\mm\state".to_string(),
        vendor_dir: r"C:\mm\vendor".to_string(),
        save_backup_dir: r"C:\mm\saves".to_string(),
        save_dir: None,
        game_exe_path: None,
        external_manager_dirs: Vec::new(),
        save_backup_retention_days: 30,
        save_backup_max_entries: 20,
    }
}

fn record(key: &str, name: &str) -> ModRecord {
    ModRecord {
        key: key.to_string(),
        name: name.to_string(),
        path: format!(r"C:\game\mods\{name}"),
        source: ModSource::GameMods,
        kind: ModKind::Directory,
        version_hint: None,
        bytes: 1,
        modified_epoch: None,
    }
}

#[test]
fn package_id_collapses_runs_and_trims() {
    assert_eq!(sanitize_package_id("  Miyu -- Character!! "), "Miyu_--_Character");
    assert_eq!(sanitize_package_id("한글"), "translation_patch");
    assert_eq!(sanitize_package_id("a.b.c"), "a_b_c");
    assert_eq!(patch_package_id("Aki Sister"), "Aki_Sister_tr");
}

#[test]
fn original_package_id_prefers_manifest_then_context_then_file() {
    let mut m = manifest();
    let mut c = context();
    assert_eq!(original_package_id(&m, &c, r"C:\x\Input.pck"), "Input");
    c.mod_key = Some("key".to_string());
    assert_eq!(original_package_id(&m, &c, ""), "key");
    c.pck_stem = Some("Stem".to_string());
    assert_eq!(original_package_id(&m, &c, r"C:\x\Input.pck"), "Stem");
    m.id = Some("ManifestId".to_string());
    assert_eq!(original_package_id(&m, &c, r"C:\x\Input.pck"), "ManifestId");
    let none = context();
    assert_eq!(original_package_id(&manifest(), &none, ""), "translation_patch");
}

#[test]
fn manifest_identity_needs_a_name_or_dependency() {
    let mut m = manifest();
    assert!(!manifest_has_identity(&m));
    m.dependencies.push(ManifestDependency { id: "BaseLib".to_string(), version: None });
    assert!(manifest_has_identity(&m));
}

#[test]
fn export_dir_reuses_folder_named_like_package() {
    assert_eq!(patch_export_dir(r"C:\out\aki_sister_TR", "Aki_Sister_tr"), r"C:\out\aki_sister_TR");
    assert_eq!(patch_export_dir(r"C:\out", "Aki_Sister_tr"), r"C:\out\Aki_Sister_tr");
}

#[test]
fn patch_manifest_uses_target_version_or_default() {
    let mut m = manifest();
    let plain = patch_mod_manifest("Aki_tr", "Aki", &m, vec!["kor".to_string()]);
    assert_eq!(plain.version, "1.0.0");
    assert_eq!(plain.dependency_version, "-");
    assert_eq!(plain.name, "Aki Korean Translation");
    assert_eq!(plain.description, "Korean localization patch for Aki. Target mod version: -.");
    m.version = Some("2.1".to_string());
    m.name = Some("Aki Sister".to_string());
    let versioned = patch_mod_manifest("Aki_tr", "Aki", &m, Vec::new());
    assert_eq!(versioned.version, "2.1");
    assert_eq!(versioned.target_mod_name, "Aki Sister");
    assert_eq!(versioned.author, "STS2 Mod Manager");
}

#[test]
fn resource_id_keeps_eight_words_and_hash() {
    let id = stable_resource_id("res://AkiSister/localization/eng/cards.json");
    assert!(id.starts_with("akisister-localization-eng-cards-json-"));
    assert_eq!(id.len(), "akisister-localization-eng-cards-json-".len() + 16);
    let long = stable_resource_id("a b c d e f g h i j");
    assert!(long.starts_with("a-b-c-d-e-f-g-h-"));
    assert!(stable_resource_id("res://").starts_with("resource-"));
    assert_ne!(stable_resource_id("x/a"), stable_resource_id("x/b"));
}

#[test]
fn node_layout_uses_output_folder_when_given() {
    let l = node_work_layout(r"C:\work", "aki", "sel-1", None, "kor");
    assert_eq!(l.source_root, r"C:\work\selected\aki\sel-1\source");
    assert_eq!(l.translated_root, r"C:\work\selected\aki\sel-1\translated");
    assert_eq!(l.sheet_path, r"C:\work\translation_memory\aki\sel-1.kor.translation.json");
    let o = node_work_layout(r"C:\work", "aki", "sel-1", Some(r"  D:\out  "), "kor");
    assert_eq!(o.source_root, r"D:\out\aki\sel-1\source");
    let blank = node_work_layout(r"C:\work", "aki", "sel-1", Some("   "), "kor");
    assert_eq!(blank.source_root, r"C:\work\selected\aki\sel-1\source");
}

#[test]
fn copied_files_keep_their_place_inside_pck_or_scan() {
    assert_eq!(
        node_copy_relative_path(r"C:\scan", r"C:\scan\Aki.pck.contents\Aki\localization\eng\a.json"),
        r"Aki\localization\eng\a.json"
    );
    assert_eq!(node_copy_relative_path(r"C:\scan", r"C:\scan\loc\eng\a.json"), r"loc\eng\a.json");
    assert_eq!(node_copy_relative_path(r"C:\scan", r"D:\other\a.json"), "a.json");
    assert_eq!(extract_relative_path(r"C:\scan", r"D:\other\b.txt"), "b.txt");
    assert_eq!(
        extract_display_path(r"C:\scan", r"C:\scan\Aki.pck.contents\Aki\x.json"),
        "res://Aki/x.json"
    );
    assert_eq!(extract_display_path(r"C:\scan", r"C:\scan\a\b.json"), "a/b.json");
    assert_eq!(extract_display_path(r"C:\scan", r"C:\scan"), r"C:\scan");
}

#[test]
fn pck_stem_comes_from_contents_folder() {
    assert_eq!(pck_stem_of_contents_root(Some(r"C:\scan\Aki.pck.contents")), "Aki");
    assert_eq!(pck_stem_of_contents_root(Some(r"C:\scan\Aki")), "");
    assert_eq!(pck_stem_of_contents_root(None), "");
}

#[test]
fn first_path_in_path_order() {
    let v = vec![r"C:\s\b\x.json".to_string(), r"C:\s\a\y.json".to_string(), r"C:\s\a\x.json".to_string()];
    assert_eq!(first_path_index(&v), 2);
    let w = vec![r"C:\s\a-b".to_string(), r"C:\s\a\b".to_string()];
    assert_eq!(first_path_index(&w), 1);
}

#[test]
fn node_report_names_tool_source_and_output() {
    let layout = node_work_layout(r"C:\work", "aki", "sel", None, "kor");
    let one = NodePrepared {
        selected_resource_path: "res://Aki/localization/eng".to_string(),
        copied: vec![r"C:\work\selected\aki\sel\source\Aki\localization\eng\a.json".to_string()],
        layout,
        existing_sheet_path: None,
        mod_key: "aki".to_string(),
        mod_path: r"C:\game\mods\Aki".to_string(),
        pck_stem: "Aki".to_string(),
        patch_target_pck_stem: None,
    };
    let mut m = manifest();
    m.version = Some("1.2".to_string());
    let d = node_translation_dto(one, &m, Vec::new()).expect("copied");
    assert_eq!(d.source_path, r"C:\work\selected\aki\sel\source\Aki\localization\eng\a.json");
    assert_eq!(d.translated_output_path, r"C:\work\selected\aki\sel\translated\Aki\localization\eng\a.json");
    assert_eq!(d.mod_name, "aki");
    assert_eq!(d.mod_version, "1.2");
    assert_eq!(d.copied_files, 1);
    assert!(d.can_export_patch_mod);
    assert_eq!(
        d.message,
        r"res://Aki/localization/eng 항목 추출 완료: 1개 작업 파일 (C:\work\selected\aki\sel\source)"
    );
    let empty = NodePrepared {
        selected_resource_path: "x".to_string(),
        copied: Vec::new(),
        layout: node_work_layout(r"C:\work", "aki", "sel", None, "kor"),
        existing_sheet_path: None,
        mod_key: "aki".to_string(),
        mod_path: String::new(),
        pck_stem: String::new(),
        patch_target_pck_stem: None,
    };
    assert_eq!(node_translation_dto(empty, &manifest(), Vec::new()).err(), Some("복사된 언어 파일이 없습니다.".to_string()));
}

#[test]
fn pck_version_reads_first_version_line() {
    let listing = "Godot PCK Explorer\nVersion string for this program: 1.4\n  Version: 2.4.3.0 (Godot 4)\n";
    assert_eq!(pck_version_from_listing(listing), Ok("2.4.3.0".to_string()));
    assert_eq!(pck_version_from_listing("Version: v1.2.3.4,"), Ok("1.2.3.4".to_string()));
    assert_eq!(
        pck_version_from_listing("nothing here"),
        Err("PCK 버전을 읽지 못했습니다.".to_string())
    );
}

#[test]
fn pck_target_is_normalized_and_checked() {
    assert_eq!(normalize_pck_target_path(r"res://Aki\localization\kor "), Ok("Aki/localization/kor".to_string()));
    assert_eq!(normalize_pck_target_path(" res://Aki"), Ok("res://Aki".to_string()));
    assert_eq!(normalize_pck_target_path("//a/b"), Ok("a/b".to_string()));
    assert!(normalize_pck_target_path("a/../b").is_err());
    assert!(normalize_pck_target_path("res://").is_err());
    assert_eq!(
        pck_target_for_language_output(r"C:\w\source", r"C:\w\translated\Aki\localization\kor", true, Some("res://Aki/localization/kor/x.json")),
        Ok(r"Aki\localization\kor".to_string())
    );
}

#[test]
fn built_pck_goes_where_asked() {
    assert_eq!(translated_pck_output_path(Some(r"D:\out\new.PCK"), r"C:\s\sheet.json", r"C:\in\Aki.pck"), Ok(r"D:\out\new.PCK".to_string()));
    assert_eq!(translated_pck_output_path(Some(r"D:\out"), r"C:\s\sheet.json", r"C:\in\Aki.pck"), Ok(r"D:\out\Aki.pck".to_string()));
    assert_eq!(translated_pck_output_path(None, r"C:\s\sheet.json", r"C:\in\Aki.pck"), Ok(r"C:\s\patched\Aki.pck".to_string()));
    assert_eq!(translated_pck_output_path(None, r"C:\s\sheet.json", ""), Err("PCK 파일명이 없습니다.".to_string()));
}

#[test]
fn pack_is_required_for_pck_sources() {
    assert!(should_require_pck_pack(r"C:\s\Aki.pck.contents\a.json", &None));
    assert!(!should_require_pck_pack(r"C:\s\loc\a.json", &None));
    let mut c = context();
    c.extraction_source_path = Some(r"C:\m\Aki.zip".to_string());
    assert!(should_require_pck_pack(r"C:\s\loc\a.json", &Some(c)));
}

#[test]
fn patched_pck_install_plan_follows_source_kind() {
    let cfg = config();
    let facts = |exists: bool, dir: bool, file: bool, input: bool, archive: bool| PatchedInstallFacts {
        source_exists: exists,
        source_is_dir: dir,
        source_is_file: file,
        input_exists: input,
        archive_dir_is_dir: archive,
    };
    match patched_install_plan(None, r"C:\b\x.pck", r"C:\b\archive", &cfg, facts(true, false, true, true, true)) {
        PatchedInstall::Skip => {}
        _ => panic!("no source"),
    }
    match patched_install_plan(Some(r"C:\game\mods\Aki.pck"), r"C:\b\x.pck", r"C:\b\archive", &cfg, facts(true, false, true, true, true)) {
        PatchedInstall::OverwriteSource { source } => assert_eq!(source, r"C:\game\mods\Aki.pck"),
        _ => panic!("pck source"),
    }
    match patched_install_plan(Some(r"C:\game\mods\Aki"), r"C:\game\mods\Aki\Aki.pck", r"C:\b\archive", &cfg, facts(true, true, false, true, true)) {
        PatchedInstall::OverwriteInput { source } => assert_eq!(source, r"C:\game\mods\Aki"),
        _ => panic!("folder source"),
    }
    match patched_install_plan(Some(r"C:\game\mods\Aki.zip"), r"C:\b\archive\Aki\Aki.pck", r"C:\b\archive", &cfg, facts(true, false, true, true, true)) {
        PatchedInstall::InstallArchive { target_dir, backup_source } => {
            assert_eq!(target_dir, r"C:\game\mods\Aki");
            assert!(backup_source);
        }
        _ => panic!("archive source"),
    }
    match patched_install_plan(Some(r"D:\dl\Aki.zip"), r"C:\b\archive\Aki.pck", r"C:\b\archive", &cfg, facts(true, false, true, true, false)) {
        PatchedInstall::Skip => {}
        _ => panic!("archive not unpacked"),
    }
}

#[test]
fn replacing_a_mod_checks_paths_in_order() {
    let cfg = config();
    let facts = |exists: bool, managed: bool, rep: bool| ReplaceFacts {
        target_exists: exists,
        target_is_managed: managed,
        replacement_exists: rep,
    };
    let vault = r"C:\mm\vault";
    assert_eq!(
        replace_existing_mod_plan(r"D:\dl\Aki2", r"C:\game\mods\Aki", &cfg, vault, facts(false, true, false)).err(),
        Some(r"덮어쓸 모드를 찾을 수 없습니다: C:\game\mods\Aki".to_string())
    );
    assert_eq!(
        replace_existing_mod_plan(r"C:\game\mods\aki", r"C:\game\mods\Aki", &cfg, vault, facts(true, true, false)).err(),
        Some("같은 경로로는 덮어쓸 수 없습니다.".to_string())
    );
    assert_eq!(
        replace_existing_mod_plan(r"C:\game\mods\Other", r"C:\game\mods\Aki", &cfg, vault, facts(true, true, false)).err(),
        Some("이미 관리 중인 모드는 드래그 등록 대상으로 사용할 수 없습니다.".to_string())
    );
    assert_eq!(
        replace_existing_mod_plan(r"D:\dl\Aki2", r"C:\game\mods\Aki", &cfg, vault, facts(true, false, false)).err(),
        Some(r"관리 중인 모드만 덮어쓸 수 있습니다: C:\game\mods\Aki".to_string())
    );
    match replace_existing_mod_plan(r"D:\dl\Aki2", r"C:\mm\vault\aki-1\Aki", &cfg, vault, facts(true, true, false)) {
        Ok(ReplacePlan::ImportToVault { vault_entry_dir }) => assert_eq!(vault_entry_dir, r"C:\mm\vault\aki-1"),
        _ => panic!("vault"),
    }
    match replace_existing_mod_plan(r"D:\dl\Aki", r"C:\game\mods\Aki", &cfg, vault, facts(true, true, true)) {
        Ok(ReplacePlan::Staged { parent, file_name, replacement }) => {
            assert_eq!(parent, r"C:\game\mods");
            assert_eq!(file_name, "Aki");
            assert_eq!(replacement, r"C:\game\mods\Aki");
        }
        _ => panic!("staged"),
    }
    match replace_existing_mod_plan(r"D:\dl\Aki2", r"C:\game\mods\Aki", &cfg, vault, facts(true, true, false)) {
        Ok(ReplacePlan::Direct { replacement }) => assert_eq!(replacement, r"C:\game\mods\Aki2"),
        _ => panic!("direct"),
    }
    assert_eq!(
        replace_existing_mod_plan(r"D:\dl\Aki2", r"C:\game\mods\Aki", &cfg, vault, facts(true, true, true)).err(),
        Some(r"새 버전 이름의 대상이 이미 존재합니다: C:\game\mods\Aki2".to_string())
    );
    assert_eq!(replacement_target_path(r"D:\dl\Aki2", r"C:\game\mods\Aki"), Ok(r"C:\game\mods\Aki2".to_string()));
    assert_eq!(
        staged_replacement_candidate(r"C:\game\mods", "20240101", Some(3), "Aki"),
        r"C:\game\mods\.drop-import-20240101-3-Aki"
    );
    assert_eq!(
        staged_replacement_candidate(r"C:\game\mods", "20240101", None, "Aki"),
        r"C:\game\mods\.drop-import-20240101-Aki"
    );
}

#[test]
fn patches_are_recognized_and_matched() {
    let mut m = manifest();
    assert!(!is_translation_patch_manifest(&m));
    assert!(translation_patch_matches_language(&m, "kor"));
    m.target_languages = vec!["en".to_string(), "korean".to_string()];
    assert!(is_translation_patch_manifest(&m));
    assert!(translation_patch_matches_language(&m, "kr"));
    assert!(!translation_patch_matches_language(&m, "ja"));
    let r = record("aki-sister-1", "Aki Sister");
    assert_eq!(translation_patch_label(&r, &m), "aki-sister-1");
    m.name = Some("  ".to_string());
    assert_eq!(translation_patch_label(&r, &m), "aki-sister-1");
    m.name = Some("Aki KR".to_string());
    assert_eq!(translation_patch_label(&r, &m), "Aki KR");
    let tokens = translation_match_tokens(&r, &manifest());
    assert_eq!(tokens, vec!["aki".to_string(), "akisister".to_string(), "akisister1".to_string()]);
    let patch = record("aki_tr", "Aki TR");
    let mut pm = manifest();
    pm.is_translation_patch = true;
    assert!(translation_patch_targets_base(&patch, &pm, &r, &manifest()));
    let other = record("zed_tr", "Zed TR");
    assert!(!translation_patch_targets_base(&other, &pm, &r, &manifest()));
}

#[test]
fn target_language_path_swaps_language_folder() {
    assert_eq!(
        target_language_relative_path(r"C:\scan", r"C:\scan\Aki.pck.contents\Aki\localization\eng\a.json", "kor"),
        Some(r"Aki\localization\kor\a.json".to_string())
    );
    assert_eq!(target_language_relative_path(r"C:\scan", r"C:\scan\a.json", "kor"), None);
}

#[test]
fn second_connected_patch_is_a_conflict() {
    assert_eq!(connected_patch_conflict(0, &None, "B"), None);
    assert_eq!(
        connected_patch_conflict(2, &Some("A".to_string()), "B"),
        Some("연결된 번역 모드가 여러 개라 자동 적용 대상을 정할 수 없습니다: A, B. 하나만 남기거나 번역 모드로 내보내기를 사용해 주세요.".to_string())
    );
    assert!(connected_patch_conflict(1, &None, "B").unwrap().contains("이전 번역 모드"));
}

#[test]
fn patch_manifest_file_is_written_as_pretty_json() {
    let mut m = manifest();
    m.version = Some("2.1".to_string());
    let patch = patch_mod_manifest("Aki_tr", "Aki", &m, vec!["kor".to_string()]);
    let text = patch_manifest_text(&patch);
    assert!(text.starts_with("{\n  \""));
    assert!(text.contains("\"id\": \"Aki_tr\""));
    assert!(text.contains("\"is_translation_patch\": true"));
    assert!(text.contains("\"has_dll\": false"));
    assert!(text.contains("\"dependency_versions\": {\n    \"Aki\": \"2.1\"\n  }"));
    assert!(text.contains("\"target_languages\": [\n    \"kor\"\n  ]"));
    assert!(text.contains("\"target_mod_version\": \"2.1\""));
}

#[test]
fn export_refuses_blank_paths_and_empty_payloads() {
    assert_eq!(export_paths("  ", "out").err().as_deref(), Some("내보낼 번역 시트 경로를 입력하세요."));
    assert_eq!(export_paths("s.json", " ").err().as_deref(), Some("번역 모드를 내보낼 폴더를 선택하세요."));
    assert_eq!(export_paths(" s.json ", " out ").ok(), Some(("s.json".to_string(), "out".to_string())));
    assert_eq!(
        export_refusal(0, Some("p"), true, 3, true).as_deref(),
        Some("내보낼 번역값이 없습니다. translated_value를 먼저 입력하거나 매칭해 주세요.")
    );
    assert_eq!(export_refusal(2, None, true, 3, true).as_deref(), Some("번역 모드에 넣을 translated 폴더를 찾지 못했습니다."));
    assert_eq!(
        export_refusal(2, Some(r"C:\w\translated"), false, 3, true).as_deref(),
        Some(r"번역 모드에 넣을 translated 폴더가 없습니다: C:\w\translated")
    );
    assert_eq!(export_refusal(2, Some("p"), true, 0, true).as_deref(), Some("번역 모드에 넣을 JSON 파일이 없습니다."));
    assert_eq!(export_refusal(2, Some("p"), true, 1, false).as_deref(), Some("GodotPCKExplorer.Console.exe를 찾지 못했습니다."));
    assert_eq!(export_refusal(2, Some("p"), true, 1, true), None);
}
