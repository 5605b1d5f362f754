use sts2_manager::model::{ModKind, ModRecord, ModSource, ScanSummary};
use sts2_manager::node::preferred_pck_from_candidates;
use sts2_manager::resources::{
    is_preview_metadata_file, parse_pck_resource_paths, path_is_same_or_child, resource_path_after_marker,
    resource_path_matches_selection,
};
use sts2_manager::rows::mod_row_builders;
use sts2_manager::sheet::{translation_csv, JsonTranslationEntry, JsonTranslationStatus, TranslationSlot};

fn chars(s: &str) -> Vec<char> {
    s.chars().collect()
}

fn strings(v: &[&str]) -> Vec<String> {
    v.iter().map(|s| s.to_string()).collect()
}

#[test]
fn same_or_child_needs_a_slash_after_the_parent() {
    assert!(path_is_same_or_child(&chars("a/b"), &chars("a/b")));
    assert!(path_is_same_or_child(&chars("a/b/c"), &chars("a/b")));
    assert!(!path_is_same_or_child(&chars("a/bc"), &chars("a/b")));
    assert!(!path_is_same_or_child(&chars("a"), &chars("a/b")));
}

#[test]
fn selection_matches_whole_folders() {
    assert!(resource_path_matches_selection("res://a/b.json", "res://"));
    assert!(resource_path_matches_selection("res://loc/kor/x.json", "res://loc/kor"));
    assert!(resource_path_matches_selection("res://loc/kor/x.json", "loc/kor"));
    assert!(resource_path_matches_selection("res://mods/foo/loc/kor/x.json", "loc/kor"));
    assert!(!resource_path_matches_selection("res://mods/foo/loc/korean/x.json", "loc/kor"));
    assert!(!resource_path_matches_selection("x", ""));
    assert!(!resource_path_matches_selection("res://other/y.json", "res://loc"));
}

#[test]
fn marker_path_runs_to_a_stop() {
    assert_eq!(resource_path_after_marker("see res://a/b.json, ok", "res://"), Some("res://a/b.json".to_string()));
    assert_eq!(resource_path_after_marker("[res://x/y.png]", "res://"), Some("res://x/y.png".to_string()));
    assert_eq!(resource_path_after_marker("res:// next", "res://"), None);
    assert_eq!(resource_path_after_marker("none here", "res://"), None);
}

#[test]
fn pck_listing_paths_are_collected_sorted() {
    let output = "\0Listing:\nres://localization/kor/cards.json size 12\n  \"localization/eng/relics.json\", other\nnoext/path thing.txt\n/abs/dir.x1\na/b.\nres://localization/kor/cards.json again\n";
    assert_eq!(
        parse_pck_resource_paths(output),
        strings(&[
            "res://a/b.",
            "res://abs/dir.x1",
            "res://localization/eng/relics.json",
            "res://localization/kor/cards.json",
        ])
    );
    assert!(parse_pck_resource_paths("").is_empty());
    assert_eq!(parse_pck_resource_paths("r\0es://x/y.z\r\n"), strings(&["res://x/y.z"]));
}

#[test]
fn preview_metadata_is_shallow_json_outside_pck_contents() {
    let root = "C:\\cache\\prev";
    assert!(is_preview_metadata_file("C:\\cache\\prev\\mod\\loc\\kor.json", root));
    assert!(is_preview_metadata_file("C:\\cache\\prev\\mod.JSON", root));
    assert!(!is_preview_metadata_file("C:\\cache\\prev\\a\\b\\c\\d.json", root));
    assert!(!is_preview_metadata_file("C:\\cache\\prev\\x.pck.contents\\a.json", root));
    assert!(!is_preview_metadata_file("C:\\cache\\prev\\a.txt", root));
    assert!(!is_preview_metadata_file("D:\\other\\a.json", root));
}

#[test]
fn preferred_pck_uses_stem_then_shallowest() {
    let pcks = strings(&["C:\\m\\sub\\Main.pck", "C:\\m\\b.pck", "C:\\m\\a.pck"]);
    assert_eq!(preferred_pck_from_candidates(&pcks, None), Some("C:\\m\\a.pck".to_string()));
    assert_eq!(preferred_pck_from_candidates(&pcks, Some("MAIN")), Some("C:\\m\\sub\\Main.pck".to_string()));
    assert_eq!(preferred_pck_from_candidates(&pcks, Some("zzz")), Some("C:\\m\\a.pck".to_string()));
    assert_eq!(preferred_pck_from_candidates(&vec![], Some("a")), None);
}

fn record(key: &str, name: &str, source: ModSource) -> ModRecord {
    ModRecord {
        key: key.to_string(),
        name: name.to_string(),
        path: format!("C:\\mods\\{name}"),
        source,
        kind: ModKind::Directory,
        version_hint: None,
        bytes: 10,
        modified_epoch: Some(5),
    }
}

#[test]
fn row_builders_group_by_key_without_deleted() {
    let summary = ScanSummary {
        game_mods: vec![
            record("a", "a-first", ModSource::GameMods),
            record("b", "b", ModSource::GameMods),
            record("a", "a-last", ModSource::GameMods),
        ],
        disabled_mods: vec![record("z", "z", ModSource::Disabled)],
        vault_mods: vec![record("a", "a-vault", ModSource::Vault), record("c", "c", ModSource::Vault)],
        external_manager_mods: vec![record("d", "d", ModSource::ExternalManager)],
    };
    let builders = mod_row_builders(&summary, &strings(&["c"]));
    let keys: Vec<&str> = builders.iter().map(|(k, _)| k.as_str()).collect();
    assert_eq!(keys, vec!["a", "b", "d"]);
    let a = &builders[0].1;
    assert_eq!(a.active.as_ref().map(|r| r.name.as_str()), Some("a-last"));
    assert_eq!(a.vault.as_ref().map(|r| r.name.as_str()), Some("a-vault"));
    assert!(a.external.is_none());
    assert!(builders[2].1.active.is_none());
    assert_eq!(builders[2].1.external.as_ref().map(|r| r.name.as_str()), Some("d"));
}

fn entry(key: &str, source: &str, translated: &str, status: JsonTranslationStatus) -> JsonTranslationEntry {
    JsonTranslationEntry {
        key: key.to_string(),
        slot_id: None,
        source_value: source.to_string(),
        translated_value: translated.to_string(),
        status,
    }
}

#[test]
fn csv_export_quotes_and_splits_keys() {
    let slots = vec![
        TranslationSlot {
            id: "1".to_string(),
            entry: entry("file://loc/x.json#title", "Hello, world", "안녕 \"친구\"", JsonTranslationStatus::Ready),
        },
        TranslationSlot { id: "2".to_string(), entry: entry("plain", "a", "", JsonTranslationStatus::New) },
    ];
    assert_eq!(
        translation_csv(&slots),
        "id,source_value,translated_value,status,file,key\n1,\"Hello, world\",\"안녕 \"\"친구\"\"\",ready,loc/x.json,title\n2,a,,new,source.json,plain\n"
    );
    assert_eq!(translation_csv(&vec![]), "id,source_value,translated_value,status,file,key\n");
}
