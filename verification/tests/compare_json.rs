use sts2_manager::compare::{
    compare_file_for_key, compare_translation_language, compare_values, json_pointer, parse_language_file,
    resource_path_to_relative,
};
use sts2_manager::diagnostics::troubleshoot_diagnostics;
use sts2_manager::json::JsonValue;
use sts2_manager::manifest::{manifest_from_text, read_mod_manifest_info};
use sts2_manager::retarget::{retarget_patch_manifest_text, sync_translation_patch_manifest_version};
use sts2_manager::setup::SetupIssueDto;

fn obj(pairs: Vec<(&str, JsonValue)>) -> JsonValue {
    JsonValue::Object(pairs.into_iter().map(|(k, v)| (k.to_string(), v)).collect())
}

fn s(text: &str) -> JsonValue {
    JsonValue::Str(text.to_string())
}

fn text_of(v: Option<&JsonValue>) -> Option<&str> {
    match v {
        Some(JsonValue::Str(x)) => Some(x.as_str()),
        _ => None,
    }
}

#[test]
fn compare_language_uses_scan_root_before_localization_folder() {
    let keys = vec!["file://all.loc#/title".to_string()];
    let file = compare_file_for_key(&keys[0], "eng", "localization/eng/all.loc").expect("file");
    let texts = vec![(file, Some("{\n  \"title\": \"Name\"\n}".to_string()))];
    let values = compare_translation_language(&keys, "res://localization/eng/all.loc", &texts).expect("compare language");
    assert_eq!(values.len(), 1);
    assert_eq!(values[0].key, "file://all.loc#/title");
    assert_eq!(values[0].value, "Name");
}

#[test]
fn compare_language_fallback_uses_sample_language_root_for_compact_keys() {
    let keys = vec!["file://cards.json#/name".to_string()];
    let sample = "localization/eng/cards.json";
    let file = compare_file_for_key(&keys[0], "eng", sample).expect("file");
    assert_eq!(file, "localization\\eng\\cards.json");
    let files = vec![(file, parse_language_file("{\n  \"name\": \"Strike\"\n}"))];
    let values = compare_values(&keys, sample, &files).expect("compare language");
    assert_eq!(values.len(), 1);
    assert_eq!(values[0].key, "file://cards.json#/name");
    assert_eq!(values[0].value, "Strike");
}

#[test]
fn compare_language_matches_language_prefixed_entry_keys() {
    let keys = vec!["file://NamieFamily/localization/eng/ancients.json#/next".to_string()];
    let sample = "NamieFamily/localization/zhs/ancients.json";
    let file = compare_file_for_key(&keys[0], "zhs", sample).expect("file");
    assert_eq!(file, "NamieFamily\\localization\\zhs\\ancients.json");
    let files = vec![(file, parse_language_file("{\n  \"next\": \"继续\"\n}"))];
    let values = compare_values(&keys, sample, &files).expect("compare language");
    assert_eq!(values.len(), 1);
    assert_eq!(values[0].key, "file://NamieFamily/localization/eng/ancients.json#/next");
    assert_eq!(values[0].value, "继续");
}

#[test]
fn compare_skips_keys_without_file_pointer_or_string() {
    let keys = vec![
        "plain".to_string(),
        "file://cards.json#".to_string(),
        "file://cards.json#/count".to_string(),
        "file://missing.json#/name".to_string(),
        "file://cards.json#/name".to_string(),
    ];
    let sample = "localization/eng/cards.json";
    let files = vec![
        ("localization\\eng\\cards.json".to_string(), Some(obj(vec![("name", s("Strike")), ("count", JsonValue::Number("3".to_string()))]))),
        ("localization\\eng\\missing.json".to_string(), None),
    ];
    let values = compare_values(&keys, sample, &files).expect("compare");
    assert_eq!(values.len(), 1);
    assert_eq!(values[0].value, "Strike");
}

#[test]
fn compare_refuses_samples_without_language() {
    let keys = vec!["file://a.json#/x".to_string()];
    let err = compare_values(&keys, "other/a.json", &Vec::new()).err().expect("error");
    assert_eq!(err, "비교 언어 폴더를 찾지 못했습니다.");
    let err = compare_translation_language(&keys, "   ", &Vec::new()).err().expect("error");
    assert_eq!(err, "비교 언어 경로를 읽지 못했습니다.");
}

#[test]
fn resource_paths_are_made_relative() {
    assert_eq!(resource_path_to_relative(" res:///localization/eng/a.json ").as_deref(), Some("localization/eng/a.json"));
    assert_eq!(resource_path_to_relative("x/y").as_deref(), Some("x/y"));
    assert_eq!(resource_path_to_relative("  "), None);
}

#[test]
fn json_pointers_follow_serde_rules() {
    let v = obj(vec![
        ("a/b", s("slash")),
        ("m~n", s("tilde")),
        ("list", JsonValue::Array(vec![s("zero"), s("one")])),
        ("", s("empty key")),
    ]);
    assert_eq!(text_of(json_pointer(&v, "/a~1b")), Some("slash"));
    assert_eq!(text_of(json_pointer(&v, "/m~0n")), Some("tilde"));
    assert_eq!(text_of(json_pointer(&v, "/list/1")), Some("one"));
    assert!(json_pointer(&v, "/list/01").is_none());
    assert!(json_pointer(&v, "/list/+1").is_none());
    assert!(json_pointer(&v, "/list/2").is_none());
    assert!(json_pointer(&v, "list").is_none());
    assert_eq!(text_of(json_pointer(&v, "/")), Some("empty key"));
    assert!(matches!(json_pointer(&v, ""), Some(JsonValue::Object(_))));
}

#[test]
fn language_files_drop_byte_order_marks_only() {
    assert!(matches!(parse_language_file("\u{feff}{\"a\": 1}"), Some(JsonValue::Object(_))));
    assert!(parse_language_file("{\"a\": 1} // note").is_none());
    assert!(parse_language_file("not json").is_none());
}

#[test]
fn manifest_text_is_read_after_boms_and_comments() {
    let info = manifest_from_text("\u{feff}{\"id\": \"x\" /* c */, \"version\": \"2\"}").expect("manifest");
    assert_eq!(info.id.as_deref(), Some("x"));
    assert_eq!(info.version.as_deref(), Some("2"));
    assert!(manifest_from_text("{\"author\": \"a\"}").is_none());
    assert!(manifest_from_text("{").is_none());
}

#[test]
fn first_manifest_that_counts_is_read() {
    let contents = vec![
        None,
        Some("broken".to_string()),
        Some("{\"author\": \"only\"}".to_string()),
        Some("{\"name\": \"Second\"}".to_string()),
        Some("{\"name\": \"Third\"}".to_string()),
    ];
    let info = read_mod_manifest_info(&contents);
    assert_eq!(info.name.as_deref(), Some("Second"));
    let none = read_mod_manifest_info(&vec![None, Some("{}".to_string())]);
    assert!(none.name.is_none() && none.id.is_none() && !none.is_translation_patch);
}

#[test]
fn patch_manifest_text_is_retargeted_and_written_pretty() {
    let content = "{\"id\": \"Base_tr\", \"is_translation_patch\": true, \"dependencies\": [\"Base\"]}";
    let out = retarget_patch_manifest_text(content, "Base", Some("Base Mod"), "1.2.0").expect("patch");
    let back = parse_language_file(&out).expect("json");
    match &back {
        JsonValue::Object(pairs) => {
            let get = |k: &str| pairs.iter().find(|(key, _)| key == k).map(|(_, v)| v);
            assert_eq!(text_of(get("target_mod_id")), Some("Base"));
            assert_eq!(text_of(get("target_mod_name")), Some("Base Mod"));
            assert_eq!(text_of(get("target_mod_version")), Some("1.2.0"));
        }
        _ => panic!("object"),
    }
    assert!(out.contains("\n  \"target_mod_version\": \"1.2.0\""));
    assert!(retarget_patch_manifest_text("{\"id\": \"Base\"}", "Base", None, "1.2.0").is_none());
}

#[test]
fn patch_sync_writes_the_first_patch_manifest() {
    let contents = vec![
        Some("{\"id\": \"Other\"}".to_string()),
        None,
        Some("{\"target_mod_id\": \"Base\"}".to_string()),
        Some("{\"translation_mod\": true}".to_string()),
    ];
    let (index, text) =
        sync_translation_patch_manifest_version(&contents, "Base", None, Some(" 2.0 ")).expect("synced");
    assert_eq!(index, 2);
    assert!(text.contains("\"target_mod_version\": \"2.0\""));
    assert!(sync_translation_patch_manifest_version(&contents, "Base", None, Some("-")).is_none());
    assert!(sync_translation_patch_manifest_version(&contents[..2].to_vec(), "Base", None, Some("2.0")).is_none());
}

#[test]
fn troubleshoot_list_all_clear_stands_alone() {
    let none = troubleshoot_diagnostics(&vec![], true, "G", &vec![], &vec![], &vec![], &vec![], true);
    assert_eq!(none.len(), 1);
    assert_eq!(none[0].id, "healthy-ready");
    let issues = vec![SetupIssueDto { field: "game_dir".to_string(), message: "m".to_string(), blocking: true }];
    let some = troubleshoot_diagnostics(&issues, false, "G", &vec![], &vec![], &vec![], &vec![], true);
    assert!(some.iter().all(|d| d.id != "healthy-ready"));
    assert_eq!(some[0].severity, "error");
    for pair in some.windows(2) {
        assert_ne!(pair[0].id, pair[1].id);
    }
    let blocked = troubleshoot_diagnostics(&vec![], true, "G", &vec![], &vec![], &vec![], &vec![], false);
    assert!(blocked.is_empty());
}
