use sts2_manager::json::{
    count_json_string_leaves, count_translation_file_keys, manifest_json_text, strip_json_comments, JsonValue,
};
use sts2_manager::compare::parse_language_file;
use sts2_manager::manifest::{
    read_mod_manifest_info,
    dependency_list_field, empty_manifest_info, manifest_for_record, manifest_from_json, manifest_info_from_value,
    merge_manifest_info, string_list_field,
};
use sts2_manager::model::ManifestDependency;
use sts2_manager::retarget::{
    manifest_dependency_value_matches, retarget_patch_manifest, sync_target_version,
    update_translation_patch_manifest_value,
};

fn parse(text: &str) -> JsonValue {
    parse_language_file(&manifest_json_text(text)).expect("json")
}

fn get<'a>(v: &'a JsonValue, key: &str) -> Option<&'a JsonValue> {
    match v {
        JsonValue::Object(pairs) => pairs.iter().find(|(k, _)| k == key).map(|(_, v)| v),
        _ => None,
    }
}

fn text(v: Option<&JsonValue>) -> Option<&str> {
    match v {
        Some(JsonValue::Str(s)) => Some(s.as_str()),
        _ => None,
    }
}

fn keys(list: &[&str]) -> Vec<String> {
    list.iter().map(|k| k.to_string()).collect()
}

#[test]
fn comments_are_stripped_outside_strings() {
    assert_eq!(strip_json_comments("{\"a\": 1 // note\n}"), "{\"a\": 1 \n}");
    assert_eq!(strip_json_comments("{/* x */\"a\": \"//kept\"}"), "{\"a\": \"//kept\"}");
    assert_eq!(strip_json_comments("\"a\\\"//b\""), "\"a\\\"//b\"");
    assert_eq!(strip_json_comments("1 / 2"), "1 / 2");
    assert_eq!(strip_json_comments("end/"), "end/");
    assert_eq!(manifest_json_text("\u{feff}\u{feff}{}"), "{}");
}

#[test]
fn manifest_reader_accepts_json_with_comments() {
    let content = r#"{
  "id": "zsproject", // unique id
  "name": "ZS Test Mod",
  "version": "0.4",
  "dependencies": ["BaseLib"] // required mods
}"#;
    let manifest = read_mod_manifest_info(&vec![Some(content.to_string())]);

    assert_eq!(manifest.id.as_deref(), Some("zsproject"));
    assert_eq!(manifest.name.as_deref(), Some("ZS Test Mod"));
    assert_eq!(manifest.version.as_deref(), Some("0.4"));
    assert_eq!(
        manifest
            .dependencies
            .iter()
            .map(|dependency| dependency.id.as_str())
            .collect::<Vec<_>>(),
        vec!["BaseLib"]
    );
}

#[test]
fn manifest_fields_fall_back_through_their_keys() {
    let value = parse(
        r#"{"mod_id": " m ", "mod_name": "", "creator": "me", "desc": "d", "languages": "ko; en,ko",
            "translation_mod": true, "target_id": "base", "source_mod_version": "1.0"}"#,
    );
    let info = manifest_info_from_value(&value);
    assert_eq!(info.id.as_deref(), Some("m"));
    assert_eq!(info.name, None);
    assert_eq!(info.author.as_deref(), Some("me"));
    assert_eq!(info.description.as_deref(), Some("d"));
    assert_eq!(info.target_languages, vec!["en".to_string(), "ko".to_string()]);
    assert!(info.is_translation_patch);
    assert_eq!(info.target_mod_id.as_deref(), Some("base"));
    assert_eq!(info.target_mod_version.as_deref(), Some("1.0"));
    let nothing = parse(r#"{"author": "x"}"#);
    assert!(manifest_from_json(&nothing).is_none());
}

#[test]
fn dependency_lists_sort_and_drop_case_duplicates() {
    let value = parse(
        r#"{"requires": [{"id": "b", "version": "2"}, "A", {"name": "a", "required_version": "1"}, 3, {"id": "  "}]}"#,
    );
    let deps = dependency_list_field(&value, &keys(&["dependencies", "requires"]));
    let ids = deps.iter().map(|d| d.id.as_str()).collect::<Vec<_>>();
    assert_eq!(ids, vec!["A", "b"]);
    assert_eq!(deps[0].version, None);
    assert_eq!(deps[1].version.as_deref(), Some("2"));
    let text_list = parse(r#"{"deps": "x, Y ,x"}"#);
    let d2 = dependency_list_field(&text_list, &keys(&["deps"]));
    assert_eq!(d2.iter().map(|d| d.id.as_str()).collect::<Vec<_>>(), vec!["Y", "x"]);
    let names = string_list_field(&text_list, &keys(&["deps"]));
    assert_eq!(names, vec!["Y".to_string(), "x".to_string()]);
}

#[test]
fn dependency_versions_fill_missing_versions() {
    let value = parse(
        r#"{"id": "patch", "dependencies": ["Base", "Other"], "dependency_versions": {"Base": " 1.5 "},
            "target_mod_id": "other", "target_mod_version": "9"}"#,
    );
    let info = manifest_from_json(&value).expect("manifest");
    assert_eq!(info.dependencies[0].version.as_deref(), Some("1.5"));
    assert_eq!(info.dependencies[1].version.as_deref(), Some("9"));
}

#[test]
fn merged_manifest_prefers_primary_fields() {
    let mut primary = empty_manifest_info();
    primary.name = Some("P".to_string());
    primary.dependencies.push(ManifestDependency { id: "Base".to_string(), version: None });
    let mut fallback = empty_manifest_info();
    fallback.name = Some("F".to_string());
    fallback.version = Some("2".to_string());
    fallback.is_translation_patch = true;
    fallback.target_languages = vec!["ko".to_string()];
    fallback.dependencies.push(ManifestDependency { id: "base".to_string(), version: Some("1".to_string()) });
    fallback.dependencies.push(ManifestDependency { id: "Extra".to_string(), version: None });
    let m = merge_manifest_info(primary, fallback);
    assert_eq!(m.name.as_deref(), Some("P"));
    assert_eq!(m.version.as_deref(), Some("2"));
    assert!(m.is_translation_patch);
    assert_eq!(m.target_languages, vec!["ko".to_string()]);
    assert_eq!(m.dependencies.iter().map(|d| d.id.as_str()).collect::<Vec<_>>(), vec!["Base", "Extra"]);
}

#[test]
fn record_manifest_is_merged_patch_first() {
    let mut scan = empty_manifest_info();
    scan.name = Some("Scan".to_string());
    let mut rec = empty_manifest_info();
    rec.name = Some("Patch".to_string());
    rec.is_translation_patch = true;
    let same = manifest_for_record(r"C:\m", r"C:\m", scan, None);
    assert_eq!(same.name.as_deref(), Some("Scan"));
    let mut scan2 = empty_manifest_info();
    scan2.name = Some("Scan".to_string());
    let merged = manifest_for_record(r"C:\m", r"C:\m\x.pck.contents", scan2, Some(rec));
    assert_eq!(merged.name.as_deref(), Some("Patch"));
}

#[test]
fn retargeting_sets_target_fields_and_versions() {
    let mut value = parse(
        r#"{"id": "p", "target_version": "old", "dependency_versions": {"BASE": "0.1", "other": "x"},
            "dependencies": [{"id": "base", "version": "0.1"}, "zed"]}"#,
    );
    update_translation_patch_manifest_value(&mut value, "Base", Some("  Base Mod "), "2.0");
    assert_eq!(text(get(&value, "target_mod_id")), Some("Base"));
    assert_eq!(text(get(&value, "target_mod_name")), Some("Base Mod"));
    assert_eq!(text(get(&value, "target_mod_version")), Some("2.0"));
    assert_eq!(text(get(&value, "target_version")), Some("2.0"));
    assert!(get(&value, "source_mod_version").is_none());
    let versions = get(&value, "dependency_versions").expect("versions");
    assert_eq!(text(get(versions, "BASE")), Some("2.0"));
    assert_eq!(text(get(versions, "other")), Some("x"));
    assert!(get(versions, "Base").is_none());
    match get(&value, "dependencies") {
        Some(JsonValue::Array(items)) => {
            assert_eq!(items.len(), 2);
            assert_eq!(text(get(&items[0], "version")), Some("2.0"));
        }
        _ => panic!("dependencies"),
    }
    assert_eq!(text(get(&value, "id")), Some("p"));

    let mut bare = parse(r#"{"dependencies": "none"}"#);
    update_translation_patch_manifest_value(&mut bare, "T", None, "1");
    assert_eq!(text(get(&bare, "dependencies")), Some("none"));
    assert_eq!(text(get(get(&bare, "dependency_versions").expect("map"), "T")), Some("1"));
    let mut empty = parse(r#"{}"#);
    update_translation_patch_manifest_value(&mut empty, "T", Some("  "), "1");
    assert!(get(&empty, "target_mod_name").is_none());
    match get(&empty, "dependencies") {
        Some(JsonValue::Array(items)) => assert_eq!(text(items.first()), Some("T")),
        _ => panic!("added"),
    }
    let mut not_object = JsonValue::Str("x".to_string());
    update_translation_patch_manifest_value(&mut not_object, "T", None, "1");
    assert!(matches!(not_object, JsonValue::Str(ref s) if s == "x"));
}

#[test]
fn only_patch_manifests_are_retargeted() {
    let plain = parse(r#"{"id": "mod"}"#);
    assert!(retarget_patch_manifest(plain, "Base", None, "1").is_none());
    let patch = parse(r#"{"is_translation_patch": true, "target_mod_id": "Own"}"#);
    let out = retarget_patch_manifest(patch, "Base", None, "1").expect("patch");
    assert_eq!(text(get(&out, "target_mod_id")), Some("Own"));
    assert_eq!(sync_target_version(Some(" 1.2 ")), Some("1.2".to_string()));
    assert_eq!(sync_target_version(Some(" - ")), None);
    assert_eq!(sync_target_version(None), None);
    assert!(manifest_dependency_value_matches(&JsonValue::Str("BASE".to_string()), "base"));
    assert!(!manifest_dependency_value_matches(&JsonValue::Null, "base"));
}

#[test]
fn string_leaves_are_counted_at_any_depth() {
    let v = parse(r#"{"a": "Attack", "b": ["  ", "Defend", {"c": "Block", "d": 3}], "e": null, "f": ""}"#);
    assert_eq!(count_json_string_leaves(&v), 3);
    assert_eq!(count_json_string_leaves(&JsonValue::Str(" x ".to_string())), 1);
    assert_eq!(count_json_string_leaves(&JsonValue::Number("1".to_string())), 0);
}

#[test]
fn translation_file_keys_depend_on_extension() {
    let v = parse(r#"{"a": "Attack", "b": "Defend"}"#);
    assert_eq!(count_translation_file_keys("C:\\loc\\kor\\cards.JSON", Some(&v)), 2);
    assert_eq!(count_translation_file_keys("C:\\loc\\kor\\cards.loc", Some(&v)), 2);
    assert_eq!(count_translation_file_keys("C:\\loc\\kor\\cards.txt", Some(&v)), 0);
    assert_eq!(count_translation_file_keys("C:\\loc\\kor\\cards.json", None), 0);
}
