use sts2_manager::apply::{read_translation_context, write_translation_context, TranslationContextWriteRequest};
use sts2_manager::setup::is_path_ancestor;
use sts2_manager::sheet::{json_entry_dto, json_entry_from_dto, JsonEntryDto, JsonTranslationEntry, JsonTranslationStatus};

#[test]
fn context_written_is_read_back() {
    let request = TranslationContextWriteRequest {
        mod_key: "game:Foo".to_string(),
        resource_path: "res://localization/kor".to_string(),
        extraction_source: "C:\\game\\mods\\Foo\\Foo.pck".to_string(),
        pck_contents_root: Some("C:\\work\\Foo.pck.contents".to_string()),
        pck_stem: "Foo".to_string(),
        translation_patch_source: None,
        translation_patch_pck_stem: Some("FooKor".to_string()),
    };
    let text = write_translation_context(&request);
    let context = read_translation_context(&text);
    assert_eq!(context.mod_key.as_deref(), Some("game:Foo"));
    assert_eq!(context.extraction_source_path.as_deref(), Some("C:\\game\\mods\\Foo\\Foo.pck"));
    assert_eq!(context.pck_contents_root.as_deref(), Some("C:\\work\\Foo.pck.contents"));
    assert_eq!(context.pck_stem.as_deref(), Some("Foo"));
    assert_eq!(context.translation_patch_source_path, None);
    assert_eq!(context.translation_patch_pck_stem.as_deref(), Some("FooKor"));
}

#[test]
fn entry_status_survives_the_editor() {
    for status in [
        JsonTranslationStatus::New,
        JsonTranslationStatus::Ready,
        JsonTranslationStatus::Updated,
        JsonTranslationStatus::Missing,
        JsonTranslationStatus::Removed,
    ] {
        let entry = JsonTranslationEntry {
            key: "k".to_string(),
            slot_id: Some("1".to_string()),
            source_value: "Attack".to_string(),
            translated_value: "공격".to_string(),
            status,
        };
        let back = json_entry_from_dto(json_entry_dto(entry)).expect("known status");
        assert_eq!(back.status, status);
        assert_eq!(back.translated_value, "공격");
    }
    let unknown = JsonEntryDto {
        key: "k".to_string(),
        slot_id: None,
        previous_source_value: None,
        source_value: "a".to_string(),
        translated_value: String::new(),
        status: "weird".to_string(),
    };
    assert_eq!(json_entry_from_dto(unknown).err(), Some("알 수 없는 번역 상태: weird".to_string()));
}

#[test]
fn no_folder_lies_inside_itself() {
    assert!(!is_path_ancestor("c:/a", "c:/a"));
    assert!(is_path_ancestor("c:/a", "c:/a/b"));
}
