use sts2_manager::paths::{
    adjust_pck_target_for_language_output, language_output_relative_to_pck,
    translation_patch_payload_root,
};

#[test]
fn translated_language_output_maps_to_pck_resource_path() {
    let source_path = r"Z:\game\sts2\modmanager\translation_work\selected\mod\workspace\source";
    let language_output = r"Z:\game\sts2\modmanager\translation_work\selected\mod\workspace\translated\AkiSister\localization\kor";

    assert_eq!(
        language_output_relative_to_pck(source_path, language_output).expect("relative"),
        r"AkiSister\localization\kor".to_string()
    );
}

#[test]
fn pck_folder_output_drops_accidental_json_target_file() {
    let language_output = r"Z:\game\sts2\modmanager\translation_work\selected\mod\workspace\translated\AkiSister\localization\kor";

    assert_eq!(
        adjust_pck_target_for_language_output(
            language_output,
            false,
            r"AkiSister\localization\kor\ancients.json".to_string(),
        ),
        r"AkiSister\localization\kor".to_string()
    );
}

#[test]
fn pck_file_output_appends_file_name_to_folder_target() {
    let language_output = r"Z:\game\sts2\modmanager\translation_work\selected\mod\workspace\translated\AkiSister\localization\kor\ancients.json";

    assert_eq!(
        adjust_pck_target_for_language_output(
            language_output,
            false,
            r"AkiSister\localization\kor".to_string(),
        ),
        r"AkiSister\localization\kor\ancients.json".to_string()
    );
}

#[test]
fn patch_mod_export_uses_translated_workspace_root() {
    let source_path = r"Z:\game\sts2\modmanager\translation_work\selected\mod\workspace\source\AkiSister\localization\eng";
    let language_output = r"Z:\game\sts2\modmanager\translation_work\selected\mod\workspace\translated\AkiSister\localization\kor";

    assert_eq!(
        translation_patch_payload_root(source_path, language_output, false).expect("payload root"),
        r"Z:\game\sts2\modmanager\translation_work\selected\mod\workspace\translated".to_string()
    );
}
