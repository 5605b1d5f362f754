use sts2_manager::patches::{
    connected_patch_conflict, empty_patch_copy, record_patch_copies, translation_patch_apply_target,
};

#[test]
fn apply_target_uses_pck_stem_or_first_contents_folder() {
    let t = translation_patch_apply_target(r"C:\m\Aki_tr.pck", &vec![]);
    assert_eq!(t.source_path, r"C:\m\Aki_tr.pck");
    assert_eq!(t.pck_stem.as_deref(), Some("Aki_tr"));
    let roots = vec![r"C:\c\other".to_string(), r"C:\c\Aki_tr.pck.contents".to_string()];
    let t = translation_patch_apply_target(r"C:\m\Aki_tr.zip", &roots);
    assert_eq!(t.pck_stem.as_deref(), Some("Aki_tr"));
    assert_eq!(translation_patch_apply_target(r"C:\m\dir", &vec![]).pck_stem, None);
}

#[test]
fn second_connected_patch_is_refused_after_copies() {
    let mut report = empty_patch_copy();
    assert_eq!(connected_patch_conflict(report.files, &report.patch_label, "A"), None);
    record_patch_copies(&mut report, 0, "A".to_string(), translation_patch_apply_target("a.pck", &vec![]));
    assert_eq!(report.files, 0);
    assert!(report.patch_label.is_none() && report.apply_target.is_none());
    record_patch_copies(&mut report, 2, "B".to_string(), translation_patch_apply_target("b.pck", &vec![]));
    assert_eq!(report.files, 2);
    assert_eq!(report.patch_label.as_deref(), Some("B"));
    let err = connected_patch_conflict(report.files, &report.patch_label, "C").expect("refused");
    assert!(err.starts_with("연결된 번역 모드가 여러 개라 자동 적용 대상을 정할 수 없습니다: B, C"));
}
