use sts2_manager::cache::{nearest_existing_parent, FsNode};
use sts2_manager::compare::{compare_cache_key, compare_scan_root};
use sts2_manager::dashboard::portable_workspace_dir;
use sts2_manager::detect::{language_preview_from_scan_root, LanguageCandidate};
use sts2_manager::walk::split_dropped_directory;

fn node(path: &str, is_dir: bool, children: Vec<FsNode>) -> FsNode {
    let name = path.rsplit('\\').next().unwrap_or(path).to_string();
    FsNode {
        path: path.to_string(),
        name,
        is_dir,
        is_file: !is_dir,
        bytes: 0,
        modified_epoch: None,
        children,
    }
}

#[test]
fn parent_of_a_folder_on_a_drive_keeps_the_root() {
    assert_eq!(portable_workspace_dir(r"C:\App.exe", true).as_deref(), Some(r"C:\"));
    assert_eq!(portable_workspace_dir(r"C:\x\App.exe", true).as_deref(), Some(r"C:\x"));
    assert_eq!(portable_workspace_dir(r"C:\", true), None);
    assert_eq!(portable_workspace_dir(r"\x", true).as_deref(), Some(r"\"));
}

#[test]
fn nearest_existing_parent_is_the_deepest_existing_ancestor() {
    let existing = vec![r"C:\".to_string(), r"C:\a".to_string(), r"C:\a\b".to_string()];
    assert_eq!(nearest_existing_parent(r"C:\a\b\c\d", &existing).as_deref(), Some(r"C:\a\b"));
    assert_eq!(nearest_existing_parent(r"C:\a\b", &existing).as_deref(), Some(r"C:\a"));
    assert_eq!(nearest_existing_parent(r"C:\z", &existing).as_deref(), Some(r"C:\"));
    assert_eq!(nearest_existing_parent(r"D:\z", &existing), None);
}

#[test]
fn language_preview_does_not_inherit_parent_kor_path() {
    let root = r"C:\tmp\kor\blight";
    let candidates: Vec<LanguageCandidate> = ["eng", "rus", "zhs"]
        .iter()
        .map(|lang| LanguageCandidate {
            path: format!(r"{root}\localization\{lang}\all.loc"),
            keys: 1,
            hardcoded: false,
        })
        .collect();
    let previews = language_preview_from_scan_root(root, &candidates);
    let codes = previews.iter().map(|language| language.code.as_str()).collect::<Vec<_>>();
    assert!(codes.contains(&"en"));
    assert!(codes.contains(&"ru"));
    assert!(codes.contains(&"zh-cn"));
    assert!(!codes.contains(&"kor"));
}

#[test]
fn dropped_folder_is_split_through_lone_folders() {
    let inner = node(
        r"D\Pack\Inner",
        true,
        vec![node(r"D\Pack\Inner\a.zip", false, vec![]), node(r"D\Pack\Inner\B", true, vec![]), node(r"D\Pack\Inner\n.txt", false, vec![])],
    );
    let pack = node(r"D\Pack", true, vec![inner, node(r"D\Pack\readme.txt", false, vec![])]);
    let dropped = node("D", true, vec![pack]);
    assert_eq!(split_dropped_directory(&dropped), vec![r"D\Pack\Inner\a.zip".to_string(), r"D\Pack\Inner\B".to_string()]);
    let lone = node("E", true, vec![node(r"E\m.pck", false, vec![])]);
    assert_eq!(split_dropped_directory(&lone), vec![r"E\m.pck".to_string()]);
    let deep = node("F", true, vec![node(r"F\1", true, vec![node(r"F\1\2", true, vec![node(r"F\1\2\3", true, vec![node(r"F\1\2\3\4", true, vec![])])])])]);
    assert_eq!(split_dropped_directory(&deep), vec![r"F\1\2\3\4".to_string()]);
}

#[test]
fn comparison_root_is_tried_in_order() {
    assert_eq!(compare_scan_root(Some("R".into()), Some("E".into()), "S", true).as_deref(), Some("R"));
    assert_eq!(compare_scan_root(None, Some("E".into()), "S", true).as_deref(), Some("E"));
    assert_eq!(compare_scan_root(None, None, "S", true).as_deref(), Some("S"));
    assert_eq!(compare_scan_root(None, None, "S", false), None);
    let key = compare_cache_key("x");
    assert!(key.starts_with("compare-"));
    assert_eq!(key.len(), "compare-".len() + 16);
}
