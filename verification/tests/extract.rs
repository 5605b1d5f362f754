use sts2_manager::cache::FsNode;
use sts2_manager::extract::{
    collect_preview_files, find_resource_file_by_relative, language_copy_targets, normalize_resource_path, pck_resource_roots, selected_extract_paths, selected_translation_files,
    selected_translation_files_from_filesystem_path, sort_paths,
};

fn strings(v: &[&str]) -> Vec<String> {
    v.iter().map(|s| s.to_string()).collect()
}

fn node(path: &str, is_dir: bool, children: Vec<FsNode>) -> FsNode {
    let name = path.rsplit('\\').next().unwrap_or(path).to_string();
    FsNode { path: path.to_string(), name, is_dir, is_file: !is_dir, bytes: 0, modified_epoch: None, children }
}

#[test]
fn resource_paths_are_normalized() {
    assert_eq!(normalize_resource_path("Res://Loc\\KOR\\"), "res://loc/kor");
    assert_eq!(normalize_resource_path("res://"), "res://");
    assert_eq!(normalize_resource_path("RES://"), "res://");
    assert_eq!(normalize_resource_path("a//"), "a");
}

#[test]
fn paths_sort_by_component_each_once() {
    let v = strings(&["C:\\b", "C:\\a\\z", "C:/a/z", "C:\\a", "C:\\a-c"]);
    assert_eq!(sort_paths(&v), strings(&["C:\\a", "C:\\a\\z", "C:\\a-c", "C:\\b"]));
    assert!(sort_paths(&vec![]).is_empty());
}

fn scan_tree() -> FsNode {
    node(
        "C:\\s",
        true,
        vec![
            node("C:\\s\\sub", true, vec![node("C:\\s\\sub\\a.pck.contents", true, vec![])]),
            node(
                "C:\\s\\b.pck.contents",
                true,
                vec![node(
                    "C:\\s\\b.pck.contents\\localization",
                    true,
                    vec![node("C:\\s\\b.pck.contents\\localization\\kor", true, vec![])],
                )],
            ),
            node("C:\\s\\loc", true, vec![node("C:\\s\\loc\\cards.json", false, vec![])]),
            node("C:\\s\\x.pck.contents", false, vec![]),
        ],
    )
}

#[test]
fn unpacked_pck_folders_are_resource_roots() {
    assert_eq!(pck_resource_roots(&scan_tree()), strings(&["C:\\s\\b.pck.contents", "C:\\s\\sub\\a.pck.contents"]));
}

#[test]
fn selections_name_what_is_extracted() {
    let tree = scan_tree();
    assert_eq!(selected_extract_paths(&tree, None), strings(&["C:\\s"]));
    assert_eq!(selected_extract_paths(&tree, Some("  ")), strings(&["C:\\s"]));
    assert_eq!(
        selected_extract_paths(&tree, Some("res://")),
        strings(&["C:\\s\\b.pck.contents", "C:\\s\\sub\\a.pck.contents"])
    );
    assert_eq!(selected_extract_paths(&tree, Some("Loc/")), strings(&["C:\\s\\loc"]));
    assert_eq!(
        selected_extract_paths(&tree, Some("res://localization/KOR")),
        strings(&["C:\\s\\b.pck.contents\\localization\\kor"])
    );
    assert!(selected_extract_paths(&tree, Some("nothing/here")).is_empty());
}

#[test]
fn filesystem_selection_covers_the_folder_and_below() {
    let cands = strings(&["C:\\s\\loc\\kor\\a.json", "C:\\s\\loc\\eng\\b.json", "C:\\s\\loc\\korean\\c.json"]);
    assert_eq!(
        selected_translation_files_from_filesystem_path("C:\\s", " loc\\kor ", &cands),
        strings(&["C:\\s\\loc\\kor\\a.json"])
    );
    assert_eq!(
        selected_translation_files_from_filesystem_path("C:\\s", "C:\\s\\loc\\eng", &cands),
        strings(&["C:\\s\\loc\\eng\\b.json"])
    );
    assert!(selected_translation_files_from_filesystem_path("C:\\s", "res://loc", &cands).is_empty());
    assert!(selected_translation_files_from_filesystem_path("C:\\s", "  ", &cands).is_empty());
}

#[test]
fn translation_files_fall_back_to_hardcoded_ones() {
    let hard = strings(&["C:\\s\\b.dll", "C:\\s\\a.dll"]);
    assert_eq!(selected_translation_files("C:\\s", "x", None, &hard), hard);
    let cands = strings(&[
        "C:\\s\\m.pck.contents\\localization\\kor\\x.json",
        "C:\\s\\m.pck.contents\\localization\\eng\\y.json",
    ]);
    assert_eq!(
        selected_translation_files("C:\\s", "res://localization/kor", Some(&cands), &hard),
        strings(&["C:\\s\\m.pck.contents\\localization\\kor\\x.json"])
    );
    assert_eq!(
        selected_translation_files("C:\\s", "res://nothing", Some(&cands), &hard),
        strings(&["C:\\s\\a.dll", "C:\\s\\b.dll"])
    );
}

#[test]
fn target_language_files_are_copied_beside_the_source() {
    let sources = strings(&[
        "C:\\s\\localization\\eng\\cards.json",
        "C:\\s\\localization\\kor\\relics.json",
        "C:\\s\\readme.txt",
        "C:\\s\\m.pck.contents\\localization\\eng\\x.json",
    ]);
    let targets = language_copy_targets("C:\\s", &sources, "D:\\t", "kor");
    assert_eq!(
        targets,
        vec![
            Some(("C:\\s\\localization\\kor\\cards.json".to_string(), "D:\\t\\localization\\kor\\cards.json".to_string())),
            None,
            None,
            Some(("C:\\s\\localization\\kor\\x.json".to_string(), "D:\\t\\localization\\kor\\x.json".to_string())),
        ]
    );
}

#[test]
fn resource_files_are_found_directly_or_by_resource_path() {
    assert_eq!(
        find_resource_file_by_relative("C:\\s", "localization\\kor\\x.json", true, None),
        Some("C:\\s\\localization\\kor\\x.json".to_string())
    );
    assert_eq!(find_resource_file_by_relative("C:\\s", "localization\\kor\\x.json", false, None), None);
    let cands = strings(&[
        "C:\\s\\b.pck.contents\\localization\\kor\\x.json",
        "C:\\s\\a.pck.contents\\localization\\kor\\x.json",
        "C:\\s\\other\\y.json",
    ]);
    assert_eq!(
        find_resource_file_by_relative("C:\\s", "localization\\kor\\x.json", false, Some(&cands)),
        Some("C:\\s\\a.pck.contents\\localization\\kor\\x.json".to_string())
    );
    let plain = strings(&["C:\\s\\mods\\localization\\kor\\x.json"]);
    assert_eq!(
        find_resource_file_by_relative("C:\\s", "localization/kor/x.json", false, Some(&plain)),
        Some("C:\\s\\mods\\localization\\kor\\x.json".to_string())
    );
    assert_eq!(find_resource_file_by_relative("C:\\s", "nope.json", false, Some(&plain)), None);
}

#[test]
fn preview_files_come_in_path_order_up_to_the_limit() {
    let tree = node(
        "C:\\p",
        true,
        vec![
            node("C:\\p\\b.json", false, vec![]),
            node("C:\\p\\a", true, vec![node("C:\\p\\a\\z.json", false, vec![]), node("C:\\p\\a\\y.json", false, vec![])]),
        ],
    );
    let mut files = vec![];
    collect_preview_files(&tree, &mut files, 10);
    assert_eq!(files, strings(&["C:\\p\\a\\y.json", "C:\\p\\a\\z.json", "C:\\p\\b.json"]));
    let mut some = strings(&["x"]);
    collect_preview_files(&tree, &mut some, 2);
    assert_eq!(some, strings(&["x", "C:\\p\\a\\y.json"]));
    let mut full = strings(&["x", "y"]);
    collect_preview_files(&tree, &mut full, 1);
    assert_eq!(full, strings(&["x", "y"]));
}
