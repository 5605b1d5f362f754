use sts2_manager::cache::FsNode;
use sts2_manager::walk::{
    fingerprint_dropped_directory, collect_preview_metadata_files, empty_preview_dirs, unkept_preview_files, collect_files_with_extension, collect_manifest_candidates, collect_pck_files, collect_supported_pck_files,
    count_files_with_extension, directory_preview_has_pck_contents, extraction_source_for_record, find_first_pck_file,
    first_active_payload, preferred_extractable_payload, source_has_pck_payload, translation_payload_languages,
};

fn name_of(path: &str) -> String {
    path.rsplit('\\').next().unwrap_or(path).to_string()
}

fn file(path: &str) -> FsNode {
    FsNode { path: path.to_string(), name: name_of(path), is_dir: false, is_file: true, bytes: 1, modified_epoch: None, children: vec![] }
}

fn dir(path: &str, children: Vec<FsNode>) -> FsNode {
    FsNode { path: path.to_string(), name: name_of(path), is_dir: true, is_file: false, bytes: 0, modified_epoch: None, children }
}

fn strings(v: &[&str]) -> Vec<String> {
    v.iter().map(|s| s.to_string()).collect()
}

#[test]
fn files_are_collected_by_extension_in_walk_order() {
    let root = dir(
        "C:\\p",
        vec![file("C:\\p\\a.JSON"), dir("C:\\p\\sub", vec![file("C:\\p\\sub\\b.json"), file("C:\\p\\sub\\c.txt")])],
    );
    let mut out = vec!["keep".to_string()];
    collect_files_with_extension(&root, "json", &mut out);
    assert_eq!(out, strings(&["keep", "C:\\p\\a.JSON", "C:\\p\\sub\\b.json"]));
    assert_eq!(count_files_with_extension(&root, "txt"), 1);
    assert_eq!(count_files_with_extension(&file("C:\\p\\x.json"), "json"), 1);
}

#[test]
fn pck_collection_may_skip_unpacked_folders() {
    let root = dir(
        "C:\\p",
        vec![
            file("C:\\p\\x.pck"),
            dir("C:\\p\\y.pck.contents", vec![file("C:\\p\\y.pck.contents\\z.pck")]),
            dir("C:\\p\\sub", vec![file("C:\\p\\sub\\w.PAK"), file("C:\\p\\sub\\v.zip")]),
        ],
    );
    let mut skipped = vec![];
    collect_pck_files(&root, &mut skipped);
    assert_eq!(skipped, strings(&["C:\\p\\x.pck", "C:\\p\\sub\\w.PAK"]));
    let mut all = vec![];
    collect_supported_pck_files(&root, &mut all);
    assert_eq!(all, strings(&["C:\\p\\x.pck", "C:\\p\\y.pck.contents\\z.pck", "C:\\p\\sub\\w.PAK"]));
}

#[test]
fn first_pck_follows_sorted_entries() {
    let root = dir(
        "C:\\p",
        vec![
            dir("C:\\p\\b", vec![file("C:\\p\\b\\1.pck")]),
            dir("C:\\p\\a", vec![file("C:\\p\\a\\notes.txt"), file("C:\\p\\a\\2.pck")]),
            file("C:\\p\\c.pck"),
        ],
    );
    assert_eq!(find_first_pck_file(&root), Some("C:\\p\\a\\2.pck".to_string()));
    assert!(source_has_pck_payload(&root));
    let unpacked = dir("C:\\p\\x.pck.contents", vec![file("C:\\p\\x.pck.contents\\y.pck")]);
    assert_eq!(find_first_pck_file(&unpacked), None);
    assert!(!source_has_pck_payload(&unpacked));
    assert!(source_has_pck_payload(&file("C:\\p\\mod.PCK")));
    assert!(!source_has_pck_payload(&file("C:\\p\\mod.zip")));
}

#[test]
fn payload_languages_are_sorted_once() {
    let root = dir(
        "C:\\p",
        vec![
            file("C:\\p\\localization\\kor\\x.json"),
            file("C:\\p\\localization\\eng\\y.json"),
            file("C:\\p\\localization\\kor\\z.json"),
            file("C:\\p\\other.json"),
            file("C:\\p\\localization\\jpn\\w.txt"),
        ],
    );
    assert_eq!(translation_payload_languages(&root), strings(&["eng", "kor"]));
}

#[test]
fn unpacked_folders_are_found_below_the_root() {
    let root = dir("C:\\d", vec![dir("C:\\d\\sub", vec![file("C:\\d\\sub\\x.pck.contents")])]);
    assert!(directory_preview_has_pck_contents(&root));
    assert!(!directory_preview_has_pck_contents(&dir("C:\\d", vec![file("C:\\d\\a.json")])));
    assert!(!directory_preview_has_pck_contents(&dir("C:\\d\\self.pck.contents", vec![])));
}

#[test]
fn manifest_candidates_are_shallow_json_files() {
    let root = dir(
        "C:\\p",
        vec![
            file("C:\\p\\mod.json"),
            dir("C:\\p\\a", vec![dir("C:\\p\\a\\b", vec![dir("C:\\p\\a\\b\\c", vec![file("C:\\p\\a\\b\\c\\d.json")])]), file("C:\\p\\a\\m.json")]),
            dir("C:\\p\\x.pck.contents", vec![file("C:\\p\\x.pck.contents\\m.json")]),
        ],
    );
    let mut out = vec![];
    collect_manifest_candidates("C:\\p", &root, &mut out);
    assert_eq!(out, strings(&["C:\\p\\mod.json", "C:\\p\\a\\m.json"]));
}

#[test]
fn first_active_entry_skips_disabled() {
    let root = dir("C:\\p", vec![dir("C:\\p\\Disabled", vec![]), file("C:\\p\\b.zip"), file("C:\\p\\a.txt")]);
    assert_eq!(first_active_payload(&root), Some("C:\\p\\a.txt".to_string()));
    assert_eq!(first_active_payload(&dir("C:\\p", vec![dir("C:\\p\\disabled", vec![])])), None);
    assert_eq!(first_active_payload(&file("C:\\p\\a.zip")), None);
}

#[test]
fn preferred_payload_is_shallow_then_pck_then_path() {
    let entries = || {
        vec![
            dir("C:\\p\\deep", vec![file("C:\\p\\deep\\x.pck")]),
            file("C:\\p\\b.zip"),
            file("C:\\p\\a.7z"),
            dir("C:\\p\\disabled", vec![file("C:\\p\\disabled\\z.pck")]),
            file("C:\\p\\n.txt"),
        ]
    };
    assert_eq!(preferred_extractable_payload(&dir("C:\\p", entries())), Some("C:\\p\\a.7z".to_string()));
    let mut children = entries();
    children.push(file("C:\\p\\c.pck"));
    assert_eq!(preferred_extractable_payload(&dir("C:\\p", children)), Some("C:\\p\\c.pck".to_string()));
    assert_eq!(preferred_extractable_payload(&dir("C:\\p", vec![file("C:\\p\\n.txt")])), None);
}

#[test]
fn extraction_source_prefers_the_folder_then_payloads() {
    let m = dir("C:\\m", vec![file("C:\\m\\readme.txt"), file("C:\\m\\data.zip")]);
    assert_eq!(extraction_source_for_record(&m, true, false), "C:\\m");
    assert_eq!(extraction_source_for_record(&m, false, false), "C:\\m\\data.zip");
    let plain = dir("C:\\m", vec![file("C:\\m\\readme.txt")]);
    assert_eq!(extraction_source_for_record(&plain, false, false), "C:\\m\\readme.txt");
    let empty = dir("C:\\m", vec![dir("C:\\m\\disabled", vec![])]);
    assert_eq!(extraction_source_for_record(&empty, false, false), "C:\\m");
    assert_eq!(extraction_source_for_record(&file("C:\\m.zip"), false, false), "C:\\m.zip");
}

#[test]
fn compacting_removes_unkept_files_then_empty_folders() {
    let root = dir(
        "C:\\prev",
        vec![
            file("C:\\prev\\keep.json"),
            file("C:\\prev\\drop.bin"),
            dir("C:\\prev\\empty", vec![dir("C:\\prev\\empty\\deeper", vec![])]),
            dir("C:\\prev\\full", vec![file("C:\\prev\\full\\x.json"), dir("C:\\prev\\full\\e", vec![])]),
        ],
    );
    let keep = strings(&["C:\\prev\\keep.json", "C:\\prev\\full\\x.json"]);
    assert_eq!(unkept_preview_files(&root, &keep), strings(&["C:\\prev\\drop.bin"]));
    assert_eq!(
        empty_preview_dirs(&root),
        strings(&["C:\\prev\\empty\\deeper", "C:\\prev\\empty", "C:\\prev\\full\\e"])
    );
    let mut kept = vec![];
    collect_preview_metadata_files("C:\\prev", &root, &mut kept);
    assert_eq!(kept, strings(&["C:\\prev\\keep.json", "C:\\prev\\full\\x.json"]));
}

fn timed(path: &str, bytes: u64, modified: Option<u64>) -> FsNode {
    FsNode { path: path.to_string(), name: name_of(path), is_dir: false, is_file: true, bytes, modified_epoch: modified, children: vec![] }
}

#[test]
fn dropped_folder_fingerprint_sums_sizes_and_takes_latest_time() {
    let unreadable = FsNode {
        path: "C:\\d\\sub\\x".to_string(),
        name: "x".to_string(),
        is_dir: false,
        is_file: false,
        bytes: 99,
        modified_epoch: Some(100),
        children: vec![],
    };
    let root = dir(
        "C:\\d",
        vec![
            timed("C:\\d\\a", 10, Some(5)),
            dir("C:\\d\\sub", vec![timed("C:\\d\\sub\\b", 20, Some(9)), unreadable]),
            timed("C:\\d\\c", 1, None),
        ],
    );
    assert_eq!(fingerprint_dropped_directory(&root), (31, Some(9)));
    assert_eq!(fingerprint_dropped_directory(&dir("C:\\e", vec![])), (0, None));
}
