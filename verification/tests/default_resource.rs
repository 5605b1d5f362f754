use sts2_manager::detect::{default_translation_resource_path, LanguageCandidate};

fn cand(path: &str, keys: usize, hardcoded: bool) -> LanguageCandidate {
    LanguageCandidate { path: path.to_string(), keys, hardcoded }
}

#[test]
fn default_resource_is_the_language_folder_with_most_keys() {
    let cands = vec![
        cand(r"mod\localization\eng\cards.json", 10, false),
        cand(r"mod\localization\eng\relics.json", 5, false),
        cand(r"mod\localization\zhs\cards.json", 12, false),
        cand(r"mod\localization\zhs\code.gd", 100, true),
        cand(r"readme.json", 50, false),
    ];
    assert_eq!(default_translation_resource_path(&cands).as_deref(), Some(r"mod\localization\eng"));
}

#[test]
fn default_resource_ties_go_to_more_files_then_first_path() {
    let more_files = vec![
        cand(r"m\localization\zhs\a.json", 15, false),
        cand(r"m\localization\eng\a.json", 10, false),
        cand(r"m\localization\eng\b.json", 5, false),
    ];
    assert_eq!(default_translation_resource_path(&more_files).as_deref(), Some(r"m\localization\eng"));
    let same = vec![cand(r"m\localization\zhs\a.json", 3, false), cand(r"m\localization\eng\a.json", 3, false)];
    assert_eq!(default_translation_resource_path(&same).as_deref(), Some(r"m\localization\eng"));
    assert_eq!(default_translation_resource_path(&vec![cand("a.json", 1, false)]), None);
}

#[test]
fn default_resource_is_shown_as_a_resource_path_inside_pck_contents() {
    let cands = vec![cand(r"C:\s\Aki.pck.contents\Aki\localization\eng\cards.json", 2, false)];
    let shown = default_translation_resource_path(&cands).expect("path");
    assert!(shown.starts_with("res://"), "{shown}");
    assert!(shown.ends_with("localization/eng"), "{shown}");
}
