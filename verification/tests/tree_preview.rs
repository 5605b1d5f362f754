use sts2_manager::detect::{
    applied_language_preview, extraction_target, infer_language_code, language_previews_from_candidates,
    merge_applied_preview, sort_language_previews, translation_state, LanguageCandidate,
};
use sts2_manager::preview_cache::{
    cache_get, cache_set, language_cache_key, read_language_preview_cache, vendor_extractor_signature,
    write_language_preview_cache, LanguagePreviewCache,
};
use sts2_manager::rows::{ExtractionTreeNodeDto, LanguagePreviewDto};
use sts2_manager::tree::{named, root, single_file_tree, tree_display_paths, tree_file_kind, tree_source_paths};

fn lang(code: &str, label: &str, files: usize, keys: usize, sample: &str) -> LanguagePreviewDto {
    LanguagePreviewDto {
        code: code.to_string(),
        label: label.to_string(),
        files,
        keys,
        sample_path: sample.to_string(),
    }
}

fn names(nodes: &[ExtractionTreeNodeDto]) -> Vec<&str> {
    nodes.iter().map(|n| n.name.as_str()).collect()
}

#[test]
fn tree_paths_follow_each_level() {
    let comps = vec!["Aki".to_string(), "localization".to_string(), "eng".to_string()];
    assert_eq!(
        tree_source_paths(&comps, r"C:\scan\Aki\localization\eng"),
        vec![r"C:\scan\Aki".to_string(), r"C:\scan\Aki\localization".to_string(), r"C:\scan\Aki\localization\eng".to_string()]
    );
    assert_eq!(
        tree_display_paths(&comps, "res://Aki/localization/eng", r"C:\x"),
        vec!["res://Aki".to_string(), "res://Aki/localization".to_string(), "res://Aki/localization/eng".to_string()]
    );
}

#[test]
fn extraction_tree_directory_nodes_keep_resource_paths() {
    let mut tree = named("res://", "res://");
    tree.insert_display(
        r"AkiSister\localization\zhs\cards.json",
        "res://AkiSister/localization/zhs/cards.json",
        r"C:\scan\AkiSister.pck.contents\AkiSister\localization\zhs\cards.json",
        "language",
    );
    let dto = tree.into_dto();
    assert_eq!(dto.name, "res://");
    let aki = &dto.children[0];
    assert_eq!(aki.path, "res://AkiSister");
    let loc = &aki.children[0];
    assert_eq!(loc.path, "res://AkiSister/localization");
    assert_eq!(loc.kind, "dir");
    let zhs = &loc.children[0];
    assert_eq!(zhs.path, "res://AkiSister/localization/zhs");
    assert_eq!(zhs.source_path, r"C:\scan\AkiSister.pck.contents\AkiSister\localization\zhs");
    assert_eq!(zhs.children[0].kind, "language");
}

#[test]
fn tree_children_are_sorted_and_merged() {
    let mut tree = root();
    tree.insert(r"b\x.json", r"C:\s\b\x.json", "file");
    tree.insert(r"a\y.json", r"C:\s\a\y.json", "language");
    tree.insert(r"b\w.json", r"C:\s\b\w.json", "hardcoded");
    let children = tree.into_children();
    assert_eq!(names(&children), vec!["a", "b"]);
    assert_eq!(names(&children[1].children), vec!["w.json", "x.json"]);
    assert_eq!(children[1].children[0].kind, "hardcoded");
    assert_eq!(children[1].path, r"C:\s\b");
}

#[test]
fn tree_file_kinds_and_single_file() {
    let langs = vec![r"C:\s\a.json".to_string()];
    let hard = vec![r"C:\s\b.dll".to_string()];
    assert_eq!(tree_file_kind(r"C:\s\a.json", &langs, &hard), "language");
    assert_eq!(tree_file_kind(r"C:\s\b.dll", &langs, &hard), "hardcoded");
    assert_eq!(tree_file_kind(r"C:\s\c.txt", &langs, &hard), "file");
    let one = single_file_tree(r"C:\m\readme.txt");
    assert_eq!(one.len(), 1);
    assert_eq!(one[0].name, "readme.txt");
    assert_eq!(one[0].kind, "file");
}

#[test]
fn preview_cache_round_trips_through_text() {
    let cache = LanguagePreviewCache {
        entries: vec![
            ("a-key".to_string(), vec![lang("en", "English", 2, 10, "res://x\ty.json"), lang("ko", "한국어", 1, 3, "p")]),
            ("b-key".to_string(), Vec::new()),
        ],
        dirty: false,
    };
    let text = write_language_preview_cache(&cache);
    assert_eq!(
        text,
        "a-key\ten\tEnglish\t2\t10\tres://x\\ty.json\na-key\tko\t한국어\t1\t3\tp\nb-key\t__none__\t\t0\t\n"
    );
    let back = read_language_preview_cache(&text);
    assert!(!back.dirty);
    assert_eq!(back.entries.len(), 2);
    assert_eq!(back.entries[0].0, "a-key");
    assert_eq!(back.entries[0].1.len(), 2);
    assert_eq!(back.entries[0].1[0].sample_path, "res://x\ty.json");
    assert_eq!(back.entries[0].1[1].label, "한국어");
    assert!(back.entries[1].1.is_empty());
}

#[test]
fn preview_cache_reading_skips_and_defaults() {
    let text = "k\ten\tEnglish\tx\ty\tp\nk\t\t\t0\t0\t\nbad line\nz\t__none__\t\t0\t\nk\tja\t日本語\t3\tq\ts\n";
    let cache = read_language_preview_cache(text);
    assert_eq!(cache.entries.len(), 2);
    assert_eq!(cache.entries[0].0, "k");
    let k = &cache.entries[0].1;
    assert_eq!(k.len(), 2);
    assert_eq!(k[0].files, 0);
    assert_eq!(k[0].keys, 0);
    assert_eq!(k[1].files, 3);
    assert_eq!(k[1].keys, 3);
    assert_eq!(cache.entries[1].0, "z");
}

#[test]
fn preview_cache_get_after_set() {
    let mut cache = read_language_preview_cache("");
    cache_set(&mut cache, "m".to_string(), vec![lang("en", "English", 1, 1, "a")]);
    cache_set(&mut cache, "c".to_string(), Vec::new());
    assert!(cache.dirty);
    assert_eq!(cache.entries[0].0, "c");
    assert_eq!(cache_get(&cache, "m").map(|v| v.len()), Some(1));
    cache_set(&mut cache, "m".to_string(), Vec::new());
    assert_eq!(cache_get(&cache, "m").map(|v| v.len()), Some(0));
    assert!(cache_get(&cache, "zz").is_none());
}

#[test]
fn language_code_comes_from_path_tokens() {
    assert_eq!(infer_language_code(r"C:\m\localization\kor\cards.json"), Some("kor".to_string()));
    assert_eq!(infer_language_code(r"C:\m\strings_zhs.json"), Some("zh-cn".to_string()));
    assert_eq!(infer_language_code(r"C:\m\data\cards.json"), None);
}

#[test]
fn previews_are_counted_and_ordered() {
    let cands = vec![
        LanguageCandidate { path: r"C:\m\localization\eng\a.json".to_string(), keys: 5, hardcoded: false },
        LanguageCandidate { path: r"C:\m\localization\kor\a.json".to_string(), keys: 7, hardcoded: false },
        LanguageCandidate { path: r"C:\m\localization\eng\b.json".to_string(), keys: 4, hardcoded: false },
        LanguageCandidate { path: r"C:\m\game.dll".to_string(), keys: 100, hardcoded: true },
        LanguageCandidate { path: r"C:\m\misc\c.json".to_string(), keys: 0, hardcoded: false },
    ];
    let p = language_previews_from_candidates(&cands);
    assert_eq!(p.iter().map(|l| l.code.as_str()).collect::<Vec<_>>(), vec!["en", "kor", "unknown"]);
    assert_eq!(p[0].files, 2);
    assert_eq!(p[0].keys, 9);
    assert_eq!(p[0].label, "English");
    assert_eq!(p[2].label, "Unknown");
}

#[test]
fn previews_sort_by_keys_files_code() {
    let v = vec![lang("b", "B", 1, 5, ""), lang("a", "A", 2, 5, ""), lang("c", "C", 2, 5, ""), lang("a", "A2", 9, 1, "")];
    let s = sort_language_previews(&v);
    assert_eq!(s.iter().map(|l| l.label.as_str()).collect::<Vec<_>>(), vec!["A", "C", "B", "A2"]);
}

#[test]
fn applied_language_replaces_detected_one() {
    let detected = vec![lang("en", "English", 1, 1, "e"), lang("kor", "old", 1, 1, "k")];
    let applied = applied_language_preview("kor", 0, 50, "res://k".to_string());
    assert_eq!(applied.files, 1);
    assert_eq!(applied.label, "한국어");
    let merged = merge_applied_preview(detected, applied);
    assert_eq!(merged.len(), 2);
    assert_eq!(merged[0].code, "kor");
    assert_eq!(merged[0].keys, 50);
}

#[test]
fn translation_state_and_target_describe_rows() {
    let two = vec![lang("en", "English", 1, 1, ""), lang("ko", "한국어", 1, 1, "")];
    assert_eq!(
        translation_state(r"C:\m\a.zip", &two, false, false),
        ("2개 언어".to_string(), "English, 한국어 자동 감지".to_string())
    );
    assert_eq!(translation_state(r"C:\m\a.ZIP", &Vec::new(), false, false).1, "ZIP 내부에서 localization 언어 파일을 찾지 못함");
    assert_eq!(translation_state(r"C:\m\a.dll", &Vec::new(), true, false).0, "하드코딩");
    assert_eq!(translation_state(r"C:\m\folder", &Vec::new(), false, true).1, "폴더에서 localization 언어 파일을 찾지 못함");
    assert_eq!(translation_state(r"C:\m\x.bin", &Vec::new(), false, false), ("검토 필요".to_string(), "지원 형식 확인 필요".to_string()));
    assert_eq!(extraction_target(r"C:\m\a.pck", &two, false, false), "English, 한국어 언어 파일 2개");
    assert_eq!(extraction_target(r"C:\m\a.pak", &Vec::new(), false, false), "PCK 내부 파일");
}

#[test]
fn cache_keys_name_the_mod_and_its_tools() {
    let sig = vendor_extractor_signature(Some((10, 20)), None);
    assert_eq!(sig, "7z.exe:10:20|GodotPCKExplorer.Console.exe:missing");
    assert_eq!(
        language_cache_key("game", "game:Foo", 99, None, "C:\\mods\\Foo", "C:\\mods\\Foo\\Foo.pck", &sig),
        "sts2-localization-v4|game|game:Foo|99|0|C:\\mods\\Foo|C:\\mods\\Foo\\Foo.pck|7z.exe:10:20|GodotPCKExplorer.Console.exe:missing"
    );
    assert!(language_cache_key("a", "b", 1, Some(7), "p", "s", "v").ends_with("|1|7|p|s|v"));
}
