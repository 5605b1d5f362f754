use sts2_manager::cache::FsNode;
use sts2_manager::dashboard::{default_user_workspace_dir, resolve_workspace_dir};
use sts2_manager::logs::{tail_lines, tail_start};
use sts2_manager::settings::{check_settings_to_save, settings_to_save, with_mod_view_mode};
use sts2_manager::walk::{extraction_scan_plan, language_preview_extract_dir, scan_root_after_unpack, ScanPlan};

fn fnv(text: &str) -> u64 {
    let mut hash = 0xcbf29ce484222325u64;
    for b in text.as_bytes() {
        hash = (hash ^ (*b as u64)).wrapping_mul(0x100000001b3);
    }
    hash
}

#[test]
fn workspace_comes_from_the_first_set_variable() {
    assert_eq!(
        default_user_workspace_dir(Some(""), Some("C:\\Users\\u\\AppData\\Roaming"), Some("/x"), None, None),
        "C:\\Users\\u\\AppData\\Roaming\\STS2-Mod-Translation-Manager"
    );
    assert_eq!(
        default_user_workspace_dir(None, None, None, Some("/home/u"), Some("/tmp")),
        "\\home\\u\\.local\\share\\STS2-Mod-Translation-Manager"
    );
    assert_eq!(default_user_workspace_dir(None, None, None, None, None), ".\\STS2-Mod-Translation-Manager");
    assert_eq!(
        resolve_workspace_dir(Some("D:\\ws"), Some("E:\\p".to_string()), None, "F:\\a".to_string()),
        "D:\\ws"
    );
    assert_eq!(resolve_workspace_dir(Some(""), None, None, "F:\\a".to_string()), "F:\\a");
    assert_eq!(resolve_workspace_dir(None, Some("E:\\p".to_string()), Some("G:\\d".to_string()), "F:\\a".to_string()), "E:\\p");
}

#[test]
fn log_tail_keeps_the_last_lines() {
    assert_eq!(tail_start(100), 0);
    assert_eq!(tail_start(262_144 + 5), 5);
    let text: String = (0..300).map(|i| format!("line {i}\n")).collect();
    let tail = tail_lines(&text);
    assert_eq!(tail.len(), 260);
    assert_eq!(tail[0], "line 40");
    assert_eq!(tail[259], "line 299");
    assert_eq!(tail_lines("a\r\nb"), vec!["a".to_string(), "b".to_string()]);
}

#[test]
fn saved_settings_are_trimmed_and_checked() {
    let s = settings_to_save(" D:\\work ", " ko ", "", " C:\\log.txt ", "", " ", 999, 0, 400, "Simple");
    assert_eq!(s.translation_work_dir, "D:\\work");
    assert_eq!(s.target_language, "kor");
    assert_eq!(s.game_log_path, "C:\\log.txt");
    assert_eq!(s.save_backup_dir, "");
    assert_eq!(s.save_backup_retention_days, 365);
    assert_eq!(s.save_backup_max_entries, 1);
    assert_eq!(s.deleted_retention_days, 365);
    assert_eq!(s.mod_view_mode, "simple");
    assert_eq!(check_settings_to_save(&s, true, true, true), Err("게임 실행 중에는 설정을 변경할 수 없습니다.".to_string()));
    assert_eq!(check_settings_to_save(&s, false, false, false), Err("게임 로그 파일 경로가 올바르지 않습니다.".to_string()));
    assert_eq!(check_settings_to_save(&s, false, false, true), Ok(()));
    let s = with_mod_view_mode(s, "other");
    assert_eq!(s.mod_view_mode, "detail");
    let t = settings_to_save("", "eng", "C:\\g.exe", "", "", "", 1, 1, 1, "detail");
    assert_eq!(check_settings_to_save(&t, false, false, true), Err("게임 실행 파일 경로가 올바르지 않습니다.".to_string()));
}

fn node(path: &str, is_dir: bool, children: Vec<FsNode>) -> FsNode {
    let name = path.rsplit('\\').next().unwrap_or(path).to_string();
    FsNode { path: path.to_string(), name, is_dir, is_file: !is_dir, bytes: 0, modified_epoch: None, children }
}

#[test]
fn scan_plan_follows_the_source_kind() {
    let dest = language_preview_extract_dir("C:\\ws", "k1");
    assert_eq!(dest, format!("C:\\ws\\state\\language_preview_extract\\scan-{:016x}", fnv("k1")));
    let with_pck = node("C:\\m", true, vec![node("C:\\m\\a.pck", false, vec![])]);
    match extraction_scan_plan(&with_pck, "C:\\ws", "k1", false, false) {
        ScanPlan::Unpack { destination, from_folder, clear_first } => {
            assert_eq!(destination, dest);
            assert!(from_folder);
            assert!(clear_first);
        }
        _ => panic!("a folder with a PCK is unpacked"),
    }
    match extraction_scan_plan(&with_pck, "C:\\ws", "k1", true, true) {
        ScanPlan::Unpack { destination, clear_first, .. } => {
            assert_eq!(destination, format!("C:\\ws\\state\\language_preview_extract\\scan-{:016x}", fnv("k1-full")));
            assert!(!clear_first);
        }
        _ => panic!("a folder with a PCK is unpacked"),
    }
    let plain = node("C:\\m", true, vec![node("C:\\m\\a.json", false, vec![])]);
    let plan = extraction_scan_plan(&plain, "C:\\ws", "k1", false, false);
    assert!(matches!(plan, ScanPlan::UseSource));
    assert_eq!(scan_root_after_unpack(&plan, "C:\\m", false, false), Some("C:\\m".to_string()));
    let zip = node("C:\\m.zip", false, vec![]);
    let plan = extraction_scan_plan(&zip, "C:\\ws", "k1", false, false);
    assert!(matches!(plan, ScanPlan::Unpack { from_folder: false, .. }));
    assert_eq!(scan_root_after_unpack(&plan, "C:\\m.zip", false, false), None);
    assert_eq!(scan_root_after_unpack(&plan, "C:\\m.zip", false, true), Some(dest));
    let txt = node("C:\\m.txt", false, vec![]);
    assert!(matches!(extraction_scan_plan(&txt, "C:\\ws", "k1", false, false), ScanPlan::Nothing));
}
