use std::time::{SystemTime, UNIX_EPOCH};
use sts2_manager::model::{ModKind, ModRecord, ModSource};
use sts2_manager::rows::download_state;

fn now() -> u64 {
    SystemTime::now().duration_since(UNIX_EPOCH).expect("clock").as_secs()
}

fn vortex_archive(modified: Option<u64>) -> ModRecord {
    ModRecord {
        key: "external:AkiSister".to_string(),
        name: "AkiSister".to_string(),
        path: r"C:\Users\angel\AppData\Roaming\Vortex\downloads\slaythespire2\AkiSister.rar".to_string(),
        source: ModSource::ExternalManager,
        kind: ModKind::Archive,
        version_hint: None,
        bytes: 1024,
        modified_epoch: modified,
    }
}

#[test]
fn recent_vortex_download_archive_is_marked_downloading() {
    let t = now();
    let record = vortex_archive(Some(t));
    assert_eq!(download_state(&record, t).as_deref(), Some("downloading"));
}

#[test]
fn settled_or_other_records_are_not_downloading() {
    let t = now();
    assert_eq!(download_state(&vortex_archive(Some(t - 3600)), t), None);
    assert_eq!(download_state(&vortex_archive(None), t), None);
    let mut game = vortex_archive(Some(t));
    game.source = ModSource::GameMods;
    assert_eq!(download_state(&game, t), None);
    let mut elsewhere = vortex_archive(Some(t));
    elsewhere.path = r"C:\mods\AkiSister.rar".to_string();
    assert_eq!(download_state(&elsewhere, t), None);
}
