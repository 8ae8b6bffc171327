use drift::category::{CategoryMap, FileEntry};
use drift::clipboard::toast_position;
use drift::commands::{add_destination, new_record, AddError};
use drift::engine::{torrent_name, TorrentMetadata};
use drift::magnet::InfoHash;
use drift::persist::{backup_path, decimal_text, load_outcome, LoadOutcome};
use drift::progress::{apply_label, LabelMemo};
use drift::settings::default_download_root;
use drift::state::{resumable, StateStore, TorrentRecord, TorrentState};
use drift::tray::{menu_action, TrayAction};
use drift::updater::{update_prompt, UpdateAction, UpdateEvent, UpdateFlow};
use std::path::PathBuf;

fn rec(ih: &str, state: TorrentState) -> TorrentRecord {
    TorrentRecord {
        infohash: ih.into(),
        display_name: ih.into(),
        save_path: "C:/".into(),
        state,
        added_at: 0,
        total_size: 0,
        selected_files: None,
        queue_position: 0,
        forced: false,
        dl_limit: 0,
        ul_limit: 0,
    }
}

fn meta(ih: &str, files: Vec<FileEntry>) -> TorrentMetadata {
    TorrentMetadata { infohash: InfoHash(ih.into()), name: "Album".into(), total_size: 2, files }
}

#[test]
fn labels_are_acted_on_once() {
    let mut memo = LabelMemo::new();
    let mut store = StateStore::new();
    store.upsert(rec("a", TorrentState::Downloading));
    assert!(!apply_label(&mut memo, &mut store, "a", "downloading"));
    assert!(apply_label(&mut memo, &mut store, "a", "seeding"));
    assert_eq!(store.find("a").unwrap().state, TorrentState::Seeding);
    assert!(!apply_label(&mut memo, &mut store, "a", "seeding"));
    assert!(!apply_label(&mut memo, &mut store, "missing", "completed"));
}

#[test]
fn paused_label_keeps_queued_records_queued() {
    let mut memo = LabelMemo::new();
    let mut store = StateStore::new();
    store.upsert(rec("q", TorrentState::Queued));
    store.upsert(rec("d", TorrentState::Downloading));
    apply_label(&mut memo, &mut store, "q", "paused");
    apply_label(&mut memo, &mut store, "d", "paused");
    apply_label(&mut memo, &mut store, "d", "error");
    assert_eq!(store.find("q").unwrap().state, TorrentState::Queued);
    assert_eq!(store.find("d").unwrap().state, TorrentState::Paused);
}

#[test]
fn update_prompt_text() {
    assert_eq!(
        update_prompt("0.6.0", "0.5.1", Some("Fixes")),
        "Drift 0.6.0 is available (you have 0.5.1).\n\nFixes\n\nDownload and install it now?"
    );
    assert_eq!(
        update_prompt("0.6.0", "0.5.1", Some("  \n")),
        "Drift 0.6.0 is available (you have 0.5.1).\n\nDownload and install it now?"
    );
    assert_eq!(
        update_prompt("0.6.0", "0.5.1", None),
        "Drift 0.6.0 is available (you have 0.5.1).\n\nDownload and install it now?"
    );
}

#[test]
fn later_quiets_automatic_checks_only() {
    let mut f = UpdateFlow::new();
    assert!(matches!(f.step(UpdateEvent::Begin { manual: false }), UpdateAction::Check));
    let ask = f.step(UpdateEvent::Available { version: "0.6.0".into(), current: "0.5.1".into(), notes: None });
    assert!(matches!(ask, UpdateAction::Ask(_)));
    assert!(matches!(f.step(UpdateEvent::Answered { install: false }), UpdateAction::Done));
    assert!(f.deferred);
    assert!(matches!(f.step(UpdateEvent::Begin { manual: false }), UpdateAction::Done));
    assert!(matches!(f.step(UpdateEvent::Begin { manual: true }), UpdateAction::Check));
}

#[test]
fn failures_reported_to_manual_checks() {
    let mut f = UpdateFlow::new();
    f.step(UpdateEvent::Begin { manual: false });
    assert!(matches!(f.step(UpdateEvent::Failed("offline".into())), UpdateAction::Done));
    assert!(matches!(f.step(UpdateEvent::UpToDate), UpdateAction::Done));
    f.step(UpdateEvent::Begin { manual: true });
    match f.step(UpdateEvent::Failed("offline".into())) {
        UpdateAction::ReportError(m) => assert_eq!(m, "offline"),
        other => panic!("unexpected {other:?}"),
    }
    assert!(matches!(f.step(UpdateEvent::UpToDate), UpdateAction::ReportUpToDate));
}

#[test]
fn install_flow_reports_progress_and_restarts() {
    let mut f = UpdateFlow::new();
    f.step(UpdateEvent::Begin { manual: false });
    f.step(UpdateEvent::Available { version: "0.6.0".into(), current: "0.5.1".into(), notes: Some("n".into()) });
    match f.step(UpdateEvent::Answered { install: true }) {
        UpdateAction::Download(v) => assert_eq!(v, "0.6.0"),
        other => panic!("unexpected {other:?}"),
    }
    match f.step(UpdateEvent::Chunk { len: 100, total: Some(300) }) {
        UpdateAction::Progress { downloaded, total } => {
            assert_eq!(downloaded, 100);
            assert_eq!(total, Some(300));
        },
        other => panic!("unexpected {other:?}"),
    }
    match f.step(UpdateEvent::Chunk { len: 50, total: None }) {
        UpdateAction::Progress { downloaded, .. } => assert_eq!(downloaded, 150),
        other => panic!("unexpected {other:?}"),
    }
    match f.step(UpdateEvent::InstallFailed("disk full".into())) {
        UpdateAction::ReportError(m) => assert_eq!(m, "disk full"),
        other => panic!("unexpected {other:?}"),
    }
    assert!(matches!(f.step(UpdateEvent::Installed), UpdateAction::Restart));
    assert!(!f.deferred);
}

#[test]
fn adding_a_known_torrent_is_refused() {
    let mut store = StateStore::new();
    store.upsert(rec("abc", TorrentState::Seeding));
    let map = CategoryMap::default();
    let m = meta("abc", vec![FileEntry { path: "a.mp3".into(), size: 1 }]);
    assert_eq!(add_destination(&store, &m, None, "C:/D", &map), Err(AddError::AlreadyAdded));
    assert_eq!(AddError::AlreadyAdded.code(), "already_added");
}

#[test]
fn add_destination_prefers_the_chosen_folder() {
    let store = StateStore::new();
    let map = CategoryMap::default();
    let files = vec![FileEntry { path: "a.mp3".into(), size: 1 }, FileEntry { path: "b.mp3".into(), size: 1 }];
    let m = meta("new", files);
    assert_eq!(add_destination(&store, &m, Some("E:/Mine".into()), "C:/D", &map), Ok("E:/Mine".to_string()));
    let p = add_destination(&store, &m, None, "C:/D", &map).unwrap();
    assert_eq!(PathBuf::from(p), PathBuf::from("C:/D/Audio/Album"));
}

#[test]
fn new_record_is_downloading_at_the_given_position() {
    let m = meta("abc", vec![]);
    let r = new_record("abc".into(), &m, "C:/D".into(), 99, Some(vec![1]), 7);
    assert_eq!(r.infohash, "abc");
    assert_eq!(r.display_name, "Album");
    assert_eq!(r.state, TorrentState::Downloading);
    assert_eq!(r.added_at, 99);
    assert_eq!(r.total_size, 2);
    assert_eq!(r.selected_files, Some(vec![1]));
    assert_eq!(r.queue_position, 7);
    assert!(!r.forced);
}

#[test]
fn torrent_names_from_bytes() {
    assert_eq!(torrent_name(Some("Ubuntu 24.04".as_bytes())), "Ubuntu 24.04");
    assert_eq!(torrent_name(Some(&[0xff, 0xfe])), "unknown");
    assert_eq!(torrent_name(None), "unknown");
}

#[test]
fn tray_menu_ids() {
    assert_eq!(menu_action("show"), Some(TrayAction::Show));
    assert_eq!(menu_action("pause_all"), Some(TrayAction::PauseAll));
    assert_eq!(menu_action("quit"), Some(TrayAction::Quit));
    assert_eq!(menu_action("other"), None);
}

#[test]
fn startup_resumes_all_but_user_paused() {
    let mut store = StateStore::new();
    store.upsert(rec("a", TorrentState::Downloading));
    store.upsert(rec("b", TorrentState::Paused));
    store.upsert(rec("c", TorrentState::Queued));
    store.upsert(rec("d", TorrentState::Seeding));
    assert_eq!(resumable(&store), vec!["a", "c", "d"]);
}

#[test]
fn toast_sits_above_the_taskbar() {
    assert_eq!(toast_position(1920, 1080), (1544, 904));
    assert_eq!(toast_position(0, 0), (-376, -176));
}

#[test]
fn load_outcomes() {
    assert_eq!(load_outcome(false, false, false), LoadOutcome::Default);
    assert_eq!(load_outcome(true, false, false), LoadOutcome::Default);
    assert_eq!(load_outcome(true, true, true), LoadOutcome::Parsed);
    assert_eq!(load_outcome(true, true, false), LoadOutcome::BackUpThenDefault);
}

#[test]
fn decimal_numbers() {
    assert_eq!(decimal_text(0), "0");
    assert_eq!(decimal_text(7), "7");
    assert_eq!(decimal_text(1_717_000_000_123), "1717000000123");
    assert_eq!(decimal_text(u128::MAX), u128::MAX.to_string());
}

#[test]
fn backup_sits_beside_the_corrupt_file() {
    assert_eq!(
        PathBuf::from(backup_path("/data/Drift/state.json", 42)),
        PathBuf::from("/data/Drift/state.json.corrupt-42.bak")
    );
    assert_eq!(
        PathBuf::from(backup_path("/data/Drift/config.json", 1000)),
        PathBuf::from("/data/Drift/config.json.corrupt-1000.bak")
    );
}

#[test]
fn download_root_default() {
    assert_eq!(PathBuf::from(default_download_root(Some("/home/u".into()))), PathBuf::from("/home/u/Downloads/Drift"));
    assert_eq!(PathBuf::from(default_download_root(None)), PathBuf::from("C:/Downloads/Drift"));
}
