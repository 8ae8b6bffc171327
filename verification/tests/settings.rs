use drift::category::CategoryMap;
use drift::events::TorrentDto;
use drift::engine::ProgressUpdate;
use drift::magnet::InfoHash;
use drift::settings::{default_max_active, default_theme, default_true, SerCategoryMap};
use drift::state::{TorrentRecord, TorrentState};

#[test]
fn settings_defaults() {
    assert_eq!(default_max_active(), 3);
    assert_eq!(default_theme(), "system");
    assert!(default_true());
}

#[test]
fn category_map_round_trips_through_its_stored_form() {
    let stored: SerCategoryMap = CategoryMap::default().into();
    assert_eq!(stored.video[0], "mp4");
    let back: CategoryMap = stored.into();
    assert_eq!(back.audio, CategoryMap::default().audio);
    assert_eq!(back.programs, CategoryMap::default().programs);
}

fn record() -> TorrentRecord {
    TorrentRecord {
        infohash: "ih".into(),
        display_name: "Name".into(),
        save_path: "C:/".into(),
        state: TorrentState::Queued,
        added_at: 42,
        total_size: 1000,
        selected_files: None,
        queue_position: 0,
        forced: false,
        dl_limit: 0,
        ul_limit: 0,
    }
}

#[test]
fn dto_from_record() {
    let d = TorrentDto::from_record(&record());
    assert_eq!(d.infohash, "ih");
    assert_eq!(d.name, "Name");
    assert_eq!(d.total, 1000);
    assert_eq!(d.downloaded, 0);
    assert_eq!(d.added_at, 42);
    assert_eq!(d.state_label, "queued");
}

#[test]
fn dto_from_progress() {
    let u = ProgressUpdate {
        infohash: InfoHash("ih".into()),
        downloaded: 10,
        total: 1000,
        uploaded: 5,
        down_bps: 7,
        up_bps: 3,
        peers: 2,
        state_label: "downloading".into(),
    };
    let d = TorrentDto::from_progress(&u, Some(&record()));
    assert_eq!(d.name, "Name");
    assert_eq!(d.added_at, 42);
    assert_eq!(d.downloaded, 10);
    assert_eq!(d.peers, 2);
    assert_eq!(d.state_label, "downloading");
    let d = TorrentDto::from_progress(&u, None);
    assert_eq!(d.name, "");
    assert_eq!(d.added_at, 0);
}
