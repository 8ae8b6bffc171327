use drift::category::{category_totals_fit, resolve, try_resolve, Category, CategoryMap, FileEntry};
use drift::commands::{already_has_top_level_folder, try_add_destination, try_decide_save_path, AddError};
use drift::engine::{try_pick_save_path, TorrentMetadata};
use drift::magnet::InfoHash;
use drift::state::{StateStore, TorrentRecord, TorrentState};
use drift::text::is_whitespace;
use std::path::PathBuf;

fn f(path: &str, size: u64) -> FileEntry {
    FileEntry { path: path.into(), size }
}

fn meta(ih: &str, files: Vec<FileEntry>) -> TorrentMetadata {
    TorrentMetadata { infohash: InfoHash(ih.into()), name: "Pack".into(), total_size: 0, files }
}

#[test]
fn ties_are_broken_among_present_categories() {
    let m = CategoryMap::default();
    assert_eq!(resolve(&[f("a.xyz", 0), f("b.xyz", 0)], &m), Category::Other);
    assert_eq!(resolve(&[f("a.xyz", 0), f("b.pdf", 0)], &m), Category::Documents);
    assert_eq!(resolve(&[f("a.jpg", 0), f("b.mp3", 0), f("c.mkv", 1)], &m), Category::Video);
}

#[test]
fn single_nested_file_is_wrapped() {
    assert!(already_has_top_level_folder(&[f("Folder/a.bin", 1)]));
    assert!(!already_has_top_level_folder(&[]));
}

#[test]
fn category_totals_may_exceed_the_sum_bound_only_per_category() {
    let m = CategoryMap::default();
    let split = [f("a.mkv", u64::MAX), f("b.pdf", 1)];
    assert!(category_totals_fit(&split, &m));
    assert_eq!(try_resolve(&split, &m), Some(Category::Video));
    let same = [f("a.mkv", u64::MAX), f("b.mkv", 1)];
    assert!(!category_totals_fit(&same, &m));
    assert_eq!(try_resolve(&same, &m), None);
}

#[test]
fn checked_save_paths() {
    let map = CategoryMap::default();
    let too_big = meta("x", vec![f("a.mkv", u64::MAX), f("b.mkv", 1)]);
    assert_eq!(try_decide_save_path("C:/D", &too_big, &map), None);
    assert_eq!(try_pick_save_path("C:/D", &too_big, &map), None);
    let nested = meta("x", vec![f("d/a.mkv", u64::MAX), f("d/b.mkv", 1)]);
    assert_eq!(try_decide_save_path("C:/D", &nested, &map).map(PathBuf::from), Some(PathBuf::from("C:/D/Other")));
    let fine = meta("x", vec![f("a.mkv", 5)]);
    assert_eq!(try_pick_save_path("C:/D", &fine, &map).map(PathBuf::from), Some(PathBuf::from("C:/D/Video")));
}

#[test]
fn stored_torrent_is_refused_before_sizing() {
    let mut store = StateStore::new();
    store.upsert(TorrentRecord {
        infohash: "x".into(),
        display_name: "x".into(),
        save_path: "C:/".into(),
        state: TorrentState::Seeding,
        added_at: 0,
        total_size: 0,
        selected_files: None,
        queue_position: 0,
        forced: false,
        dl_limit: 0,
        ul_limit: 0,
    });
    let map = CategoryMap::default();
    let too_big = meta("x", vec![f("a.mkv", u64::MAX), f("b.mkv", 1)]);
    assert_eq!(try_add_destination(&store, &too_big, None, "C:/D", &map), Some(Err(AddError::AlreadyAdded)));
    let other = meta("y", vec![f("a.mkv", u64::MAX), f("b.mkv", 1)]);
    assert_eq!(try_add_destination(&store, &other, None, "C:/D", &map), None);
    assert_eq!(
        try_add_destination(&store, &other, Some("E:/Mine".into()), "C:/D", &map),
        Some(Ok("E:/Mine".to_string()))
    );
}

#[test]
fn white_space_is_the_unicode_set() {
    assert!(is_whitespace(' '));
    assert!(is_whitespace('\u{0B}'));
    assert!(is_whitespace('\u{85}'));
    assert!(is_whitespace('\u{A0}'));
    assert!(is_whitespace('\u{2009}'));
    assert!(is_whitespace('\u{3000}'));
    assert!(!is_whitespace('\u{1C}'));
    assert!(!is_whitespace('\u{200B}'));
    assert!(!is_whitespace('a'));
    for c in ['\t', '\n', '\r', ' ', '\u{85}', '\u{A0}', '\u{1680}', '\u{2000}', '\u{200A}', '\u{2028}', '\u{2029}', '\u{202F}', '\u{205F}', '\u{3000}', 'x', '\u{1C}', '\u{180E}'] {
        assert_eq!(is_whitespace(c), c.is_whitespace());
    }
}

#[test]
fn white_space_matches_std_on_every_char() {
    for v in 0u32..=0x10FFFF {
        if let Some(c) = char::from_u32(v) {
            assert_eq!(is_whitespace(c), c.is_whitespace(), "U+{v:04X}");
        }
    }
}

fn item(ih: &str, forced: bool, pos: u32, running: bool) -> drift::queue::QueueItem {
    drift::queue::QueueItem {
        infohash: ih.into(),
        desired: drift::queue::Desired::Run,
        forced,
        position: pos,
        finished: false,
        running_now: running,
    }
}

#[test]
fn larger_cap_asks_no_less() {
    let items = vec![item("a", false, 0, true), item("b", false, 1, true), item("c", false, 2, false), item("d", true, 3, false)];
    let small = drift::queue::decide(&items, 1);
    let large = drift::queue::decide(&items, 3);
    assert!(small.to_start.iter().all(|x| large.to_start.contains(x)));
    assert!(large.to_pause.iter().all(|x| small.to_pause.contains(x)));
    assert!(drift::queue::decide(&items, 0).to_pause.is_empty());
}

#[test]
fn carrying_out_a_plan_leaves_nothing_to_do() {
    let mut items = vec![item("a", false, 2, true), item("b", false, 0, false), item("c", true, 5, false)];
    let plan = drift::queue::decide(&items, 1);
    for it in items.iter_mut() {
        if plan.to_start.contains(&it.infohash) {
            it.running_now = true;
        } else if plan.to_pause.contains(&it.infohash) {
            it.running_now = false;
        }
    }
    let again = drift::queue::decide(&items, 1);
    assert!(again.to_start.is_empty() && again.to_pause.is_empty());
}

#[test]
fn upserts_keep_their_order() {
    let mut s = StateStore::new();
    for ih in ["c", "a", "b"] {
        s.upsert(TorrentRecord {
            infohash: ih.into(),
            display_name: ih.into(),
            save_path: "C:/".into(),
            state: TorrentState::Downloading,
            added_at: 0,
            total_size: 0,
            selected_files: None,
            queue_position: 0,
            forced: false,
            dl_limit: 0,
            ul_limit: 0,
        });
    }
    let names: Vec<String> = s.snapshot().torrents.into_iter().map(|r| r.infohash).collect();
    assert_eq!(names, vec!["c", "a", "b"]);
}

#[test]
fn bare_names_take_the_text_after_the_last_dot() {
    let m = CategoryMap::default();
    assert_eq!(resolve(&[f("..mkv", 1)], &m), Category::Video);
    assert_eq!(resolve(&[f(".mkv", 1)], &m), Category::Other);
    assert_eq!(resolve(&[f("a.mkv.", 1)], &m), Category::Other);
    assert_eq!(resolve(&[f("a.b.FLAC", 1)], &m), Category::Audio);
}
