use drift::category::{resolve, Category, CategoryMap, FileEntry};
use drift::engine::{
    file_progress_list, is_finished, is_not_found_error, pick_save_path, progress_downloaded, rate_limit_bps,
    FileFacts, Source, TorrentMetadata,
};
use drift::magnet::InfoHash;
use std::path::PathBuf;

#[test]
fn pick_save_path_uses_category() {
    let map = CategoryMap::default();
    let files = vec![FileEntry { path: "movie.mkv".into(), size: 1 }];
    let cat = resolve(&files, &map);
    assert_eq!(cat, Category::Video);
    let meta = TorrentMetadata { infohash: InfoHash("0".repeat(40)), name: "movie".into(), total_size: 1, files };
    let p = pick_save_path("C:/Downloads/Drift", &meta, &map);
    assert_eq!(PathBuf::from(p), PathBuf::from("C:/Downloads/Drift/Video"));
}

#[test]
fn from_files_sums_sizes() {
    let files = vec![
        FileEntry { path: "a.bin".into(), size: 10 },
        FileEntry { path: "b.bin".into(), size: 32 },
    ];
    let m = TorrentMetadata::from_files(InfoHash("0".repeat(40)), "x".into(), files);
    assert_eq!(m.total_size, 42);
    assert_eq!(m.files.len(), 2);
}

#[test]
fn source_from_input_tells_magnet_from_file() {
    match Source::from_input("magnet:?xt=urn:btih:abc") {
        Source::Magnet(m) => assert_eq!(m, "magnet:?xt=urn:btih:abc"),
        Source::TorrentFile(_) => panic!("expected a magnet"),
    }
    match Source::from_input("C:/x/file.torrent") {
        Source::TorrentFile(p) => assert_eq!(p, "C:/x/file.torrent"),
        Source::Magnet(_) => panic!("expected a file"),
    }
}

#[test]
fn file_progress_list_skips_padding_and_keeps_indices() {
    let files = vec![
        FileFacts { path: "a.mkv".into(), size: 100, padding: false },
        FileFacts { path: ".pad/1".into(), size: 7, padding: true },
        FileFacts { path: "b.srt".into(), size: 5, padding: false },
    ];
    let done = vec![40, 7];
    let sel = vec![2usize];
    let list = file_progress_list(&files, &done, Some(&sel));
    assert_eq!(list.len(), 2);
    assert_eq!(list[0].index, 0);
    assert_eq!(list[0].path, "a.mkv");
    assert_eq!(list[0].downloaded, 40);
    assert!(!list[0].selected);
    assert_eq!(list[1].index, 2);
    assert_eq!(list[1].size, 5);
    assert_eq!(list[1].downloaded, 0);
    assert!(list[1].selected);
    let all = file_progress_list(&files, &done, None);
    assert!(all.iter().all(|f| f.selected));
}

#[test]
fn rate_limit_zero_is_unlimited() {
    assert_eq!(rate_limit_bps(0), None);
}

#[test]
fn rate_limit_is_kib_per_second() {
    assert_eq!(rate_limit_bps(1), Some(1024));
    assert_eq!(rate_limit_bps(500), Some(512_000));
}

#[test]
fn rate_limit_saturates() {
    assert_eq!(rate_limit_bps(u32::MAX), Some(u32::MAX));
    assert_eq!(rate_limit_bps(4_194_304), Some(u32::MAX));
    assert_eq!(rate_limit_bps(4_194_303), Some(4_294_966_272));
}

#[test]
fn progress_downloaded_takes_the_larger_figure() {
    assert_eq!(progress_downloaded(100, &[30, 20]), 100);
    assert_eq!(progress_downloaded(10, &[30, 20]), 50);
    assert_eq!(progress_downloaded(7, &[]), 7);
}

#[test]
fn finished_when_engine_says_so_or_all_bytes_done() {
    assert!(is_finished(true, 0, 0));
    assert!(is_finished(false, 100, 100));
    assert!(!is_finished(false, 100, 99));
    assert!(!is_finished(false, 0, 0));
}

#[test]
fn not_found_messages_are_recognised_in_any_case() {
    assert!(is_not_found_error("Torrent NOT FOUND"));
    assert!(is_not_found_error("file Does Not Exist"));
    assert!(is_not_found_error("no such torrent"));
    assert!(!is_not_found_error("permission denied"));
    assert!(!is_not_found_error(""));
}
