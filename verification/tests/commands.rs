use drift::category::{Category, CategoryMap, FileEntry};
use drift::commands::{already_has_top_level_folder, decide_save_path, has_internal_folders, sanitize_for_windows};
use drift::engine::TorrentMetadata;
use drift::magnet::InfoHash;
use std::path::PathBuf;

fn f(p: &str, size: u64) -> FileEntry {
    FileEntry { path: p.into(), size }
}

fn meta(name: &str, files: Vec<FileEntry>) -> TorrentMetadata {
    let total = files.iter().map(|f| f.size).sum();
    TorrentMetadata {
        infohash: InfoHash("0".repeat(40)),
        name: name.into(),
        total_size: total,
        files,
    }
}

#[test]
fn flat_files_have_no_internal_folders() {
    assert!(!has_internal_folders(&[f("a.bin", 1), f("b.bin", 1)]));
}

#[test]
fn nested_paths_have_internal_folders() {
    assert!(has_internal_folders(&[f("sub/a.bin", 1)]));
    assert!(has_internal_folders(&[f("sub\\a.bin", 1)]));
}

#[test]
fn mixed_flat_and_nested_have_internal_folders() {
    assert!(has_internal_folders(&[f("a.bin", 1), f("sub/b.bin", 1)]));
}

#[test]
fn single_file_has_no_top_level_folder() {
    assert!(!already_has_top_level_folder(&[f("a.bin", 1)]));
}

#[test]
fn flat_multi_file_has_no_top_level_folder() {
    assert!(!already_has_top_level_folder(&[f("a.bin", 1), f("b.bin", 1)]));
}

#[test]
fn fully_wrapped_torrent_has_top_level_folder() {
    assert!(already_has_top_level_folder(&[
        f("MyRelease/a.bin", 1),
        f("MyRelease/b.bin", 1),
    ]));
}

#[test]
fn partially_wrapped_torrent_does_not_count_as_already_wrapped() {
    assert!(!already_has_top_level_folder(&[
        f("images/a.jpg", 1),
        f("images/b.jpg", 1),
        f("README", 1),
    ]));
}

#[test]
fn single_video_file_goes_to_video_no_wrap() {
    let map = CategoryMap::default();
    let m = meta("Some.Movie", vec![f("Some.Movie.mkv", 100)]);
    let p = decide_save_path("C:/D", &m, &map);
    assert_eq!(PathBuf::from(p), PathBuf::from("C:/D/Video"));
}

#[test]
fn flat_audio_album_goes_to_audio_wrapped() {
    let map = CategoryMap::default();
    let m = meta("MyAlbum", vec![f("01.flac", 100), f("02.flac", 100), f("03.flac", 100)]);
    let p = decide_save_path("C:/D", &m, &map);
    assert_eq!(PathBuf::from(p), PathBuf::from("C:/D/Audio/MyAlbum"));
}

#[test]
fn flat_unknown_extension_goes_to_other_wrapped() {
    let map = CategoryMap::default();
    let m = meta("Big Game", vec![f("fg-01.bin", 100), f("fg-02.bin", 100)]);
    let p = decide_save_path("C:/D", &m, &map);
    assert_eq!(PathBuf::from(p), PathBuf::from("C:/D/Other/Big Game"));
}

#[test]
fn torrent_with_internal_folders_goes_to_other_even_if_media() {
    let map = CategoryMap::default();
    let m = meta("test_folder", vec![
        f("images/a.jpg", 100),
        f("images/b.jpg", 100),
        f("README", 50),
    ]);
    let p = decide_save_path("C:/D", &m, &map);
    assert_eq!(PathBuf::from(p), PathBuf::from("C:/D/Other/test_folder"));
}

#[test]
fn fully_wrapped_torrent_does_not_double_wrap() {
    let map = CategoryMap::default();
    let m = meta("MovieRelease", vec![
        f("MovieRelease/movie.mkv", 1000),
        f("MovieRelease/subs.srt", 10),
    ]);
    let p = decide_save_path("C:/D", &m, &map);
    assert_eq!(PathBuf::from(p), PathBuf::from("C:/D/Other"));
}

#[test]
fn empty_file_list_falls_through_to_other() {
    let map = CategoryMap::default();
    let m = meta("Nothing", vec![]);
    let p = decide_save_path("C:/D", &m, &map);
    assert_eq!(PathBuf::from(p), PathBuf::from("C:/D/Other"));
    let _ = Category::Other;
}

#[test]
fn sanitize_strips_illegal_chars() {
    assert_eq!(sanitize_for_windows("Foo: Bar/Baz?"), "Foo_ Bar_Baz_");
}

#[test]
fn sanitize_trims_trailing_dots_spaces() {
    assert_eq!(sanitize_for_windows("Movie name. "), "Movie name");
}

#[test]
fn sanitize_empty_becomes_untitled() {
    assert_eq!(sanitize_for_windows("..."), "Untitled");
}
