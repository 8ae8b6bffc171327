use drift::category::{classify_extension, resolve, split, Category, CategoryMap, FileEntry};
use drift::commands::{decide_save_path, selection_allowed, sanitize_for_windows};
use drift::engine::TorrentMetadata;
use drift::magnet::InfoHash;
use std::path::PathBuf;

fn f(path: &str, size: u64) -> FileEntry {
    FileEntry { path: path.into(), size }
}

#[test]
fn default_lists_are_split_and_lower_cased() {
    assert_eq!(split("  MP4 mkv\tAVI \n"), vec!["mp4", "mkv", "avi"]);
    assert!(split("   ").is_empty());
    let m = CategoryMap::default();
    assert_eq!(m.video.len(), 12);
    assert_eq!(m.images.last().map(|s| s.as_str()), Some("heic"));
}

#[test]
fn classify_ignores_dots_and_case() {
    let m = CategoryMap::default();
    assert_eq!(classify_extension(".MKV", &m), Category::Video);
    assert_eq!(classify_extension("..flac", &m), Category::Audio);
    assert_eq!(classify_extension("ISO", &m), Category::Programs);
    assert_eq!(classify_extension("7z", &m), Category::Compressed);
    assert_eq!(classify_extension("pdf", &m), Category::Documents);
    assert_eq!(classify_extension("png", &m), Category::Images);
    assert_eq!(classify_extension("", &m), Category::Other);
}

#[test]
fn classify_uses_the_given_map() {
    let mut m = CategoryMap::default();
    m.audio.push("mkv".to_string());
    m.video.clear();
    assert_eq!(classify_extension("mkv", &m), Category::Audio);
}

#[test]
fn largest_category_by_bytes_wins_over_file_count() {
    let m = CategoryMap::default();
    let files = vec![f("a.jpg", 1), f("b.jpg", 1), f("c.jpg", 1), f("d.iso", 10)];
    assert_eq!(resolve(&files, &m), Category::Programs);
}

#[test]
fn tie_with_other_goes_to_the_named_category() {
    let m = CategoryMap::default();
    let files = vec![f("a.xyz", 5), f("b.pdf", 5)];
    assert_eq!(resolve(&files, &m), Category::Documents);
    let empty: Vec<FileEntry> = Vec::new();
    assert_eq!(resolve(&empty, &m), Category::Other);
}

#[test]
fn extension_is_the_part_after_the_last_dot() {
    let m = CategoryMap::default();
    assert_eq!(resolve(&[f("dir/Movie.MKV", 1)], &m), Category::Video);
    assert_eq!(resolve(&[f("README", 1)], &m), Category::Other);
    assert_eq!(resolve(&[f("archive.tar.gz", 1)], &m), Category::Compressed);
    assert_eq!(resolve(&[f("mkv", 1)], &m), Category::Other);
}

#[test]
fn sanitize_replaces_each_reserved_character() {
    assert_eq!(sanitize_for_windows("a<b>c:d\"e/f\\g|h?i*j"), "a_b_c_d_e_f_g_h_i_j");
    assert_eq!(sanitize_for_windows("tab\there"), "tab_here");
    assert_eq!(sanitize_for_windows("  ok"), "  ok");
}

#[test]
fn selection_must_keep_a_file() {
    assert!(selection_allowed(&[0]));
    assert!(!selection_allowed(&[]));
}

#[test]
fn wrapped_name_is_sanitized() {
    let map = CategoryMap::default();
    let m = TorrentMetadata {
        infohash: InfoHash("0".repeat(40)),
        name: "Best: Of?".into(),
        total_size: 2,
        files: vec![f("a.mp3", 1), f("b.mp3", 1)],
    };
    let p = decide_save_path("C:/D", &m, &map);
    assert_eq!(PathBuf::from(p), PathBuf::from("C:/D/Audio/Best_ Of_"));
}
