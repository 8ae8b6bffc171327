use drift::category::{resolve, Category, CategoryMap, FileEntry};

fn f(path: &str, size: u64) -> FileEntry {
    FileEntry { path: path.into(), size }
}

#[test]
fn single_file_video() {
    let m = CategoryMap::default();
    assert_eq!(resolve(&[f("Movie.mkv", 1)], &m), Category::Video);
}

#[test]
fn single_file_program_iso() {
    let m = CategoryMap::default();
    assert_eq!(resolve(&[f("ubuntu-24.04.iso", 1)], &m), Category::Programs);
}

#[test]
fn multi_file_video_largest_wins() {
    let m = CategoryMap::default();
    let files = vec![
        f("release/movie.mkv", 4_000_000_000),
        f("release/subs.srt", 50_000),
        f("release/info.nfo", 1_000),
    ];
    assert_eq!(resolve(&files, &m), Category::Video);
}

#[test]
fn multi_file_audio_album() {
    let m = CategoryMap::default();
    let files = vec![
        f("album/01.flac", 50_000_000),
        f("album/02.flac", 50_000_000),
        f("album/cover.jpg", 200_000),
    ];
    assert_eq!(resolve(&files, &m), Category::Audio);
}

#[test]
fn unknown_extension_other() {
    let m = CategoryMap::default();
    assert_eq!(resolve(&[f("data.xyz", 1)], &m), Category::Other);
}

#[test]
fn tiebreak_prefers_video_over_audio() {
    let m = CategoryMap::default();
    let files = vec![f("a.mkv", 1_000), f("b.mp3", 1_000)];
    assert_eq!(resolve(&files, &m), Category::Video);
}

#[test]
fn folder_names_stable() {
    assert_eq!(Category::Video.folder_name(), "Video");
    assert_eq!(Category::Other.folder_name(), "Other");
}
