//! Sorting torrents into category folders by file extension.

use vstd::prelude::*;
use crate::paths::{extension_of, file_extension};
use crate::text::{
    chars_of, is_whitespace, lower, runs, split_runs, string_from_lower, strip_leading, Separator,
};

verus! {

/// The folder a torrent's files are sorted into.
#[derive(Debug, Clone, Copy, PartialEq, Eq, Hash, Structural)]
pub enum Category {
    Video,
    Audio,
    Documents,
    Compressed,
    Programs,
    Images,
    Other,
}

/// The name of a category's folder.
pub open spec fn folder_name_spec(c: Category) -> Seq<char> {
    match c {
        Category::Video => "Video"@,
        Category::Audio => "Audio"@,
        Category::Documents => "Documents"@,
        Category::Compressed => "Compressed"@,
        Category::Programs => "Programs"@,
        Category::Images => "Images"@,
        Category::Other => "Other"@,
    }
}

impl Category {
    /// The name of this category's folder under the download root.
    pub fn folder_name(self) -> (s: &'static str)
        ensures
            s@ == folder_name_spec(self),
    {
        match self {
            Category::Video => "Video",
            Category::Audio => "Audio",
            Category::Documents => "Documents",
            Category::Compressed => "Compressed",
            Category::Programs => "Programs",
            Category::Images => "Images",
            Category::Other => "Other",
        }
    }
}

/// Lower-case extensions (without the dot) of each category.
#[derive(Debug)]
pub struct CategoryMap {
    pub video: Vec<String>,
    pub audio: Vec<String>,
    pub documents: Vec<String>,
    pub compressed: Vec<String>,
    pub programs: Vec<String>,
    pub images: Vec<String>,
}

/// A category map's extension lists.
pub struct CategoryMapView {
    pub video: Seq<Seq<char>>,
    pub audio: Seq<Seq<char>>,
    pub documents: Seq<Seq<char>>,
    pub compressed: Seq<Seq<char>>,
    pub programs: Seq<Seq<char>>,
    pub images: Seq<Seq<char>>,
}

impl View for CategoryMap {
    type V = CategoryMapView;

    open spec fn view(&self) -> CategoryMapView {
        CategoryMapView {
            video: self.video.deep_view(),
            audio: self.audio.deep_view(),
            documents: self.documents.deep_view(),
            compressed: self.compressed.deep_view(),
            programs: self.programs.deep_view(),
            images: self.images.deep_view(),
        }
    }
}

/// A copy of a list of strings.
pub fn copy_strings(v: &Vec<String>) -> (r: Vec<String>)
    ensures
        r.deep_view() == v.deep_view(),
{
    let mut r: Vec<String> = Vec::new();
    for i in 0..v.len()
        invariant
            r.deep_view() == v.deep_view().take(i as int),
    {
        assert(r.deep_view().len() == r@.len());
        let ghost prev = r.deep_view();
        r.push(v[i].clone());
        assert(r.deep_view() =~= prev.push(v.deep_view()[i as int]));
        assert(r.deep_view() =~= v.deep_view().take(i + 1));
    }
    assert(r.deep_view() =~= v.deep_view());
    r
}

impl Clone for CategoryMap {
    fn clone(&self) -> (r: Self)
        ensures
            r@ == self@,
    {
        CategoryMap {
            video: copy_strings(&self.video),
            audio: copy_strings(&self.audio),
            documents: copy_strings(&self.documents),
            compressed: copy_strings(&self.compressed),
            programs: copy_strings(&self.programs),
            images: copy_strings(&self.images),
        }
    }
}

/// The white-space separated words of `s`, each in ASCII lower case.
pub open spec fn split_spec(s: Seq<char>) -> Seq<Seq<char>> {
    runs(s, Separator::WhiteSpace).map_values(|w: Seq<char>| lower(w))
}

/// The white-space separated words of `s`, each in ASCII lower case.
pub fn split(s: &str) -> (words: Vec<String>)
    ensures
        words.deep_view() == split_spec(s@),
{
    let cs = chars_of(s);
    let parts = split_runs(cs.as_slice(), Separator::WhiteSpace);
    let mut words: Vec<String> = Vec::new();
    for i in 0..parts.len()
        invariant
            parts.deep_view() == runs(s@, Separator::WhiteSpace),
            words.deep_view() == split_spec(s@).take(i as int),
    {
        assert(words.deep_view().len() == words@.len());
        let ghost prev = words.deep_view();
        let w = string_from_lower(parts[i].as_slice());
        proof {
            crate::text::lemma_chars_deep_view(parts@[i as int]);
            assert(parts.deep_view()[i as int] == parts@[i as int].deep_view());
        }
        words.push(w);
        assert(words.deep_view() =~= prev.push(lower(parts.deep_view()[i as int])));
        assert(words.deep_view() =~= split_spec(s@).take(i + 1));
    }
    assert(split_spec(s@).take(parts@.len() as int) =~= split_spec(s@));
    words
}

/// The default extension lists.
pub open spec fn default_map_spec() -> CategoryMapView {
    CategoryMapView {
        video: split_spec("mp4 mkv avi mov wmv flv webm m4v mpg mpeg ts m2ts"@),
        audio: split_spec("mp3 flac wav aac ogg m4a wma opus alac"@),
        documents: split_spec("pdf epub mobi doc docx xls xlsx ppt pptx txt rtf csv"@),
        compressed: split_spec("zip rar 7z tar gz bz2 xz"@),
        programs: split_spec("exe msi dmg deb rpm apk appimage iso img"@),
        images: split_spec("jpg jpeg png webp gif bmp svg tiff raw heic"@),
    }
}

impl Default for CategoryMap {
    fn default() -> (m: Self)
        ensures
            m@ == default_map_spec(),
    {
        CategoryMap {
            video: split("mp4 mkv avi mov wmv flv webm m4v mpg mpeg ts m2ts"),
            audio: split("mp3 flac wav aac ogg m4a wma opus alac"),
            documents: split("pdf epub mobi doc docx xls xlsx ppt pptx txt rtf csv"),
            compressed: split("zip rar 7z tar gz bz2 xz"),
            programs: split("exe msi dmg deb rpm apk appimage iso img"),
            images: split("jpg jpeg png webp gif bmp svg tiff raw heic"),
        }
    }
}

/// A file of a torrent.
#[derive(Debug)]
pub struct FileEntry {
    pub path: String,
    pub size: u64,
}

impl Clone for FileEntry {
    fn clone(&self) -> (r: Self)
        ensures
            r.path@ == self.path@,
            r.size == self.size,
    {
        FileEntry { path: self.path.clone(), size: self.size }
    }
}

/// The category of an extension: leading dots dropped, ASCII lower case,
/// then the first list that holds it in the order video, audio, programs,
/// compressed, documents, images; `Other` when none does.
pub open spec fn classify_spec(ext: Seq<char>, m: CategoryMapView) -> Category {
    let e = lower(strip_leading(ext, '.'));
    if m.video.contains(e) {
        Category::Video
    } else if m.audio.contains(e) {
        Category::Audio
    } else if m.programs.contains(e) {
        Category::Programs
    } else if m.compressed.contains(e) {
        Category::Compressed
    } else if m.documents.contains(e) {
        Category::Documents
    } else if m.images.contains(e) {
        Category::Images
    } else {
        Category::Other
    }
}

/// Whether `list` holds `e`.
fn list_contains(list: &Vec<String>, e: &String) -> (b: bool)
    ensures
        b == list.deep_view().contains(e@),
{
    let n = list.len();
    assert(list.deep_view().len() == n);
    for i in 0..n
        invariant
            n == list.deep_view().len(),
            forall|j: int| 0 <= j < i ==> list.deep_view()[j] != e@,
    {
        if list[i] == *e {
            assert(list.deep_view()[i as int] == e@);
            return true;
        }
    }
    false
}

/// The category of a file extension under `map`.
pub fn classify_extension(ext: &str, map: &CategoryMap) -> (c: Category)
    ensures
        c == classify_spec(ext@, map@),
{
    let cs = chars_of(ext);
    let n = cs.len();
    let mut start: usize = 0;
    assert(cs@.subrange(0, n as int) =~= ext@);
    while start < n && cs[start] == '.'
        invariant
            n == cs@.len(),
            start <= n,
            strip_leading(ext@, '.') == strip_leading(cs@.subrange(start as int, n as int), '.'),
            cs@ == ext@,
        decreases n - start,
    {
        assert(cs@.subrange(start as int, n as int).drop_first() =~= cs@.subrange(start + 1, n as int));
        start = start + 1;
    }
    let ghost rest = cs@.subrange(start as int, n as int);
    assert(strip_leading(rest, '.') == rest);
    let mut tail: Vec<char> = Vec::new();
    let mut i = start;
    while i < n
        invariant
            start <= i <= n,
            n == cs@.len(),
            tail@ == cs@.subrange(start as int, i as int),
        decreases n - i,
    {
        tail.push(cs[i]);
        assert(tail@ =~= cs@.subrange(start as int, i + 1));
        i = i + 1;
    }
    let e = string_from_lower(tail.as_slice());
    if list_contains(&map.video, &e) {
        return Category::Video;
    }
    if list_contains(&map.audio, &e) {
        return Category::Audio;
    }
    if list_contains(&map.programs, &e) {
        return Category::Programs;
    }
    if list_contains(&map.compressed, &e) {
        return Category::Compressed;
    }
    if list_contains(&map.documents, &e) {
        return Category::Documents;
    }
    if list_contains(&map.images, &e) {
        return Category::Images;
    }
    Category::Other
}


/// The category of one file, by its extension.
pub open spec fn file_category(f: FileEntry, m: CategoryMapView) -> Category {
    classify_spec(extension_of(f.path@), m)
}

/// Total size of the files of category `c`.
pub open spec fn category_total(files: Seq<FileEntry>, m: CategoryMapView, c: Category) -> nat
    decreases files.len(),
{
    if files.len() == 0 {
        0
    } else {
        category_total(files.drop_last(), m, c) + if file_category(files.last(), m) == c {
            files.last().size as nat
        } else {
            0nat
        }
    }
}

/// The categories in tie-break priority: Video, Audio, Programs, Compressed,
/// Documents, Images, Other.
pub open spec fn priority(k: int) -> Category {
    if k == 0 {
        Category::Video
    } else if k == 1 {
        Category::Audio
    } else if k == 2 {
        Category::Programs
    } else if k == 3 {
        Category::Compressed
    } else if k == 4 {
        Category::Documents
    } else if k == 5 {
        Category::Images
    } else {
        Category::Other
    }
}

/// Number of files of category `c`.
pub open spec fn category_count(files: Seq<FileEntry>, m: CategoryMapView, c: Category) -> nat
    decreases files.len(),
{
    if files.len() == 0 {
        0
    } else {
        category_count(files.drop_last(), m, c) + if file_category(files.last(), m) == c {
            1nat
        } else {
            0nat
        }
    }
}

/// Some file of the torrent is of category `c`.
pub open spec fn present(files: Seq<FileEntry>, m: CategoryMapView, c: Category) -> bool {
    category_count(files, m, c) > 0
}

/// Among the categories `priority(0)` .. `priority(k - 1)` that the torrent's
/// files have, the one holding the most bytes, the earlier in priority order
/// on a tie; `None` when it has none of them.
pub open spec fn pick_largest(files: Seq<FileEntry>, m: CategoryMapView, k: int) -> Option<Category>
    decreases k,
{
    if k <= 0 {
        None
    } else {
        let prev = pick_largest(files, m, k - 1);
        let c = priority(k - 1);
        if !present(files, m, c) {
            prev
        } else {
            match prev {
                None => Some(c),
                Some(p) => if category_total(files, m, c) > category_total(files, m, p) {
                    Some(c)
                } else {
                    prev
                },
            }
        }
    }
}

/// The category of a torrent: `Other` for no files, the file's category for
/// one file, otherwise, among the categories its files have, the one with
/// the most bytes, ties going to the earlier one in priority order.
pub open spec fn resolve_spec(files: Seq<FileEntry>, m: CategoryMapView) -> Category {
    if files.len() == 0 {
        Category::Other
    } else if files.len() == 1 {
        file_category(files[0], m)
    } else {
        match pick_largest(files, m, 7) {
            Some(c) => c,
            None => Category::Other,
        }
    }
}

/// `c`, which is `priority(jc)`, is a present category among the first `n`
/// that holds the most bytes of them, and the first such in priority order.
pub open spec fn is_pick(files: Seq<FileEntry>, m: CategoryMapView, n: int, c: Category, jc: int) -> bool {
    &&& 0 <= jc < n
    &&& priority(jc) == c
    &&& present(files, m, c)
    &&& forall|j: int|
        0 <= j < n && present(files, m, #[trigger] priority(j)) ==> category_total(files, m, priority(j))
            <= category_total(files, m, c) && (category_total(files, m, priority(j)) == category_total(files, m, c)
            ==> jc <= j)
}

/// What `pick_largest` picks among the first `n` categories.
proof fn lemma_pick_largest(files: Seq<FileEntry>, m: CategoryMapView, n: int)
    requires
        0 <= n <= 7,
    ensures
        pick_largest(files, m, n) is None <==> forall|j: int| 0 <= j < n ==> !present(files, m, #[trigger] priority(j)),
        pick_largest(files, m, n) matches Some(c) ==> exists|jc: int| #[trigger] is_pick(files, m, n, c, jc),
    decreases n,
{
    if n > 0 {
        lemma_pick_largest(files, m, n - 1);
        let prev = pick_largest(files, m, n - 1);
        let c = priority(n - 1);
        if present(files, m, c) {
            match prev {
                None => {
                    assert(is_pick(files, m, n, c, n - 1));
                },
                Some(p) => {
                    let jp = choose|jc: int| #[trigger] is_pick(files, m, n - 1, p, jc);
                    if category_total(files, m, c) > category_total(files, m, p) {
                        assert(is_pick(files, m, n, c, n - 1));
                    } else {
                        assert(is_pick(files, m, n, p, jp));
                    }
                },
            }
        } else {
            match prev {
                None => {},
                Some(p) => {
                    let jp = choose|jc: int| #[trigger] is_pick(files, m, n - 1, p, jc);
                    assert(is_pick(files, m, n, p, jp));
                },
            }
        }
    }
}

/// A torrent of several files goes to a category that its files have and
/// that holds at least as many of its bytes as any other category they
/// have; among those holding the most, it goes to the first in priority
/// order (Video, Audio, Programs, Compressed, Documents, Images, Other).
pub proof fn lemma_resolve_picks_largest(files: Seq<FileEntry>, m: CategoryMapView, k: int)
    requires
        files.len() > 1,
        0 <= k < 7,
        present(files, m, priority(k)),
    ensures
        present(files, m, resolve_spec(files, m)),
        category_total(files, m, priority(k)) <= category_total(files, m, resolve_spec(files, m)),
        category_total(files, m, priority(k)) == category_total(files, m, resolve_spec(files, m))
            ==> exists|j: int| 0 <= j <= k && #[trigger] priority(j) == resolve_spec(files, m),
{
    lemma_pick_largest(files, m, 7);
    assert(present(files, m, priority(k)));
    let c = pick_largest(files, m, 7)->0;
    let jc = choose|jc: int| #[trigger] is_pick(files, m, 7, c, jc);
    assert(is_pick(files, m, 7, c, jc));
}

/// Every per-category total fits in a `u64`.
pub open spec fn totals_fit(files: Seq<FileEntry>, m: CategoryMapView) -> bool {
    forall|k: int| 0 <= k < 7 ==> #[trigger] category_total(files, m, priority(k)) <= u64::MAX
}

/// Total size of a list of files.
pub open spec fn files_size(files: Seq<FileEntry>) -> nat
    decreases files.len(),
{
    if files.len() == 0 {
        0
    } else {
        files_size(files.drop_last()) + files.last().size as nat
    }
}

proof fn lemma_total_prefix(files: Seq<FileEntry>, m: CategoryMapView, c: Category, i: int)
    requires
        0 <= i <= files.len(),
    ensures
        category_total(files.take(i), m, c) <= category_total(files, m, c),
    decreases files.len() - i,
{
    if i < files.len() {
        lemma_total_prefix(files, m, c, i + 1);
        assert(files.take(i + 1).drop_last() =~= files.take(i));
    } else {
        assert(files.take(i) =~= files);
    }
}

fn priority_index(c: Category) -> (k: usize)
    ensures
        k < 7,
        priority(k as int) == c,
{
    match c {
        Category::Video => 0,
        Category::Audio => 1,
        Category::Programs => 2,
        Category::Compressed => 3,
        Category::Documents => 4,
        Category::Images => 5,
        Category::Other => 6,
    }
}

fn category_at(k: usize) -> (c: Category)
    requires
        k < 7,
    ensures
        c == priority(k as int),
{
    match k {
        0 => Category::Video,
        1 => Category::Audio,
        2 => Category::Programs,
        3 => Category::Compressed,
        4 => Category::Documents,
        5 => Category::Images,
        _ => Category::Other,
    }
}

/// The category of one file of a torrent.
fn category_of_file(f: &FileEntry, map: &CategoryMap) -> (c: Category)
    ensures
        c == file_category(*f, map@),
{
    let ext = file_extension(f.path.as_str());
    classify_extension(ext.as_str(), map)
}

/// The byte total of each category, in priority order, and whether the
/// torrent has a file of it; `None` when some total overflows a `u64`.
fn totals_by_category(files: &[FileEntry], map: &CategoryMap) -> (r: Option<(Vec<u64>, Vec<bool>)>)
    ensures
        r is None <==> !totals_fit(files@, map@),
        r matches Some(t) ==> t.0@.len() == 7 && t.1@.len() == 7,
        r matches Some(t) ==> forall|k: int| 0 <= k < 7 ==> #[trigger] t.0@[k] == category_total(files@, map@, priority(k)),
        r matches Some(t) ==> forall|k: int| 0 <= k < 7 ==> #[trigger] t.1@[k] == present(files@, map@, priority(k)),
{
    let mut totals: Vec<u64> = vec![0, 0, 0, 0, 0, 0, 0];
    let mut seen: Vec<bool> = vec![false, false, false, false, false, false, false];
    let n = files.len();
    for i in 0..n
        invariant
            n == files@.len(),
            totals@.len() == 7,
            seen@.len() == 7,
            forall|k: int|
                0 <= k < 7 ==> #[trigger] totals@[k] == category_total(files@.take(i as int), map@, priority(k)),
            forall|k: int| 0 <= k < 7 ==> #[trigger] seen@[k] == present(files@.take(i as int), map@, priority(k)),
    {
        let c = category_of_file(&files[i], map);
        let k = priority_index(c);
        let ghost before = files@.take(i as int);
        let ghost after = files@.take(i + 1);
        let ghost old_totals = totals@;
        let ghost old_seen = seen@;
        assert(after.drop_last() =~= before);
        assert(after.last() == files@[i as int]);
        assert(category_total(after, map@, c) == category_total(before, map@, c) + files@[i as int].size);
        assert(category_count(after, map@, c) == category_count(before, map@, c) + 1);
        assert(totals@[k as int] == category_total(before, map@, priority(k as int)));
        match totals[k].checked_add(files[i].size) {
            None => {
                proof {
                    lemma_total_prefix(files@, map@, c, i + 1);
                    assert(category_total(files@, map@, priority(k as int)) > u64::MAX);
                }
                return None;
            },
            Some(v) => {
                totals.set(k, v);
            },
        }
        seen.set(k, true);
        assert forall|j: int| 0 <= j < 7 implies #[trigger] totals@[j] == category_total(after, map@, priority(j))
            && seen@[j] == present(after, map@, priority(j)) by {
            assert(old_totals[j] == category_total(before, map@, priority(j)));
            assert(old_seen[j] == present(before, map@, priority(j)));
            if j != k {
                assert(priority(j) != priority(k as int));
            }
        }
        assert(files@.take((i + 1) as int) == after);
    }
    assert(files@.take(n as int) =~= files@);
    assert forall|k: int| 0 <= k < 7 implies #[trigger] category_total(files@, map@, priority(k)) <= u64::MAX by {
        assert(totals@[k] == category_total(files@, map@, priority(k)));
    }
    Some((totals, seen))
}

/// Whether every category's byte total fits in a `u64`, so that `resolve`
/// can add them up.
pub fn category_totals_fit(files: &[FileEntry], map: &CategoryMap) -> (b: bool)
    ensures
        b == totals_fit(files@, map@),
{
    totals_by_category(files, map).is_some()
}

/// The category of a torrent from its files, sized by extension.
pub fn resolve(files: &[FileEntry], map: &CategoryMap) -> (c: Category)
    requires
        totals_fit(files@, map@),
    ensures
        c == resolve_spec(files@, map@),
{
    if files.len() == 0 {
        return Category::Other;
    }
    if files.len() == 1 {
        return category_of_file(&files[0], map);
    }
    let t = match totals_by_category(files, map) {
        Some(t) => t,
        None => {
            return Category::Other;
        },
    };
    let totals = t.0;
    let seen = t.1;
    let mut have = false;
    let mut best: usize = 0;
    for k in 0..7
        invariant
            totals@.len() == 7,
            seen@.len() == 7,
            forall|j: int| 0 <= j < 7 ==> #[trigger] totals@[j] == category_total(files@, map@, priority(j)),
            forall|j: int| 0 <= j < 7 ==> #[trigger] seen@[j] == present(files@, map@, priority(j)),
            best < 7,
            have ==> pick_largest(files@, map@, k as int) == Some(priority(best as int)),
            !have ==> pick_largest(files@, map@, k as int) is None,
    {
        assert(totals@[k as int] == category_total(files@, map@, priority(k as int)));
        assert(seen@[k as int] == present(files@, map@, priority(k as int)));
        assert(totals@[best as int] == category_total(files@, map@, priority(best as int)));
        if seen[k] {
            if !have || totals[k] > totals[best] {
                best = k;
                have = true;
            }
        }
    }

    if have {
        category_at(best)
    } else {
        Category::Other
    }
}

/// The category of a torrent, or `None` when some category's byte total
/// does not fit in a `u64` (where `resolve` cannot add them up).
pub fn try_resolve(files: &[FileEntry], map: &CategoryMap) -> (c: Option<Category>)
    ensures
        c == (if totals_fit(files@, map@) {
            Some(resolve_spec(files@, map@))
        } else {
            None
        }),
{
    if category_totals_fit(files, map) {
        Some(resolve(files, map))
    } else {
        None
    }
}

} // verus!
