//! The engine's plain data and the decisions around it: what a torrent's
//! metadata holds, progress reports, per-file progress, rate limits and the
//! state label each progress tick reports.

use vstd::prelude::*;
use crate::category::{
    category_totals_fit, files_size, folder_name_spec, resolve, resolve_spec, totals_fit, CategoryMap, FileEntry,
};
use crate::magnet::InfoHash;
use vstd::utf8::{decode_utf8, valid_utf8};
use crate::paths::{join, joined_path};
use crate::text::{chars_of, str_eq};

verus! {

/// Where a torrent comes from: a magnet link or the path of a `.torrent` file.
#[derive(Debug)]
pub enum Source {
    Magnet(String),
    TorrentFile(String),
}

impl Source {
    /// A magnet link when the text starts with `magnet:?`, otherwise a path
    /// to a `.torrent` file.
    pub fn from_input(text: &str) -> (s: Self)
        ensures
            match s {
                Source::Magnet(m) => crate::text::starts_with(text@, "magnet:?"@) && m@ == text@,
                Source::TorrentFile(p) => !crate::text::starts_with(text@, "magnet:?"@) && p@ == text@,
            },
    {
        let cs = chars_of(text);
        let prefix = chars_of("magnet:?");
        if crate::text::chars_start_with(cs.as_slice(), prefix.as_slice()) {
            Source::Magnet(text.to_owned())
        } else {
            Source::TorrentFile(text.to_owned())
        }
    }
}

/// Torrent metadata, known before any download starts.
#[derive(Debug)]
pub struct TorrentMetadata {
    pub infohash: InfoHash,
    pub name: String,
    pub total_size: u64,
    pub files: Vec<FileEntry>,
}

impl TorrentMetadata {
    /// Metadata for a torrent with these files; the total size is their sum.
    pub fn from_files(infohash: InfoHash, name: String, files: Vec<FileEntry>) -> (m: Self)
        requires
            files_size(files@) <= u64::MAX,
        ensures
            m.infohash == infohash,
            m.name == name,
            m.files == files,
            m.total_size == files_size(files@),
    {
        let mut total: u64 = 0;
        let n = files.len();
        for i in 0..n
            invariant
                n == files@.len(),
                files_size(files@) <= u64::MAX,
                total == files_size(files@.take(i as int)),
        {
            assert(files@.take(i + 1).drop_last() =~= files@.take(i as int));
            proof {
                lemma_files_size_prefix(files@, i + 1);
            }
            total = total + files[i].size;
        }
        assert(files@.take(n as int) =~= files@);
        TorrentMetadata { infohash, name, total_size: total, files }
    }
}

proof fn lemma_files_size_prefix(files: Seq<FileEntry>, i: int)
    requires
        0 <= i <= files.len(),
    ensures
        files_size(files.take(i)) <= files_size(files),
    decreases files.len() - i,
{
    if i < files.len() {
        lemma_files_size_prefix(files, i + 1);
        assert(files.take(i + 1).drop_last() =~= files.take(i));
    } else {
        assert(files.take(i) =~= files);
    }
}

/// `std::str::from_utf8`, owned. Trusted: there is a text exactly when the
/// bytes are valid UTF-8, and it is their decoding (the documentation: `Ok`
/// with the text for valid UTF-8, `Err` otherwise).
#[verifier::external_body]
fn utf8_text(bytes: &[u8]) -> (t: Option<String>)
    ensures
        t is Some <==> valid_utf8(bytes@),
        t matches Some(s) ==> s@ == decode_utf8(bytes@),
{
    std::str::from_utf8(bytes).ok().map(|s| s.to_owned())
}

/// A torrent's name as its metadata gives it: the text of its bytes when
/// they are valid UTF-8; "unknown" when they are not, or when there is no
/// name.
pub open spec fn torrent_name_spec(raw: Option<Seq<u8>>) -> Seq<char> {
    match raw {
        Some(b) => if valid_utf8(b) {
            decode_utf8(b)
        } else {
            "unknown"@
        },
        None => "unknown"@,
    }
}

/// The display name of a torrent from the raw name in its metadata.
pub fn torrent_name(raw: Option<&[u8]>) -> (n: String)
    ensures
        n@ == torrent_name_spec(
            match raw {
                Some(b) => Some(b@),
                None => None,
            },
        ),
{
    match raw {
        Some(b) => match utf8_text(b) {
            Some(t) => t,
            None => "unknown".to_owned(),
        },
        None => "unknown".to_owned(),
    }
}

/// The folder a torrent lands in by category alone: the download root joined
/// with the category's folder name.
pub fn pick_save_path(root: &str, meta: &TorrentMetadata, map: &CategoryMap) -> (p: String)
    requires
        totals_fit(meta.files@, map@),
    ensures
        p@ == joined_path(root@, folder_name_spec(resolve_spec(meta.files@, map@))),
{
    let cat = resolve(meta.files.as_slice(), map);
    join(root, cat.folder_name())
}

/// `pick_save_path`, or `None` when some category's byte total does not fit
/// in a `u64`.
pub fn try_pick_save_path(root: &str, meta: &TorrentMetadata, map: &CategoryMap) -> (p: Option<String>)
    ensures
        match p {
            Some(q) => totals_fit(meta.files@, map@) && q@ == joined_path(
                root@,
                folder_name_spec(resolve_spec(meta.files@, map@)),
            ),
            None => !totals_fit(meta.files@, map@),
        },
{
    if category_totals_fit(meta.files.as_slice(), map) {
        Some(pick_save_path(root, meta, map))
    } else {
        None
    }
}


/// A per-torrent progress report, taken once a second.
#[derive(Debug)]
pub struct ProgressUpdate {
    pub infohash: InfoHash,
    pub downloaded: u64,
    pub total: u64,
    pub uploaded: u64,
    pub down_bps: u64,
    pub up_bps: u64,
    pub peers: u32,
    /// "downloading" | "seeding" | "paused" | "stalled" | "completed" | "error" | "initializing"
    pub state_label: String,
}

/// Progress of one file of a torrent.
#[derive(Debug)]
pub struct FileProgress {
    pub index: usize,
    pub path: String,
    pub size: u64,
    pub downloaded: u64,
    pub selected: bool,
}

/// What the engine knows of one file of a torrent.
#[derive(Debug)]
pub struct FileFacts {
    pub path: String,
    pub size: u64,
    /// Padding files exist only to align pieces and are not shown.
    pub padding: bool,
}

/// The progress entry of file `idx`: its bytes done (0 when the engine has
/// no figure for it) and whether it is selected (all are, without a
/// selection).
pub open spec fn file_progress_matches(
    fp: FileProgress,
    idx: int,
    f: FileFacts,
    done: Seq<u64>,
    only: Option<Seq<usize>>,
) -> bool {
    &&& fp.index == idx
    &&& fp.path@ == f.path@
    &&& fp.size == f.size
    &&& fp.downloaded == (if idx < done.len() { done[idx] } else { 0 })
    &&& fp.selected == (match only {
        Some(s) => s.contains(idx as usize),
        None => true,
    })
}

/// The indices of an optional file selection.
pub open spec fn selection_view(only: Option<&Vec<usize>>) -> Option<Seq<usize>> {
    match only {
        Some(v) => Some(v@),
        None => None,
    }
}

/// Number of non-padding files among the first `k`.
pub open spec fn count_shown(files: Seq<FileFacts>, k: int) -> nat
    decreases k,
{
    if k <= 0 {
        0
    } else {
        count_shown(files, k - 1) + if files[k - 1].padding { 0nat } else { 1nat }
    }
}

/// The per-file progress list: one entry per non-padding file, in order,
/// carrying the file's index among all files.
pub fn file_progress_list(files: &[FileFacts], done: &[u64], only: Option<&Vec<usize>>) -> (list: Vec<FileProgress>)
    ensures
        list@.len() == count_shown(files@, files@.len() as int),
        forall|i: int| 0 <= i < files@.len() && !files@[i].padding ==> #[trigger] file_progress_matches(
            list@[count_shown(files@, i) as int],
            i,
            files@[i],
            done@,
            selection_view(only),
        ),
{
    let ghost only_view = selection_view(only);
    let mut list: Vec<FileProgress> = Vec::new();
    let n = files.len();
    for idx in 0..n
        invariant
            n == files@.len(),
            only_view == selection_view(only),
            list@.len() == count_shown(files@, idx as int),
            forall|i: int| 0 <= i < idx && !files@[i].padding ==> #[trigger] file_progress_matches(
                list@[count_shown(files@, i) as int],
                i,
                files@[i],
                done@,
                only_view,
            ),
            forall|i: int| 0 <= i <= idx ==> #[trigger] count_shown(files@, i) <= count_shown(files@, idx as int),
    {
        let f = &files[idx];
        if !f.padding {
            let downloaded = if idx < done.len() { done[idx] } else { 0 };
            let selected = match only {
                Some(v) => {
                    let mut found = false;
                    for j in 0..v.len()
                        invariant
                            found == exists|m: int| 0 <= m < j && v@[m] == idx,
                    {
                        if v[j] == idx {
                            found = true;
                        }
                    }
                    found
                },
                None => true,
            };
            let ghost old_list = list@;
            list.push(FileProgress { index: idx, path: f.path.clone(), size: f.size, downloaded, selected });
            assert(count_shown(files@, idx + 1) == count_shown(files@, idx as int) + 1);
            assert forall|i: int| 0 <= i < idx + 1 && !files@[i].padding implies #[trigger] file_progress_matches(
                list@[count_shown(files@, i) as int],
                i,
                files@[i],
                done@,
                only_view,
            ) by {
                if i < idx {
                    assert(count_shown(files@, i + 1) <= count_shown(files@, idx as int));
                    assert(list@[count_shown(files@, i) as int] == old_list[count_shown(files@, i) as int]);
                } else {
                    match only {
                        Some(v) => {
                            if selected {
                                let m = choose|m: int| 0 <= m < v@.len() && v@[m] == idx;
                                assert(v@.contains(idx));
                            } else {
                                assert(!v@.contains(idx));
                            }
                        },
                        None => {},
                    }
                }
            }
        }
        assert forall|i: int| 0 <= i <= idx + 1 implies #[trigger] count_shown(files@, i) <= count_shown(files@, idx + 1) by {
        }
    }
    list
}

/// The session-wide rate limit for a setting in KiB/s: `None` (unlimited)
/// for 0, otherwise the setting times 1024, saturating at `u32::MAX`.
pub fn rate_limit_bps(kbps: u32) -> (limit: Option<u32>)
    ensures
        limit == (if kbps == 0 {
            None
        } else if kbps as int * 1024 > u32::MAX {
            Some(u32::MAX)
        } else {
            Some((kbps as int * 1024) as u32)
        }),
{
    let bps: u32 = if kbps > u32::MAX / 1024 { u32::MAX } else { kbps * 1024 };
    if bps == 0 {
        None
    } else {
        Some(bps)
    }
}

/// Total of a list of byte counts.
pub open spec fn sum_u64(v: Seq<u64>) -> nat
    decreases v.len(),
{
    if v.len() == 0 {
        0
    } else {
        sum_u64(v.drop_last()) + v.last() as nat
    }
}

proof fn lemma_sum_prefix(v: Seq<u64>, i: int)
    requires
        0 <= i <= v.len(),
    ensures
        sum_u64(v.take(i)) <= sum_u64(v),
    decreases v.len() - i,
{
    if i < v.len() {
        lemma_sum_prefix(v, i + 1);
        assert(v.take(i + 1).drop_last() =~= v.take(i));
    } else {
        assert(v.take(i) =~= v);
    }
}

/// Bytes done of a torrent: the larger of the engine's aggregate and the sum
/// of its per-file figures (the aggregate can lag behind the files).
pub fn progress_downloaded(progress_bytes: u64, file_progress: &[u64]) -> (d: u64)
    requires
        sum_u64(file_progress@) <= u64::MAX,
    ensures
        d == (if progress_bytes >= sum_u64(file_progress@) { progress_bytes as nat } else { sum_u64(file_progress@) }),
{
    let mut sum: u64 = 0;
    let n = file_progress.len();
    for i in 0..n
        invariant
            n == file_progress@.len(),
            sum_u64(file_progress@) <= u64::MAX,
            sum == sum_u64(file_progress@.take(i as int)),
    {
        assert(file_progress@.take(i + 1).drop_last() =~= file_progress@.take(i as int));
        proof {
            lemma_sum_prefix(file_progress@, i + 1);
        }
        sum = sum + file_progress[i];
    }
    assert(file_progress@.take(n as int) =~= file_progress@);
    if progress_bytes >= sum {
        progress_bytes
    } else {
        sum
    }
}

/// Whether a torrent counts as finished: the engine says so, or every byte
/// of a non-empty torrent is done (the engine's flag can lag).
pub fn is_finished(engine_finished: bool, total: u64, downloaded: u64) -> (f: bool)
    ensures
        f == (engine_finished || (total > 0 && downloaded >= total)),
{
    engine_finished || (total > 0 && downloaded >= total)
}

/// The name `to_lowercase` gives the full Unicode lower case of a text.
pub uninterp spec fn unicode_lower(s: Seq<char>) -> Seq<char>;

/// `str::to_lowercase`. Trusted: the result is `unicode_lower(s)`; for ASCII
/// text it maps `A`..`Z` to `a`..`z` and keeps every other character (the
/// documentation: lowercase mapping per the Unicode Derived Core Property
/// `Lowercase`, which on ASCII is exactly that). The mapping of other
/// characters is left to the name.
#[verifier::external_body]
fn to_lowercase(s: &str) -> (r: String)
    ensures
        r@ == unicode_lower(s@),
        vstd::utf8::is_ascii_chars(s@) ==> r@ == crate::text::lower(s@),
{
    s.to_lowercase()
}

/// Whether `needle` occurs in `hay`.
pub open spec fn occurs_in(hay: Seq<char>, needle: Seq<char>) -> bool {
    exists|i: int| 0 <= i <= hay.len() - needle.len() && #[trigger] hay.subrange(i, i + needle.len()) == needle
}

/// Whether `needle` occurs in the characters `hay`.
pub fn chars_occur(hay: &[char], needle: &[char]) -> (b: bool)
    ensures
        b == occurs_in(hay@, needle@),
{
    let n = hay.len();
    let m = needle.len();
    if m > n {
        return false;
    }
    let mut i: usize = 0;
    while m <= n - i
        invariant
            n == hay@.len(),
            m == needle@.len(),
            m <= n,
            i <= n,
            forall|j: int| 0 <= j < i ==> #[trigger] hay@.subrange(j, j + m) != needle@,
        decreases n - i,
    {
        let mut same = true;
        let mut k: usize = 0;
        while k < m
            invariant
                n == hay@.len(),
                m == needle@.len(),
                i + m <= n,
                k <= m,
                same == forall|x: int| 0 <= x < k ==> hay@[i + x] == needle@[x],
            decreases m - k,
        {
            if hay[i + k] != needle[k] {
                same = false;
            }
            k = k + 1;
        }
        if same {
            assert(hay@.subrange(i as int, i + m) =~= needle@);
            return true;
        }
        let ghost x = choose|x: int| 0 <= x < m && hay@[i + x] != needle@[x];
        assert(hay@.subrange(i as int, i + m)[x] != needle@[x]);
        i = i + 1;
    }
    false
}

/// A removal failure that only says the torrent is already gone: its message,
/// lower-cased (for ASCII text: `A`..`Z` to `a`..`z`), mentions "not found",
/// "does not exist" or "no such".
pub open spec fn is_not_found_spec(message: Seq<char>) -> bool {
    let m = if vstd::utf8::is_ascii_chars(message) { crate::text::lower(message) } else { unicode_lower(message) };
    occurs_in(m, "not found"@) || occurs_in(m, "does not exist"@) || occurs_in(m, "no such"@)
}

/// Whether a removal error message only says that the torrent is gone (a
/// race between the presence check and the removal), which removal treats
/// as success.
pub fn is_not_found_error(message: &str) -> (b: bool)
    ensures
        b == is_not_found_spec(message@),
{
    let lowered = to_lowercase(message);
    let m = chars_of(lowered.as_str());
    let a = chars_of("not found");
    let b = chars_of("does not exist");
    let c = chars_of("no such");
    chars_occur(m.as_slice(), a.as_slice()) || chars_occur(m.as_slice(), b.as_slice()) || chars_occur(
        m.as_slice(),
        c.as_slice(),
    )
}

} // verus!
