//! The decisions behind the user's commands: where a new torrent is saved,
//! the magnet link that "Copy magnet" produces, and the checks on a file
//! selection.

use vstd::prelude::*;
use vstd::utf8::{encode_scalar, encode_utf8};
use crate::magnet::{hex_value, percent_decode};
use crate::category::{
    category_totals_fit, folder_name_spec, resolve, resolve_spec, totals_fit, Category, CategoryMap, FileEntry,
};
use crate::engine::TorrentMetadata;
use crate::paths::{join, joined_path};
use crate::state::{has_hash, RecordView, StateStore, TorrentRecord, TorrentState};
use crate::text::{chars_contain, chars_of, push_char, runs, split_runs, string_from, Separator};

verus! {

/// Some file path holds a directory separator (`/` or `\`): the torrent has
/// internal folders.
pub open spec fn has_internal_folders_spec(files: Seq<FileEntry>) -> bool {
    exists|i: int|
        0 <= i < files.len() && (#[trigger] files[i].path@.contains('/') || files[i].path@.contains('\\'))
}

/// True if any file path contains a directory separator.
pub fn has_internal_folders(files: &[FileEntry]) -> (b: bool)
    ensures
        b == has_internal_folders_spec(files@),
{
    let n = files.len();
    let mut i: usize = 0;
    while i < n
        invariant
            n == files@.len(),
            i <= n,
            forall|j: int| 0 <= j < i ==> !(#[trigger] files@[j].path@.contains('/') || files@[j].path@.contains('\\')),
        decreases n - i,
    {
        let cs = chars_of(files[i].path.as_str());
        let slash = chars_contain(cs.as_slice(), '/');
        let backslash = chars_contain(cs.as_slice(), '\\');
        assert(slash == files@[i as int].path@.contains('/'));
        assert(backslash == files@[i as int].path@.contains('\\'));
        if slash || backslash {
            return true;
        }
        assert forall|j: int| 0 <= j < i + 1 implies !(#[trigger] files@[j].path@.contains('/') || files@[j].path@.contains('\\')) by {
            if j == i {
                assert(!slash && !backslash);
            }
        }
        i = i + 1;
    }
    false
}

/// The non-empty components of a path split at `/` and `\`.
pub open spec fn path_parts(p: Seq<char>) -> Seq<Seq<char>> {
    runs(p, Separator::PathSeparator)
}

/// There are files, and every one shares the same non-empty first path
/// component and has at least one more component after it: the torrent
/// brings its own wrapping folder.
pub open spec fn already_wrapped_spec(files: Seq<FileEntry>) -> bool {
    &&& files.len() > 0
    &&& path_parts(files[0].path@).len() >= 2
    &&& forall|i: int|
        0 <= i < files.len() ==> {
            let ps = #[trigger] path_parts(files[i].path@);
            ps.len() >= 2 && ps[0] == path_parts(files[0].path@)[0]
        }
}

/// True when the torrent already provides its own wrapping folder.
pub fn already_has_top_level_folder(files: &[FileEntry]) -> (b: bool)
    ensures
        b == already_wrapped_spec(files@),
{
    if files.len() == 0 {
        return false;
    }
    let c0 = chars_of(files[0].path.as_str());
    let first_parts = split_runs(c0.as_slice(), Separator::PathSeparator);
    if first_parts.len() < 2 {
        assert(first_parts.deep_view().len() == first_parts@.len());
        return false;
    }
    assert(first_parts.deep_view().len() == first_parts@.len());
    let first = &first_parts[0];
    proof {
        crate::text::lemma_chars_deep_view(*first);
    }
    for i in 0..files.len()
        invariant
            files@.len() > 0,
            path_parts(files@[0].path@).len() >= 2,
            first@ == path_parts(files@[0].path@)[0],
            forall|j: int| 0 <= j < i ==> {
                let ps = #[trigger] path_parts(files@[j].path@);
                ps.len() >= 2 && ps[0] == path_parts(files@[0].path@)[0]
            },
    {
        let ci = chars_of(files[i].path.as_str());
        let ps = split_runs(ci.as_slice(), Separator::PathSeparator);
        assert(ps.deep_view().len() == ps@.len());
        if ps.len() < 2 {
            assert(path_parts(files@[i as int].path@).len() < 2);
            return false;
        }
        proof {
            crate::text::lemma_chars_deep_view(ps@[0]);
        }
        if !crate::text::chars_eq(ps[0].as_slice(), first.as_slice()) {
            assert(path_parts(files@[i as int].path@)[0] != path_parts(files@[0].path@)[0]);
            return false;
        }
    }
    true
}

/// The replacement of one character of a folder name: characters illegal in
/// Windows file names and control characters become `_`.
pub open spec fn sanitize_char(c: char) -> char {
    if c == '<' || c == '>' || c == ':' || c == '"' || c == '/' || c == '\\' || c == '|' || c == '?'
        || c == '*' || (c as u32) < 32 {
        '_'
    } else {
        c
    }
}

/// `s` without its trailing spaces and dots.
pub open spec fn trim_trailing_dots_spaces(s: Seq<char>) -> Seq<char>
    decreases s.len(),
{
    if s.len() > 0 && (s.last() == ' ' || s.last() == '.') {
        trim_trailing_dots_spaces(s.drop_last())
    } else {
        s
    }
}

/// A folder name made safe for Windows: illegal characters replaced, trailing
/// spaces and dots removed, `Untitled` when nothing is left.
pub open spec fn sanitize_spec(name: Seq<char>) -> Seq<char> {
    let t = trim_trailing_dots_spaces(name.map_values(|c: char| sanitize_char(c)));
    if t.len() == 0 {
        "Untitled"@
    } else {
        t
    }
}

/// A character Windows does not allow in a file name: `<>:"/\|?*` and the
/// control characters.
pub open spec fn reserved_char(c: char) -> bool {
    c == '<' || c == '>' || c == ':' || c == '"' || c == '/' || c == '\\' || c == '|' || c == '?' || c == '*'
        || (c as u32) < 32
}

/// Trimming keeps a prefix that does not end in a space or a dot.
proof fn lemma_trim_trailing(s: Seq<char>)
    ensures
        trim_trailing_dots_spaces(s).len() <= s.len(),
        trim_trailing_dots_spaces(s) =~= s.take(trim_trailing_dots_spaces(s).len() as int),
        trim_trailing_dots_spaces(s).len() > 0 ==> trim_trailing_dots_spaces(s).last() != ' '
            && trim_trailing_dots_spaces(s).last() != '.',
    decreases s.len(),
{
    if s.len() > 0 && (s.last() == ' ' || s.last() == '.') {
        lemma_trim_trailing(s.drop_last());
    }
}

/// A sanitized folder name is a legal Windows file name: not empty, free of
/// reserved and control characters, and not ending in a space or a dot.
pub proof fn lemma_sanitized_is_legal(name: Seq<char>)
    ensures
        sanitize_spec(name).len() > 0,
        forall|i: int| 0 <= i < sanitize_spec(name).len() ==> !reserved_char(#[trigger] sanitize_spec(name)[i]),
        sanitize_spec(name).last() != ' ' && sanitize_spec(name).last() != '.',
{
    let mapped = name.map_values(|c: char| sanitize_char(c));
    lemma_trim_trailing(mapped);
    let t = trim_trailing_dots_spaces(mapped);
    if t.len() == 0 {
        reveal_strlit("Untitled");
    } else {
        assert forall|i: int| 0 <= i < t.len() implies !reserved_char(#[trigger] t[i]) by {
            assert(t[i] == mapped[i]);
        }
    }
}

/// Sanitizing a sanitized name changes nothing.
pub proof fn lemma_sanitize_idempotent(name: Seq<char>)
    ensures
        sanitize_spec(sanitize_spec(name)) == sanitize_spec(name),
{
    let s = sanitize_spec(name);
    lemma_sanitized_is_legal(name);
    let mapped = s.map_values(|c: char| sanitize_char(c));
    assert(mapped =~= s);
    assert(trim_trailing_dots_spaces(s) == s);
}

/// Sanitizing replaces only the characters Windows reserves, `<>:"/\|?*`
/// and the control characters, each by `_`, and drops trailing spaces and
/// dots: unless the name holds nothing but spaces and dots (then the result
/// is "Untitled"), the result is a prefix of the name, character for
/// character, with just those replacements; a name without reserved
/// characters that does not end in a space or a dot comes back unchanged.
pub proof fn lemma_sanitize_keeps_the_rest(name: Seq<char>)
    ensures
        (forall|i: int| 0 <= i < name.len() ==> name[i] == ' ' || name[i] == '.') ==> sanitize_spec(name)
            == "Untitled"@,
        (exists|i: int| 0 <= i < name.len() && name[i] != ' ' && name[i] != '.') ==> {
            let r = sanitize_spec(name);
            &&& 0 < r.len() <= name.len()
            &&& forall|i: int|
                0 <= i < r.len() ==> #[trigger] r[i] == (if name[i] == '<' || name[i] == '>' || name[i] == ':'
                    || name[i] == '"' || name[i] == '/' || name[i] == '\\' || name[i] == '|' || name[i] == '?'
                    || name[i] == '*' || (name[i] as u32) < 32 {
                    '_'
                } else {
                    name[i]
                })
        },
        name.len() > 0 && name.last() != ' ' && name.last() != '.' && (forall|i: int|
            0 <= i < name.len() ==> !(name[i] == '<' || name[i] == '>' || name[i] == ':' || name[i] == '"'
                || name[i] == '/' || name[i] == '\\' || name[i] == '|' || name[i] == '?' || name[i] == '*' || (
            name[i] as u32) < 32)) ==> sanitize_spec(name) == name,
{
    let mapped = name.map_values(|c: char| sanitize_char(c));
    lemma_trim_trailing(mapped);
    let t = trim_trailing_dots_spaces(mapped);
    if exists|i: int| 0 <= i < name.len() && name[i] != ' ' && name[i] != '.' {
        let w = choose|i: int| 0 <= i < name.len() && name[i] != ' ' && name[i] != '.';
        lemma_trim_keeps_upto(mapped, w);
        assert(t.len() > 0);
        assert forall|i: int| 0 <= i < t.len() implies #[trigger] t[i] == (if name[i] == '<' || name[i] == '>'
            || name[i] == ':' || name[i] == '"' || name[i] == '/' || name[i] == '\\' || name[i] == '|' || name[i]
            == '?' || name[i] == '*' || (name[i] as u32) < 32 {
            '_'
        } else {
            name[i]
        }) by {
            assert(t[i] == mapped[i]);
        }
    } else {
        lemma_trim_all_blank(mapped);
        reveal_strlit("Untitled");
    }
    if name.len() > 0 && name.last() != ' ' && name.last() != '.' && (forall|i: int|
        0 <= i < name.len() ==> !(name[i] == '<' || name[i] == '>' || name[i] == ':' || name[i] == '"'
            || name[i] == '/' || name[i] == '\\' || name[i] == '|' || name[i] == '?' || name[i] == '*' || (
        name[i] as u32) < 32)) {
        assert(mapped =~= name);
    }
}

/// Trimming keeps at least every character up to one that is neither a
/// space nor a dot.
proof fn lemma_trim_keeps_upto(s: Seq<char>, w: int)
    requires
        0 <= w < s.len(),
        s[w] != ' ' && s[w] != '.',
    ensures
        trim_trailing_dots_spaces(s).len() > w,
    decreases s.len(),
{
    if s.len() - 1 > w {
        if s.last() == ' ' || s.last() == '.' {
            lemma_trim_keeps_upto(s.drop_last(), w);
        }
    }
}

/// A text of spaces and dots trims to nothing.
proof fn lemma_trim_all_blank(s: Seq<char>)
    requires
        forall|i: int| 0 <= i < s.len() ==> s[i] == ' ' || s[i] == '.',
    ensures
        trim_trailing_dots_spaces(s).len() == 0,
    decreases s.len(),
{
    if s.len() > 0 {
        assert(s.last() == s[s.len() - 1]);
        lemma_trim_all_blank(s.drop_last());
    }
}

/// Replace characters illegal in Windows file names with `_`, trim trailing
/// spaces and dots, and use `Untitled` for an empty result.
pub fn sanitize_for_windows(name: &str) -> (s: String)
    ensures
        s@ == sanitize_spec(name@),
{
    let cs = chars_of(name);
    let mut out: Vec<char> = Vec::new();
    for i in 0..cs.len()
        invariant
            cs@ == name@,
            out@ == name@.take(i as int).map_values(|c: char| sanitize_char(c)),
    {
        let c = cs[i];
        let r = if c == '<' || c == '>' || c == ':' || c == '"' || c == '/' || c == '\\' || c == '|' || c == '?'
            || c == '*' || (c as u32) < 32 {
            '_'
        } else {
            c
        };
        out.push(r);
        assert(out@ =~= name@.take(i + 1).map_values(|c: char| sanitize_char(c)));
    }
    assert(name@.take(name@.len() as int) =~= name@);
    let ghost mapped = out@;
    let mut len = out.len();
    assert(mapped.take(len as int) =~= mapped);
    while len > 0 && (out[len - 1] == ' ' || out[len - 1] == '.')
        invariant
            len <= out@.len(),
            out@ == mapped,
            trim_trailing_dots_spaces(mapped) == trim_trailing_dots_spaces(mapped.take(len as int)),
        decreases len,
    {
        assert(mapped.take(len as int).drop_last() =~= mapped.take(len - 1));
        len = len - 1;
    }
    assert(trim_trailing_dots_spaces(mapped.take(len as int)) == mapped.take(len as int));
    if len == 0 {
        return "Untitled".to_owned();
    }
    let mut kept: Vec<char> = Vec::new();
    for i in 0..len
        invariant
            len <= out@.len(),
            kept@ == out@.take(i as int),
    {
        kept.push(out[i]);
        assert(kept@ =~= out@.take(i + 1));
    }
    string_from(kept.as_slice())
}

/// The category a new torrent is filed under: `Other` when it has internal
/// folders, otherwise by its files.
pub open spec fn save_category(files: Seq<FileEntry>, m: crate::category::CategoryMapView) -> Category {
    if has_internal_folders_spec(files) {
        Category::Other
    } else {
        resolve_spec(files, m)
    }
}

/// Where a torrent lands: its category folder under `root`; a torrent with
/// several files and no wrapping folder of its own is wrapped in a folder
/// named after it.
pub open spec fn save_path_spec(root: Seq<char>, meta: TorrentMetadata, m: crate::category::CategoryMapView) -> Seq<char> {
    let dir = joined_path(root, folder_name_spec(save_category(meta.files@, m)));
    if meta.files@.len() <= 1 || already_wrapped_spec(meta.files@) {
        dir
    } else {
        joined_path(dir, sanitize_spec(meta.name@))
    }
}

/// Decide where a torrent should land on disk.
pub fn decide_save_path(root: &str, meta: &TorrentMetadata, map: &CategoryMap) -> (p: String)
    requires
        !has_internal_folders_spec(meta.files@) ==> totals_fit(meta.files@, map@),
    ensures
        p@ == save_path_spec(root@, *meta, map@),
{
    let category = if has_internal_folders(meta.files.as_slice()) {
        Category::Other
    } else {
        resolve(meta.files.as_slice(), map)
    };
    let category_dir = join(root, category.folder_name());
    if meta.files.len() <= 1 {
        category_dir
    } else if already_has_top_level_folder(meta.files.as_slice()) {
        category_dir
    } else {
        let name = sanitize_for_windows(meta.name.as_str());
        join(category_dir.as_str(), name.as_str())
    }
}


/// Bytes `urlencoding` leaves as they are: ASCII letters and digits, `-`,
/// `.`, `_` and `~`.
pub open spec fn url_unreserved(b: u8) -> bool {
    (48 <= b <= 57) || (65 <= b <= 90) || (97 <= b <= 122) || b == 45 || b == 46 || b == 95 || b == 126
}

/// An upper-case hex digit.
pub open spec fn hex_digit_upper(d: u8) -> char {
    if d < 10 {
        (48 + d) as char
    } else {
        (55 + d) as char
    }
}

/// Percent-encoding of bytes: unreserved bytes stay, every other byte becomes
/// `%` and two upper-case hex digits.
pub open spec fn url_encode_bytes(b: Seq<u8>) -> Seq<char>
    decreases b.len(),
{
    if b.len() == 0 {
        seq![]
    } else {
        (if url_unreserved(b[0]) {
            seq![b[0] as char]
        } else {
            seq!['%', hex_digit_upper(b[0] / 16), hex_digit_upper(b[0] % 16)]
        }) + url_encode_bytes(b.drop_first())
    }
}

/// `urlencoding::encode`. Trusted: the result percent-encodes the UTF-8
/// bytes of `s`, keeping ASCII letters, digits and `-._~` (the crate's
/// documentation), with upper-case hex digits (its source).
#[verifier::external_body]
fn url_encode(s: &str) -> (r: String)
    ensures
        r@ == url_encode_bytes(encode_utf8(s@)),
{
    urlencoding::encode(s).into_owned()
}

/// `decide_save_path`, or `None` when the torrent has no internal folders
/// and some category's byte total does not fit in a `u64`.
pub fn try_decide_save_path(root: &str, meta: &TorrentMetadata, map: &CategoryMap) -> (p: Option<String>)
    ensures
        match p {
            Some(q) => (!has_internal_folders_spec(meta.files@) ==> totals_fit(meta.files@, map@)) && q@
                == save_path_spec(root@, *meta, map@),
            None => !has_internal_folders_spec(meta.files@) && !totals_fit(meta.files@, map@),
        },
{
    if has_internal_folders(meta.files.as_slice()) || category_totals_fit(meta.files.as_slice(), map) {
        Some(decide_save_path(root, meta, map))
    } else {
        None
    }
}

/// Why a torrent cannot be added.
#[derive(Debug, Clone, Copy, PartialEq, Eq, Structural)]
pub enum AddError {
    /// The torrent list already holds its infohash.
    AlreadyAdded,
}

impl AddError {
    /// The error code the user interface receives.
    pub fn code(self) -> (s: &'static str)
        ensures
            s@ == "already_added"@,
    {
        match self {
            AddError::AlreadyAdded => "already_added",
        }
    }
}

/// Where a new torrent is saved, once its metadata is known: refused when the
/// list already holds its infohash; otherwise the folder the user chose, or
/// the one `decide_save_path` picks under the download root.
pub fn add_destination(
    state: &StateStore,
    meta: &TorrentMetadata,
    override_path: Option<String>,
    root: &str,
    map: &CategoryMap,
) -> (r: Result<String, AddError>)
    requires
        !has_hash(state@, meta.infohash.0@) && override_path is None && !has_internal_folders_spec(meta.files@)
            ==> totals_fit(meta.files@, map@),
    ensures
        has_hash(state@, meta.infohash.0@) ==> r == Err::<String, AddError>(AddError::AlreadyAdded),
        !has_hash(state@, meta.infohash.0@) ==> (r matches Ok(p) && p@ == (match override_path {
            Some(o) => o@,
            None => save_path_spec(root@, *meta, map@),
        })),
{
    if state.contains(meta.infohash.as_str()) {
        return Err(AddError::AlreadyAdded);
    }
    match override_path {
        Some(p) => Ok(p),
        None => Ok(decide_save_path(root, meta, map)),
    }
}

/// `add_destination`, or `None` when it would have to size a torrent that
/// is not stored, has no chosen folder and no internal folders, and whose
/// byte total of some category does not fit in a `u64`.
pub fn try_add_destination(
    state: &StateStore,
    meta: &TorrentMetadata,
    override_path: Option<String>,
    root: &str,
    map: &CategoryMap,
) -> (r: Option<Result<String, AddError>>)
    ensures
        ({
            let sized = !has_hash(state@, meta.infohash.0@) && override_path is None
                && !has_internal_folders_spec(meta.files@);
            match r {
                None => sized && !totals_fit(meta.files@, map@),
                Some(res) => (sized ==> totals_fit(meta.files@, map@)) && (has_hash(state@, meta.infohash.0@)
                    ==> res == Err::<String, AddError>(AddError::AlreadyAdded)) && (!has_hash(
                    state@,
                    meta.infohash.0@,
                ) ==> (res matches Ok(p) && p@ == (match override_path {
                    Some(o) => o@,
                    None => save_path_spec(root@, *meta, map@),
                }))),
            }
        }),
{
    let sized = !state.contains(meta.infohash.as_str()) && override_path.is_none() && !has_internal_folders(
        meta.files.as_slice(),
    );
    if sized && !category_totals_fit(meta.files.as_slice(), map) {
        None
    } else {
        Some(add_destination(state, meta, override_path, root, map))
    }
}

/// The record of a newly added torrent: downloading, at the given queue
/// position (the end of the queue), not forced and without per-torrent
/// limits; its name and size come from its metadata.
pub fn new_record(
    infohash: String,
    meta: &TorrentMetadata,
    save_path: String,
    added_at: i64,
    selected_files: Option<Vec<usize>>,
    queue_position: u32,
) -> (r: TorrentRecord)
    ensures
        r@ == (RecordView {
            infohash: infohash@,
            display_name: meta.name@,
            save_path: save_path@,
            state: TorrentState::Downloading,
            added_at,
            total_size: meta.total_size,
            selected_files: match selected_files {
                Some(v) => Some(v@),
                None => None,
            },
            queue_position,
            forced: false,
            dl_limit: 0,
            ul_limit: 0,
        }),
{
    TorrentRecord {
        infohash,
        display_name: meta.name.clone(),
        save_path,
        state: TorrentState::Downloading,
        added_at,
        total_size: meta.total_size,
        selected_files,
        queue_position,
        forced: false,
        dl_limit: 0,
        ul_limit: 0,
    }
}

/// UTF-8 encoding distributes over concatenation.
proof fn lemma_encode_utf8_concat(a: Seq<char>, c: Seq<char>)
    ensures
        encode_utf8(a + c) == encode_utf8(a) + encode_utf8(c),
    decreases a.len(),
{
    if a.len() > 0 {
        assert((a + c).drop_first() =~= a.drop_first() + c);
        lemma_encode_utf8_concat(a.drop_first(), c);
        assert((a + c)[0] == a[0]);
    } else {
        assert(a + c =~= c);
    }
}

/// An ASCII character is encoded as its own byte.
proof fn lemma_encode_ascii(x: u8)
    requires
        x < 128,
    ensures
        encode_utf8(seq![x as char]) == seq![x],
{
    let v = (x as char) as u32;
    assert(v == x);
    assert(v < 128 ==> (v & 0x7F) == v) by (bit_vector);
    assert(seq![x as char].drop_first() =~= Seq::<char>::empty());
    assert(encode_utf8(seq![x as char]) =~= encode_scalar(v) + encode_utf8(Seq::<char>::empty()));
}

/// The byte of an upper-case hex digit, and its value read back.
proof fn lemma_hex_digit(d: u8)
    requires
        d < 16,
    ensures
        (hex_digit_upper(d) as u32) < 128,
        hex_value((hex_digit_upper(d) as u32) as u8) == Some(d),
{
}

/// Percent-decoding, as a magnet parameter is read, gives back exactly the
/// bytes that the link's percent-encoding encoded: a name copied into a
/// magnet link is read back byte for byte.
pub proof fn lemma_percent_decode_undoes_encoding(b: Seq<u8>)
    ensures
        percent_decode(encode_utf8(url_encode_bytes(b))) == b,
    decreases b.len(),
{
    if b.len() == 0 {
        assert(url_encode_bytes(b) =~= Seq::<char>::empty());
        assert(encode_utf8(Seq::<char>::empty()) =~= Seq::<u8>::empty());
    } else {
        let x = b[0];
        let rest = url_encode_bytes(b.drop_first());
        let r = encode_utf8(rest);
        lemma_percent_decode_undoes_encoding(b.drop_first());
        if url_unreserved(x) {
            let piece = seq![x as char];
            lemma_encode_utf8_concat(piece, rest);
            lemma_encode_ascii(x);
            let bytes = seq![x] + r;
            assert(bytes.drop_first() =~= r);
            assert(percent_decode(bytes) =~= seq![x] + percent_decode(r));
            assert(seq![x] + b.drop_first() =~= b);
        } else {
            let hi = hex_digit_upper(x / 16);
            let lo = hex_digit_upper(x % 16);
            lemma_hex_digit(x / 16);
            lemma_hex_digit(x % 16);
            let hb = (hi as u32) as u8;
            let lb = (lo as u32) as u8;
            assert(hi == (hb as char));
            assert(lo == (lb as char));
            let piece = seq!['%', hi, lo];
            assert(piece =~= seq!['%'] + seq![hi] + seq![lo]);
            lemma_encode_utf8_concat(seq!['%'] + seq![hi], seq![lo]);
            lemma_encode_utf8_concat(seq!['%'], seq![hi]);
            lemma_encode_utf8_concat(piece, rest);
            lemma_encode_ascii(37);
            assert(seq!['%'] == seq![37u8 as char]);
            lemma_encode_ascii(hb);
            lemma_encode_ascii(lb);
            let bytes = seq![37u8, hb, lb] + r;
            assert(encode_utf8(piece) =~= seq![37u8, hb, lb]);
            assert(bytes.subrange(3, bytes.len() as int) =~= r);
            assert(bytes[1] == hb && bytes[2] == lb);
            assert((x / 16 * 16 + x % 16) as u8 == x);
            assert(percent_decode(bytes) =~= seq![x] + percent_decode(r));
            assert(seq![x] + b.drop_first() =~= b);
        }
    }
}

/// The magnet link for a torrent: its infohash and its URL-encoded name.
pub open spec fn magnet_link_spec(infohash: Seq<char>, name: Seq<char>) -> Seq<char> {
    "magnet:?xt=urn:btih:"@ + infohash + "&dn="@ + url_encode_bytes(encode_utf8(name))
}

/// The magnet link that "Copy magnet" puts on the clipboard.
pub fn magnet_link(infohash: &str, display_name: &str) -> (link: String)
    ensures
        link@ == magnet_link_spec(infohash@, display_name@),
{
    let mut link = String::new();
    link.append("magnet:?xt=urn:btih:");
    link.append(infohash);
    link.append("&dn=");
    let encoded = url_encode(display_name);
    link.append(encoded.as_str());
    assert(link@ =~= magnet_link_spec(infohash@, display_name@));
    link
}

/// A new file selection must keep at least one file: deselecting every file
/// would freeze the torrent, so it has to be removed instead.
pub fn selection_allowed(selected: &[usize]) -> (ok: bool)
    ensures
        ok == (selected@.len() > 0),
{
    selected.len() > 0
}

} // verus!
