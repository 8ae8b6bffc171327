//! Parsing `magnet:?` links: the infohash, the display name and the trackers.

use vstd::prelude::*;
use vstd::utf8::{decode_utf8, encode_scalar, encode_utf8, valid_utf8};
use crate::text::{
    lemma_trim_unchanged, white_space, chars_eq, chars_of, chars_start_with, lower, starts_with, string_from, string_from_lower, trim,
    trim_chars,
};

verus! {

/// A torrent's infohash in lower-case hex.
#[derive(Debug, PartialEq, Eq, Hash)]
pub struct InfoHash(pub String);

impl InfoHash {
    /// The infohash text.
    pub fn as_str(&self) -> (s: &str)
        ensures
            s@ == self.0@,
    {
        self.0.as_str()
    }
}

impl Clone for InfoHash {
    fn clone(&self) -> (r: Self)
        ensures
            r.0@ == self.0@,
    {
        InfoHash(self.0.clone())
    }
}

/// What a magnet link holds.
#[derive(Debug)]
pub struct ParsedMagnet {
    pub infohash: InfoHash,
    pub display_name: Option<String>,
    pub trackers: Vec<String>,
}

/// Why a text is not an acceptable magnet link.
#[derive(Debug, Clone, Copy, PartialEq, Eq, Structural)]
pub enum MagnetError {
    /// It does not start with `magnet:?` (after trimming white space).
    NotMagnet,
    /// It has no `xt=urn:btih:` parameter.
    MissingInfohash,
    /// The infohash is neither 40 nor 32 bytes long; its length.
    WrongLength(usize),
}

/// The text of a parsed link as plain values.
pub struct MagnetView {
    pub infohash: Seq<char>,
    pub display_name: Option<Seq<char>>,
    pub trackers: Seq<Seq<char>>,
}

impl View for ParsedMagnet {
    type V = MagnetView;

    open spec fn view(&self) -> MagnetView {
        MagnetView {
            infohash: self.infohash.0@,
            display_name: match self.display_name {
                Some(d) => Some(d@),
                None => None,
            },
            trackers: self.trackers.deep_view(),
        }
    }
}

/// The value of a hex digit.
pub open spec fn hex_value(c: u8) -> Option<u8> {
    if 48 <= c <= 57 {
        Some((c - 48) as u8)
    } else if 97 <= c <= 102 {
        Some((c - 97 + 10) as u8)
    } else if 65 <= c <= 70 {
        Some((c - 65 + 10) as u8)
    } else {
        None
    }
}

/// The value of a hex digit, if `c` is one.
pub fn hex(c: u8) -> (v: Option<u8>)
    ensures
        v == hex_value(c),
{
    if c >= 48 && c <= 57 {
        Some(c - 48)
    } else if c >= 97 && c <= 102 {
        Some(c - 97 + 10)
    } else if c >= 65 && c <= 70 {
        Some(c - 65 + 10)
    } else {
        None
    }
}

/// Percent-decoding of bytes: `+` is a space, `%` and two hex digits is the
/// byte they spell; anything else (a lone or malformed `%` too) is kept.
pub open spec fn percent_decode(b: Seq<u8>) -> Seq<u8>
    decreases b.len(),
{
    if b.len() == 0 {
        seq![]
    } else if b[0] == 43 {
        seq![32u8] + percent_decode(b.drop_first())
    } else if b[0] == 37 && 2 < b.len() && hex_value(b[1]) is Some && hex_value(b[2]) is Some {
        seq![(hex_value(b[1])->0 * 16 + hex_value(b[2])->0) as u8] + percent_decode(b.subrange(3, b.len() as int))
    } else {
        seq![b[0]] + percent_decode(b.drop_first())
    }
}

/// The text `String::from_utf8_lossy` makes of some bytes.
pub uninterp spec fn utf8_lossy(bytes: Seq<u8>) -> Seq<char>;

/// `String::from_utf8_lossy`, owned. Trusted: the result is
/// `utf8_lossy(bytes)`, and for valid UTF-8 it is the decoded text (the
/// documentation: invalid sequences become U+FFFD; valid input converts as
/// `from_utf8` does). Which replacement characters invalid input yields is
/// left to the name.
#[verifier::external_body]
fn from_utf8_lossy(bytes: &[u8]) -> (s: String)
    ensures
        s@ == utf8_lossy(bytes@),
        valid_utf8(bytes@) ==> s@ == decode_utf8(bytes@),
{
    String::from_utf8_lossy(bytes).into_owned()
}

/// A value of a magnet parameter, decoded: percent-decoded, then read as
/// UTF-8 (the text the bytes spell when they are valid UTF-8).
pub open spec fn url_decode_spec(v: Seq<char>) -> Seq<char> {
    let b = percent_decode(encode_utf8(v));
    if valid_utf8(b) {
        decode_utf8(b)
    } else {
        utf8_lossy(b)
    }
}

/// Bytes with none of `%` and `+` are kept by percent-decoding.
proof fn lemma_percent_decode_plain(b: Seq<u8>)
    requires
        forall|i: int| 0 <= i < b.len() ==> b[i] != 37 && b[i] != 43,
    ensures
        percent_decode(b) == b,
    decreases b.len(),
{
    if b.len() > 0 {
        lemma_percent_decode_plain(b.drop_first());
        assert(seq![b[0]] + b.drop_first() =~= b);
    }
}

proof fn lemma_high_bit(y: u8)
    by (bit_vector)
    ensures
        (0x80u8 | y) >= 0x80,
        (0xC0u8 | y) >= 0x80,
        (0xE0u8 | y) >= 0x80,
        (0xF0u8 | y) >= 0x80,
{
}

/// The UTF-8 encoding of a character other than `%` and `+` holds neither
/// byte.
proof fn lemma_scalar_plain(c: char)
    requires
        c != '%',
        c != '+',
    ensures
        forall|i: int| 0 <= i < encode_scalar(c as u32).len() ==> #[trigger] encode_scalar(c as u32)[i] != 37
            && encode_scalar(c as u32)[i] != 43,
{
    let x = c as u32;
    let e = encode_scalar(x);
    vstd::utf8::char_is_scalar(c);
    assert forall|i: int| 0 <= i < e.len() implies e[i] != 37 && e[i] != 43 by {
        if x <= 0x7F {
            assert(x < 128 ==> (x & 0x7F) == x) by (bit_vector);
            vstd::utf8::char_u32_cast(c, x);
            assert(e[0] == x);
        } else {
            lemma_high_bit(((x >> 6) & 0x1F) as u8);
            lemma_high_bit(((x >> 12) & 0x0F) as u8);
            lemma_high_bit(((x >> 18) & 0x7) as u8);
            lemma_high_bit((x & 0x3F) as u8);
            lemma_high_bit(((x >> 6) & 0x3F) as u8);
            lemma_high_bit(((x >> 12) & 0x3F) as u8);
        }
    }
}

/// The UTF-8 encoding of a text without `%` and `+` holds neither byte.
proof fn lemma_encode_plain(v: Seq<char>)
    requires
        !v.contains('%'),
        !v.contains('+'),
    ensures
        forall|i: int| 0 <= i < encode_utf8(v).len() ==> encode_utf8(v)[i] != 37 && encode_utf8(v)[i] != 43,
    decreases v.len(),
{
    if v.len() > 0 {
        let rest = v.drop_first();
        assert forall|j: int| 0 <= j < rest.len() implies rest[j] != '%' && rest[j] != '+' by {
            assert(rest[j] == v[j + 1]);
        }
        lemma_encode_plain(rest);
        assert(v[0] != '%' && v[0] != '+') by {
            assert(v.contains(v[0]));
        }
        let e = encode_scalar(v[0] as u32);
        lemma_scalar_plain(v[0]);
        let all = encode_utf8(v);
        assert(all =~= e + encode_utf8(rest));
        assert forall|i: int| 0 <= i < all.len() implies all[i] != 37 && all[i] != 43 by {
            if i < e.len() {
                assert(all[i] == e[i]);
            } else {
                assert(all[i] == encode_utf8(rest)[i - e.len()]);
            }
        }
    }
}

/// Bytes with none of `%` and `+` in front pass through percent-decoding.
proof fn lemma_percent_decode_prefix(e: Seq<u8>, r: Seq<u8>)
    requires
        forall|i: int| 0 <= i < e.len() ==> e[i] != 37 && e[i] != 43,
    ensures
        percent_decode(e + r) == e + percent_decode(r),
    decreases e.len(),
{
    if e.len() > 0 {
        lemma_percent_decode_prefix(e.drop_first(), r);
        assert((e + r).drop_first() =~= e.drop_first() + r);
        assert((e + r)[0] == e[0]);
        assert(seq![e[0]] + (e.drop_first() + percent_decode(r)) =~= e + percent_decode(r));
    } else {
        assert(e + r =~= r);
        assert(e + percent_decode(r) =~= percent_decode(r));
    }
}

/// `v` with every `+` read as a space.
pub open spec fn plus_as_space(v: Seq<char>) -> Seq<char> {
    v.map_values(|c: char| if c == '+' { ' ' } else { c })
}

/// Percent-decoding the UTF-8 of a text without `%` gives the UTF-8 of the
/// text with `+` read as a space.
proof fn lemma_percent_decode_plus(v: Seq<char>)
    requires
        !v.contains('%'),
    ensures
        percent_decode(encode_utf8(v)) == encode_utf8(plus_as_space(v)),
    decreases v.len(),
{
    if v.len() == 0 {
        assert(plus_as_space(v) =~= v);
    } else {
        let rest = v.drop_first();
        assert(!rest.contains('%')) by {
            if rest.contains('%') {
                let j = choose|j: int| 0 <= j < rest.len() && rest[j] == '%';
                assert(v[j + 1] == '%');
            }
        }
        lemma_percent_decode_plus(rest);
        let ps = plus_as_space(v);
        assert(ps.drop_first() =~= plus_as_space(rest));
        assert(encode_utf8(v) =~= encode_scalar(v[0] as u32) + encode_utf8(rest));
        assert(encode_utf8(ps) =~= encode_scalar(ps[0] as u32) + encode_utf8(plus_as_space(rest)));
        assert(v[0] != '%') by {
            assert(v.contains(v[0]));
        }
        if v[0] == '+' {
            assert(encode_scalar(('+' as u32)) =~= seq![43u8]) by {
                assert(('+' as u32) == 43);
                assert((43u32 & 0x7F) == 43) by (bit_vector);
            }
            assert(encode_scalar((' ' as u32)) =~= seq![32u8]) by {
                assert((' ' as u32) == 32);
                assert((32u32 & 0x7F) == 32) by (bit_vector);
            }
            let all = seq![43u8] + encode_utf8(rest);
            assert(all.drop_first() =~= encode_utf8(rest));
        } else {
            lemma_scalar_plain(v[0]);
            lemma_percent_decode_prefix(encode_scalar(v[0] as u32), encode_utf8(rest));
        }
    }
}

/// A parameter value without `%` decodes to itself with `+` read as a space.
pub proof fn lemma_url_decode_plus(v: Seq<char>)
    requires
        !v.contains('%'),
    ensures
        url_decode_spec(v) == plus_as_space(v),
{
    lemma_percent_decode_plus(v);
    vstd::utf8::encode_utf8_valid_utf8(plus_as_space(v));
    vstd::utf8::encode_utf8_decode_utf8(plus_as_space(v));
}

/// A parameter value without `%` and `+` decodes to itself.
pub proof fn lemma_url_decode_plain(v: Seq<char>)
    requires
        !v.contains('%'),
        !v.contains('+'),
    ensures
        url_decode_spec(v) == v,
{
    lemma_encode_plain(v);
    lemma_percent_decode_plain(encode_utf8(v));
    vstd::utf8::encode_utf8_valid_utf8(v);
    vstd::utf8::encode_utf8_decode_utf8(v);
}

/// Decode a percent-encoded value (`+` as space), then read the bytes as
/// UTF-8 with invalid sequences replaced.
pub fn urldecode(s: &str) -> (r: String)
    ensures
        r@ == url_decode_spec(s@),
        !s@.contains('%') && !s@.contains('+') ==> r@ == s@,
{
    proof {
        if !s@.contains('%') && !s@.contains('+') {
            lemma_url_decode_plain(s@);
        }
    }
    let bytes = s.as_bytes();
    let n = bytes.len();
    let mut out: Vec<u8> = Vec::new();
    let mut i: usize = 0;
    assert(bytes@.subrange(0, n as int) =~= bytes@);
    assert(out@ + bytes@ =~= bytes@);
    while i < n
        invariant
            n == bytes@.len(),
            bytes@ == encode_utf8(s@),
            i <= n,
            out@ + percent_decode(bytes@.subrange(i as int, n as int)) == percent_decode(bytes@),
        decreases n - i,
    {
        let ghost rest = bytes@.subrange(i as int, n as int);
        let b = bytes[i];
        if b == 43 {
            out.push(32);
            assert(rest.drop_first() =~= bytes@.subrange(i + 1, n as int));
            assert(out@ + percent_decode(bytes@.subrange(i + 1, n as int)) =~= out@.drop_last() + percent_decode(rest));
            i = i + 1;
        } else if b == 37 && n - i > 2 {
            let hi = hex(bytes[i + 1]);
            let lo = hex(bytes[i + 2]);
            match (hi, lo) {
                (Some(h), Some(l)) => {
                    out.push(h * 16 + l);
                    assert(rest.subrange(3, rest.len() as int) =~= bytes@.subrange(i + 3, n as int));
                    assert(out@ + percent_decode(bytes@.subrange(i + 3, n as int)) =~= out@.drop_last() + percent_decode(rest));
                    i = i + 3;
                },
                _ => {
                    out.push(b);
                    assert(rest.drop_first() =~= bytes@.subrange(i + 1, n as int));
                    assert(out@ + percent_decode(bytes@.subrange(i + 1, n as int)) =~= out@.drop_last() + percent_decode(rest));
                    i = i + 1;
                },
            }
        } else {
            out.push(b);
            assert(rest.drop_first() =~= bytes@.subrange(i + 1, n as int));
            assert(out@ + percent_decode(bytes@.subrange(i + 1, n as int)) =~= out@.drop_last() + percent_decode(rest));
            i = i + 1;
        }
    }
    assert(bytes@.subrange(n as int, n as int) =~= Seq::<u8>::empty());
    assert(out@ =~= percent_decode(bytes@));
    from_utf8_lossy(out.as_slice())
}


/// The pieces of `s` between occurrences of `sep`, empty pieces kept
/// (`str::split` with one character).
pub open spec fn pieces(s: Seq<char>, sep: char) -> Seq<Seq<char>>
    decreases s.len(),
{
    if s.len() == 0 {
        seq![seq![]]
    } else {
        let p = pieces(s.drop_last(), sep);
        if s.last() == sep {
            p.push(seq![])
        } else {
            p.update(p.len() - 1, p.last().push(s.last()))
        }
    }
}

proof fn lemma_pieces_nonempty(s: Seq<char>, sep: char)
    ensures
        pieces(s, sep).len() >= 1,
    decreases s.len(),
{
    if s.len() > 0 {
        lemma_pieces_nonempty(s.drop_last(), sep);
    }
}

/// Index of the first `c` in `s`, or `s.len()` when there is none.
pub open spec fn find_char(s: Seq<char>, c: char) -> int
    decreases s.len(),
{
    if s.len() == 0 {
        0
    } else if s[0] == c {
        0
    } else {
        1 + find_char(s.drop_first(), c)
    }
}

proof fn lemma_find_char(s: Seq<char>, c: char)
    ensures
        0 <= find_char(s, c) <= s.len(),
        find_char(s, c) < s.len() ==> s[find_char(s, c)] == c,
        forall|j: int| 0 <= j < find_char(s, c) ==> s[j] != c,
    decreases s.len(),
{
    if s.len() > 0 && s[0] != c {
        lemma_find_char(s.drop_first(), c);
        assert forall|j: int| 0 <= j < find_char(s, c) implies s[j] != c by {
            if j > 0 {
                assert(s[j] == s.drop_first()[j - 1]);
            }
        }
    }
}

/// What has been read from the parameters so far.
pub struct ScanState {
    pub infohash: Option<Seq<char>>,
    pub display_name: Option<Seq<char>>,
    pub trackers: Seq<Seq<char>>,
}

/// Reading one `key=value` parameter: `xt` with a `urn:btih:` value sets the
/// infohash (lower-cased), `dn` the display name, `tr` adds a tracker; a
/// parameter without `=` and any other key change nothing. Values are
/// decoded first; later parameters win.
pub open spec fn scan_step(st: ScanState, pair: Seq<char>) -> ScanState {
    let i = find_char(pair, '=');
    if i == pair.len() {
        st
    } else {
        let key = pair.take(i);
        let value = url_decode_spec(pair.skip(i + 1));
        if key == "xt"@ {
            if starts_with(value, "urn:btih:"@) {
                ScanState { infohash: Some(lower(value.skip("urn:btih:"@.len() as int))), ..st }
            } else {
                st
            }
        } else if key == "dn"@ {
            ScanState { display_name: Some(value), ..st }
        } else if key == "tr"@ {
            ScanState { trackers: st.trackers.push(value), ..st }
        } else {
            st
        }
    }
}

/// Reading parameters in order from nothing.
pub open spec fn scan(pairs: Seq<Seq<char>>) -> ScanState
    decreases pairs.len(),
{
    if pairs.len() == 0 {
        ScanState { infohash: None, display_name: None, trackers: seq![] }
    } else {
        scan_step(scan(pairs.drop_last()), pairs.last())
    }
}

/// The result of parsing `text` as a magnet link. The text is trimmed; it
/// must start with `magnet:?`; the rest is `&`-separated parameters; an
/// infohash must be present and 40 or 32 bytes long.
pub open spec fn parse_spec(text: Seq<char>) -> Result<MagnetView, MagnetError> {
    let t = trim(text);
    if !starts_with(t, "magnet:?"@) {
        Err(MagnetError::NotMagnet)
    } else {
        let st = scan(pieces(t.skip("magnet:?"@.len() as int), '&'));
        match st.infohash {
            None => Err(MagnetError::MissingInfohash),
            Some(h) => {
                let n = encode_utf8(h).len() as usize;
                if n == 40 || n == 32 {
                    Ok(MagnetView { infohash: h, display_name: st.display_name, trackers: st.trackers })
                } else {
                    Err(MagnetError::WrongLength(n))
                }
            },
        }
    }
}

/// Text without `sep` is a single piece.
proof fn lemma_pieces_single(a: Seq<char>, sep: char)
    requires
        !a.contains(sep),
    ensures
        pieces(a, sep) == seq![a],
    decreases a.len(),
{
    if a.len() > 0 {
        let b = a.drop_last();
        assert(!b.contains(sep)) by {
            if b.contains(sep) {
                let j = choose|j: int| 0 <= j < b.len() && b[j] == sep;
                assert(a[j] == sep);
            }
        }
        lemma_pieces_single(b, sep);
        assert(a.last() != sep) by {
            assert(a.contains(a[a.len() - 1]));
        }
        assert(b.push(a.last()) =~= a);
        assert(seq![b].update(0, b.push(a.last())) =~= seq![a]);
    } else {
        assert(a =~= Seq::<char>::empty());
    }
}

/// The pieces of `a`, a separator and `b` are those of `a`, then those of `b`.
proof fn lemma_pieces_concat(a: Seq<char>, b: Seq<char>, sep: char)
    ensures
        pieces(a + seq![sep] + b, sep) == pieces(a, sep) + pieces(b, sep),
    decreases b.len(),
{
    lemma_pieces_nonempty(a, sep);
    let s = a + seq![sep] + b;
    if b.len() == 0 {
        assert(s.drop_last() =~= a);
        assert(s.last() == sep);
        assert(pieces(b, sep) == seq![Seq::<char>::empty()]);
        assert(pieces(a, sep).push(Seq::<char>::empty()) =~= pieces(a, sep) + seq![Seq::<char>::empty()]);
    } else {
        let b2 = b.drop_last();
        assert(s.drop_last() =~= a + seq![sep] + b2);
        assert(s.last() == b.last());
        lemma_pieces_concat(a, b2, sep);
        lemma_pieces_nonempty(b2, sep);
        let pa = pieces(a, sep);
        let pb = pieces(b2, sep);
        if b.last() == sep {
            assert((pa + pb).push(Seq::<char>::empty()) =~= pa + pb.push(Seq::<char>::empty()));
        } else {
            assert((pa + pb).update((pa + pb).len() - 1, (pa + pb).last().push(b.last())) =~= pa + pb.update(
                pb.len() - 1,
                pb.last().push(b.last()),
            ));
        }
    }
}

/// A parameter `k1 k2 = r`: its key is `k1 k2` and its raw value `r`.
proof fn lemma_pair_parts(k1: char, k2: char, r: Seq<char>)
    requires
        k1 != '=',
        k2 != '=',
    ensures
        find_char(seq![k1, k2, '='] + r, '=') == 2,
        (seq![k1, k2, '='] + r).take(2) == seq![k1, k2],
        (seq![k1, k2, '='] + r).skip(3) == r,
        (seq![k1, k2, '='] + r).len() == r.len() + 3,
{
    let p = seq![k1, k2, '='] + r;
    assert(p.drop_first() =~= seq![k2, '='] + r);
    assert(p.drop_first().drop_first() =~= seq!['='] + r);
    assert(find_char(seq!['='] + r, '=') == 0);
    assert(find_char(seq![k2, '='] + r, '=') == 1);
    assert(p.take(2) =~= seq![k1, k2]);
    assert(p.skip(3) =~= r);
}

/// An infohash as a plain link writes it: ASCII text without `&`, `%`, `+`
/// and white space.
pub open spec fn plain_hash(h: Seq<char>) -> bool {
    forall|i: int|
        0 <= i < h.len() ==> (#[trigger] h[i] as u32) < 128 && !white_space(h[i]) && h[i] != '&' && h[i] != '%'
            && h[i] != '+'
}

/// The link `magnet:?xt=urn:btih:<h>`, followed by `&dn=<name>` when a name
/// is given.
pub open spec fn simple_link(h: Seq<char>, name: Option<Seq<char>>) -> Seq<char> {
    "magnet:?xt=urn:btih:"@ + h + match name {
        Some(n) => "&dn="@ + n,
        None => Seq::<char>::empty(),
    }
}

/// The first parameter of a plain link, `xt=urn:btih:<h>`, sets the
/// infohash to `h` lower-cased.
proof fn lemma_xt_pair(h: Seq<char>)
    requires
        plain_hash(h),
    ensures
        !(seq!['x', 't', '='] + ("urn:btih:"@ + h)).contains('&'),
        scan_step(ScanState { infohash: None, display_name: None, trackers: seq![] }, seq!['x', 't', '='] + ("urn:btih:"@ + h))
            == (ScanState { infohash: Some(lower(h)), display_name: None, trackers: seq![] }),
{
    reveal_strlit("xt");
    reveal_strlit("urn:btih:");
    let urn = "urn:btih:"@;
    let v1 = urn + h;
    let p1 = seq!['x', 't', '='] + v1;
    assert(!v1.contains('%') && !v1.contains('+') && !v1.contains('&')) by {
        assert forall|j: int| 0 <= j < v1.len() implies v1[j] != '%' && v1[j] != '+' && v1[j] != '&' by {
            if j >= 9 {
                assert(v1[j] == h[j - 9]);
            }
        }
    }
    assert(!p1.contains('&')) by {
        assert forall|j: int| 0 <= j < p1.len() implies p1[j] != '&' by {
            if j >= 3 {
                assert(p1[j] == v1[j - 3]);
            }
        }
    }
    lemma_pair_parts('x', 't', v1);
    lemma_url_decode_plain(v1);
    assert(v1.subrange(0, 9) =~= urn);
    assert(v1.skip(9) =~= h);
    assert(p1.take(2) == "xt"@);
    assert(urn.len() == 9);
    assert(starts_with(v1, urn));
    assert(v1.skip(urn.len() as int) == h);
    assert(url_decode_spec(p1.skip(3)) == v1);
}

/// A `dn=<n>` parameter sets the display name to `n` decoded.
proof fn lemma_dn_pair(st: ScanState, n: Seq<char>)
    requires
        !n.contains('&'),
    ensures
        !(seq!['d', 'n', '='] + n).contains('&'),
        scan_step(st, seq!['d', 'n', '='] + n) == (ScanState { display_name: Some(url_decode_spec(n)), ..st }),
{
    reveal_strlit("xt");
    reveal_strlit("dn");
    let p2 = seq!['d', 'n', '='] + n;
    assert(!p2.contains('&')) by {
        assert forall|j: int| 0 <= j < p2.len() implies p2[j] != '&' by {
            if j >= 3 {
                assert(p2[j] == n[j - 3]);
            }
        }
    }
    lemma_pair_parts('d', 'n', n);
    assert(p2.take(2) == "dn"@);
    assert(p2.take(2) != "xt"@) by {
        assert(p2.take(2)[0] != "xt"@[0]);
    }
}

/// The parameters of a plain link, read in order.
proof fn lemma_simple_scan(h: Seq<char>, name: Option<Seq<char>>)
    requires
        plain_hash(h),
        name matches Some(n) ==> !n.contains('&'),
    ensures
        scan(pieces(simple_link(h, name).skip(8), '&')) == (ScanState {
            infohash: Some(lower(h)),
            display_name: match name {
                Some(n) => Some(url_decode_spec(n)),
                None => None,
            },
            trackers: seq![],
        }),
{
    reveal_strlit("magnet:?xt=urn:btih:");
    reveal_strlit("&dn=");
    reveal_strlit("urn:btih:");
    let text = simple_link(h, name);
    let q = text.skip(8);
    let p1 = seq!['x', 't', '='] + ("urn:btih:"@ + h);
    let st0 = ScanState { infohash: None, display_name: None, trackers: seq![] };
    let st1 = ScanState { infohash: Some(lower(h)), display_name: None, trackers: seq![] };
    lemma_xt_pair(h);
    lemma_pieces_single(p1, '&');
    assert(scan(Seq::<Seq<char>>::empty()) == st0);
    assert(seq![p1].drop_last() =~= Seq::<Seq<char>>::empty());
    assert(seq![p1].last() == p1);
    assert(scan(seq![p1]) == st1);
    match name {
        None => {
            assert(q =~= p1);
        },
        Some(n) => {
            let p2 = seq!['d', 'n', '='] + n;
            assert(q =~= p1 + seq!['&'] + p2);
            lemma_dn_pair(st1, n);
            lemma_pieces_concat(p1, p2, '&');
            lemma_pieces_single(p2, '&');
            let ps = seq![p1, p2];
            assert(pieces(q, '&') =~= ps);
            assert(ps.drop_last() =~= seq![p1]);
            assert(ps.last() == p2);
        },
    }
}

/// A link `magnet:?xt=urn:btih:<h>` (with `&dn=<name>`) parses to `h`
/// lower-cased, the decoded name and no trackers when `h` is 40 or 32
/// characters long, and is refused with its length otherwise; `h` is a
/// plain infohash and the name holds no `&` and does not end in white space.
pub proof fn lemma_simple_link_parses(h: Seq<char>, name: Option<Seq<char>>)
    requires
        plain_hash(h),
        h.len() <= usize::MAX,
        name matches Some(n) ==> !n.contains('&') && (n.len() > 0 ==> !white_space(n.last())),
    ensures
        parse_spec(simple_link(h, name)) == (if h.len() == 40 || h.len() == 32 {
            Ok(
                MagnetView {
                    infohash: lower(h),
                    display_name: match name {
                        Some(n) => Some(url_decode_spec(n)),
                        None => None,
                    },
                    trackers: Seq::empty(),
                },
            )
        } else {
            Err(MagnetError::WrongLength(h.len() as usize))
        }),
{
    reveal_strlit("magnet:?xt=urn:btih:");
    reveal_strlit("&dn=");
    reveal_strlit("magnet:?");
    let text = simple_link(h, name);
    assert(text[0] == 'm');
    assert(!white_space(text.last())) by {
        match name {
            Some(n) => {
                if n.len() > 0 {
                    assert(text.last() == n.last());
                } else {
                    assert(text.last() == '=');
                }
            },
            None => {
                if h.len() > 0 {
                    assert(text.last() == h[h.len() - 1]);
                } else {
                    assert(text.last() == ':');
                }
            },
        }
    }
    lemma_trim_unchanged(text);
    assert(text.subrange(0, 8) =~= "magnet:?"@);
    assert(starts_with(text, "magnet:?"@));
    lemma_simple_scan(h, name);
    assert(vstd::utf8::is_ascii_chars(lower(h))) by {
        assert forall|i: int| 0 <= i < lower(h).len() implies '\0' <= #[trigger] lower(h)[i] <= '\u{7f}' by {
            assert(lower(h)[i] == crate::text::lower_char(h[i]));
            assert((h[i] as u32) < 128);
        }
    }
    vstd::utf8::is_ascii_chars_encode_utf8(lower(h));
}

/// An `xt` parameter whose value, decoded, does not start with `urn:btih:`
/// (such as a `urn:btmh:` hash of a hybrid link) changes nothing: a link
/// without surrounding white space parses the same with `&xt=<v>` appended
/// as without it.
pub proof fn lemma_other_xt_ignored(link: Seq<char>, v: Seq<char>)
    requires
        link.len() > 0,
        !white_space(link[0]),
        !white_space(link.last()),
        !v.contains('&'),
        v.len() > 0 ==> !white_space(v.last()),
        !starts_with(url_decode_spec(v), "urn:btih:"@),
    ensures
        parse_spec(link + "&xt="@ + v) == parse_spec(link),
{
    reveal_strlit("&xt=");
    reveal_strlit("magnet:?");
    reveal_strlit("xt");
    let prefix = "magnet:?"@;
    let p = seq!['x', 't', '='] + v;
    let text = link + "&xt="@ + v;
    assert("&xt="@ + v =~= seq!['&'] + p);
    assert(text =~= link + seq!['&'] + p);
    assert(text[0] == link[0]);
    assert(!white_space(text.last())) by {
        if v.len() > 0 {
            assert(text.last() == v.last());
        } else {
            assert(text.last() == '=');
        }
    }
    lemma_trim_unchanged(text);
    lemma_trim_unchanged(link);
    assert(starts_with(text, prefix) == starts_with(link, prefix)) by {
        if link.len() >= 8 {
            assert(text.subrange(0, 8) =~= link.subrange(0, 8));
        } else {
            assert(text[link.len() as int] == '&');
            assert(prefix[link.len() as int] != '&');
            if text.len() >= 8 {
                assert(text.subrange(0, 8)[link.len() as int] == '&');
            }
        }
    }
    if starts_with(link, prefix) {
        let ql = link.skip(8);
        assert(text.skip(8) =~= ql + seq!['&'] + p);
        assert(!p.contains('&')) by {
            assert forall|j: int| 0 <= j < p.len() implies p[j] != '&' by {
                if j >= 3 {
                    assert(p[j] == v[j - 3]);
                }
            }
        }
        lemma_pieces_concat(ql, p, '&');
        lemma_pieces_single(p, '&');
        let pairs = pieces(ql, '&');
        assert(pieces(text.skip(8), '&') =~= pairs.push(p));
        assert(pairs.push(p).drop_last() =~= pairs);
        assert(pairs.push(p).last() == p);
        lemma_pair_parts('x', 't', v);
        assert(p.take(2) == "xt"@);
        assert(scan_step(scan(pairs), p) == scan(pairs));
        assert(scan(pairs.push(p)) == scan(pairs));
    }
}

/// The view of a parse result.
pub open spec fn parse_result_view(r: Result<ParsedMagnet, MagnetError>) -> Result<MagnetView, MagnetError> {
    match r {
        Ok(m) => Ok(m@),
        Err(e) => Err(e),
    }
}

/// Lower-cased text holds no upper-case ASCII letter.
proof fn lemma_lower_has_no_upper(s: Seq<char>)
    ensures
        forall|i: int| 0 <= i < lower(s).len() ==> !('A' <= #[trigger] lower(s)[i] && lower(s)[i] <= 'Z'),
{
    assert forall|i: int| 0 <= i < lower(s).len() implies !('A' <= #[trigger] lower(s)[i] && lower(s)[i] <= 'Z') by {
        let c = s[i];
        if 'A' <= c && c <= 'Z' {
            assert(lower(s)[i] == ((c as u32) + 32) as char);
            assert(97 <= (c as u32) + 32 <= 122);
        }
    }
}

/// An infohash read from parameters is always lower-cased text.
proof fn lemma_scan_infohash_lowered(pairs: Seq<Seq<char>>)
    ensures
        scan(pairs).infohash matches Some(h) ==> exists|x: Seq<char>| h == #[trigger] lower(x),
    decreases pairs.len(),
{
    if pairs.len() > 0 {
        lemma_scan_infohash_lowered(pairs.drop_last());
    }
}

/// The infohash of a parsed link is 40 or 32 bytes long (its length in
/// bytes taken as a `usize`, as a `String` reports it) and holds no
/// upper-case ASCII letter, whatever case the link wrote it in.
pub proof fn lemma_parsed_infohash_is_lowercase(text: Seq<char>)
    requires
        parse_spec(text) is Ok,
    ensures
        ({
            let h = parse_spec(text)->Ok_0.infohash;
            &&& encode_utf8(h).len() as usize == 40 || encode_utf8(h).len() as usize == 32
            &&& forall|i: int| 0 <= i < h.len() ==> !('A' <= #[trigger] h[i] && h[i] <= 'Z')
        }),
{
    let t = trim(text);
    let pairs = pieces(t.skip("magnet:?"@.len() as int), '&');
    lemma_scan_infohash_lowered(pairs);
    let h = scan(pairs).infohash->0;
    let x = choose|x: Seq<char>| h == #[trigger] lower(x);
    lemma_lower_has_no_upper(x);
}

/// The exec counterpart of `ScanState`.
struct Scan {
    infohash: Option<String>,
    display_name: Option<String>,
    trackers: Vec<String>,
}

impl View for Scan {
    type V = ScanState;

    closed spec fn view(&self) -> ScanState {
        ScanState {
            infohash: match self.infohash {
                Some(h) => Some(h@),
                None => None,
            },
            display_name: match self.display_name {
                Some(d) => Some(d@),
                None => None,
            },
            trackers: self.trackers.deep_view(),
        }
    }
}

/// Read one parameter into the scan.
fn scan_pair(st: &mut Scan, pair: &[char])
    ensures
        final(st)@ == scan_step(old(st)@, pair@),
{
    proof {
        lemma_find_char(pair@, '=');
    }
    let n = pair.len();
    let mut i: usize = 0;
    while i < n && pair[i] != '='
        invariant
            n == pair@.len(),
            i <= n,
            i <= find_char(pair@, '='),
            forall|j: int| 0 <= j < find_char(pair@, '=') ==> pair@[j] != '=',
            find_char(pair@, '=') < pair@.len() ==> pair@[find_char(pair@, '=')] == '=',
            find_char(pair@, '=') <= pair@.len(),
        decreases n - i,
    {
        i = i + 1;
    }
    assert(i == find_char(pair@, '='));
    if i == n {
        return;
    }
    let mut key: Vec<char> = Vec::new();
    let mut k: usize = 0;
    while k < i
        invariant
            k <= i < n,
            n == pair@.len(),
            key@ == pair@.take(k as int),
        decreases i - k,
    {
        key.push(pair[k]);
        assert(key@ =~= pair@.take(k + 1));
        k = k + 1;
    }
    let mut raw: Vec<char> = Vec::new();
    let mut k: usize = i + 1;
    while k < n
        invariant
            i < k <= n,
            n == pair@.len(),
            raw@ == pair@.subrange(i + 1, k as int),
        decreases n - k,
    {
        raw.push(pair[k]);
        assert(raw@ =~= pair@.subrange(i + 1, k + 1));
        k = k + 1;
    }
    assert(raw@ =~= pair@.skip(i + 1));
    let raw_text = string_from(raw.as_slice());
    let value = urldecode(raw_text.as_str());
    let xt = chars_of("xt");
    let dn = chars_of("dn");
    let tr = chars_of("tr");
    if chars_eq(key.as_slice(), xt.as_slice()) {
        let vc = chars_of(value.as_str());
        let urn = chars_of("urn:btih:");
        if chars_start_with(vc.as_slice(), urn.as_slice()) {
            let mut rest: Vec<char> = Vec::new();
            let m = vc.len();
            let mut j = urn.len();
            while j < m
                invariant
                    urn@.len() <= j <= m,
                    m == vc@.len(),
                    rest@ == vc@.subrange(urn@.len() as int, j as int),
                decreases m - j,
            {
                rest.push(vc[j]);
                assert(rest@ =~= vc@.subrange(urn@.len() as int, j + 1));
                j = j + 1;
            }
            assert(rest@ =~= vc@.skip(urn@.len() as int));
            st.infohash = Some(string_from_lower(rest.as_slice()));
        }
    } else if chars_eq(key.as_slice(), dn.as_slice()) {
        st.display_name = Some(value);
    } else if chars_eq(key.as_slice(), tr.as_slice()) {
        let ghost prev = st.trackers.deep_view();
        let ghost v = value@;
        st.trackers.push(value);
        assert(st.trackers.deep_view() =~= prev.push(v));
    }
}

/// Parse a magnet link.
pub fn parse(magnet: &str) -> (r: Result<ParsedMagnet, MagnetError>)
    ensures
        parse_result_view(r) == parse_spec(magnet@),
{
    let all = chars_of(magnet);
    let t = trim_chars(all.as_slice());
    let prefix = chars_of("magnet:?");
    if !chars_start_with(t.as_slice(), prefix.as_slice()) {
        return Err(MagnetError::NotMagnet);
    }
    let ghost q = t@.skip(prefix@.len() as int);
    let mut st = Scan { infohash: None, display_name: None, trackers: Vec::new() };
    assert(st@.trackers =~= Seq::<Seq<char>>::empty());
    let mut cur: Vec<char> = Vec::new();
    let n = t.len();
    let mut i = prefix.len();
    assert(q.take(0) =~= Seq::<char>::empty());
    assert(pieces(q.take(0), '&').drop_last() =~= Seq::<Seq<char>>::empty());
    while i < n
        invariant
            prefix@.len() <= i <= n,
            n == t@.len(),
            q == t@.skip(prefix@.len() as int),
            pieces(q.take(i - prefix@.len()), '&').len() >= 1,
            st@ == scan(pieces(q.take(i - prefix@.len()), '&').drop_last()),
            cur@ == pieces(q.take(i - prefix@.len()), '&').last(),
        decreases n - i,
    {
        let c = t[i];
        let ghost k = i - prefix@.len();
        let ghost before = pieces(q.take(k), '&');
        assert(q.take(k + 1).drop_last() =~= q.take(k));
        assert(q.take(k + 1).last() == c);
        if c == '&' {
            scan_pair(&mut st, cur.as_slice());
            cur = Vec::new();
            assert(before.push(seq![]).drop_last() =~= before);
            assert(before =~= before.drop_last().push(before.last()));
        } else {
            cur.push(c);
            assert(before.update(before.len() - 1, before.last().push(c)).drop_last() =~= before.drop_last());
        }
        proof {
            lemma_pieces_nonempty(q.take(k + 1), '&');
        }
        i = i + 1;
    }
    let ghost all_pieces = pieces(q, '&');
    assert(q.take(n - prefix@.len()) =~= q);
    assert(all_pieces =~= all_pieces.drop_last().push(all_pieces.last()));
    scan_pair(&mut st, cur.as_slice());
    assert(st@ == scan(all_pieces));
    assert(starts_with(trim(magnet@), "magnet:?"@));
    assert(trim(magnet@) == t@);
    assert(all_pieces == pieces(trim(magnet@).skip("magnet:?"@.len() as int), '&'));
    match st.infohash {
        None => Err(MagnetError::MissingInfohash),
        Some(h) => {
            let len = h.as_str().len();
            if len == 40 || len == 32 {
                let r = ParsedMagnet { infohash: InfoHash(h), display_name: st.display_name, trackers: st.trackers };
                assert(r@ == MagnetView { infohash: st@.infohash->0, display_name: st@.display_name, trackers: st@.trackers });
                Ok(r)
            } else {
                Err(MagnetError::WrongLength(len))
            }
        },
    }
}

} // verus!
