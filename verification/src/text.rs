//! Character-level helpers shared by the parsers and the path rules.

use vstd::prelude::*;

verus! {

/// Appends one character to a `String` (`String::push`).
/// Trusted: the new contents are the old contents followed by `c`.
#[verifier::external_body]
pub(crate) fn push_char(s: &mut String, c: char)
    ensures
        final(s)@ == old(s)@.push(c),
{
    s.push(c);
}

/// Whether `c` has the Unicode `White_Space` property, which
/// `char::is_whitespace` tests: tab, line feed, vertical tab, form feed,
/// carriage return, space, U+0085, U+00A0, U+1680, U+2000 to U+200A, U+2028,
/// U+2029, U+202F, U+205F and U+3000 (the 25 code points of `PropList.txt`).
pub open spec fn white_space(c: char) -> bool {
    let v = c as u32;
    ||| 0x09 <= v <= 0x0D
    ||| v == 0x20
    ||| v == 0x85
    ||| v == 0xA0
    ||| v == 0x1680
    ||| 0x2000 <= v <= 0x200A
    ||| v == 0x2028
    ||| v == 0x2029
    ||| v == 0x202F
    ||| v == 0x205F
    ||| v == 0x3000
}

/// Whether `c` is white space, as `char::is_whitespace` decides it.
pub fn is_whitespace(c: char) -> (b: bool)
    ensures
        b == white_space(c),
{
    let v = c as u32;
    (0x09 <= v && v <= 0x0D) || v == 0x20 || v == 0x85 || v == 0xA0 || v == 0x1680 || (0x2000 <= v && v
        <= 0x200A) || v == 0x2028 || v == 0x2029 || v == 0x202F || v == 0x205F || v == 0x3000
}

/// `c` with an ASCII upper-case letter mapped to lower case.
pub open spec fn lower_char(c: char) -> char {
    if 'A' <= c && c <= 'Z' {
        ((c as u32) + 32) as char
    } else {
        c
    }
}

/// Every character of `s` through `lower_char`.
pub open spec fn lower(s: Seq<char>) -> Seq<char> {
    s.map_values(|c: char| lower_char(c))
}

/// ASCII lower case of one character.
pub fn to_lower_char(c: char) -> (r: char)
    ensures
        r == lower_char(c),
{
    if 'A' <= c && c <= 'Z' {
        let code: u32 = (c as u32) + 32;
        assert(code < 128);
        ((code as u8) as char)
    } else {
        c
    }
}

/// The characters of `s`, in order.
pub fn chars_of(s: &str) -> (v: Vec<char>)
    ensures
        v@ == s@,
{
    let mut v: Vec<char> = Vec::new();
    for c in it: s.chars()
        invariant
            v@ == it.seq().take(it.index() as int),
    {
        v.push(c);
    }
    proof {
        broadcast use vstd::string::group_string_axioms;
    }
    v
}


/// Whether two character sequences are equal.
pub fn chars_eq(a: &[char], b: &[char]) -> (r: bool)
    ensures
        r == (a@ == b@),
{
    if a.len() != b.len() {
        return false;
    }
    for i in 0..a.len()
        invariant
            a@.len() == b@.len(),
            forall|j: int| 0 <= j < i ==> a@[j] == b@[j],
    {
        if a[i] != b[i] {
            return false;
        }
    }
    assert(a@ =~= b@);
    true
}

/// Whether two strings hold the same text.
pub fn str_eq(a: &str, b: &str) -> (r: bool)
    ensures
        r == (a@ == b@),
{
    let ca = chars_of(a);
    let cb = chars_of(b);
    chars_eq(ca.as_slice(), cb.as_slice())
}


/// A `String` holding the given characters.
pub fn string_from(cs: &[char]) -> (s: String)
    ensures
        s@ == cs@,
{
    let mut s = String::new();
    for i in 0..cs.len()
        invariant
            s@ == cs@.take(i as int),
    {
        push_char(&mut s, cs[i]);
        assert(s@ =~= cs@.take(i + 1));
    }
    assert(cs@.take(cs@.len() as int) =~= cs@);
    s
}

/// A `String` with the ASCII lower case of the characters `cs`.
pub fn string_from_lower(cs: &[char]) -> (s: String)
    ensures
        s@ == lower(cs@),
{
    let mut s = String::new();
    for i in 0..cs.len()
        invariant
            s@ == lower(cs@.take(i as int)),
    {
        let c = to_lower_char(cs[i]);
        push_char(&mut s, c);
        assert(s@ =~= lower(cs@.take(i + 1)));
    }
    assert(cs@.take(cs@.len() as int) =~= cs@);
    s
}

/// A `String` with the ASCII lower case of `s`.
pub fn to_lower(s: &str) -> (r: String)
    ensures
        r@ == lower(s@),
{
    let cs = chars_of(s);
    let mut r = String::new();
    for i in 0..cs.len()
        invariant
            cs@ == s@,
            r@ == lower(s@.take(i as int)),
    {
        let c = to_lower_char(cs[i]);
        push_char(&mut r, c);
        assert(r@ =~= lower(s@.take(i + 1)));
    }
    assert(s@.take(s@.len() as int) =~= s@);
    r
}

/// `s` without its leading run of `c`.
pub open spec fn strip_leading(s: Seq<char>, c: char) -> Seq<char>
    decreases s.len(),
{
    if s.len() > 0 && s[0] == c {
        strip_leading(s.drop_first(), c)
    } else {
        s
    }
}

/// Index of the first character of `s` that is not white space (or `len`).
pub open spec fn trim_start_index(s: Seq<char>, k: int) -> int
    decreases s.len() - k,
{
    if k < s.len() && white_space(s[k]) {
        trim_start_index(s, k + 1)
    } else {
        k
    }
}

/// Index after the last character of `s[..k]` that is not white space.
pub open spec fn trim_end_index(s: Seq<char>, k: int) -> int
    decreases k,
{
    if k > 0 && white_space(s[k - 1]) {
        trim_end_index(s, k - 1)
    } else {
        k
    }
}

/// `s` without leading and trailing white space (`str::trim`).
pub open spec fn trim(s: Seq<char>) -> Seq<char> {
    let start = trim_start_index(s, 0);
    let end = trim_end_index(s, s.len() as int);
    if start < end {
        s.subrange(start, end)
    } else {
        Seq::empty()
    }
}

/// A text that neither starts nor ends with white space is its own trim.
pub proof fn lemma_trim_unchanged(s: Seq<char>)
    requires
        s.len() > 0,
        !white_space(s[0]),
        !white_space(s.last()),
    ensures
        trim(s) == s,
{
    assert(trim_start_index(s, 0) == 0);
    assert(trim_end_index(s, s.len() as int) == s.len());
    assert(s.subrange(0, s.len() as int) =~= s);
}

proof fn lemma_trim_start_index(s: Seq<char>, k: int)
    requires
        0 <= k <= s.len(),
    ensures
        k <= trim_start_index(s, k) <= s.len(),
    decreases s.len() - k,
{
    if k < s.len() && white_space(s[k]) {
        lemma_trim_start_index(s, k + 1);
    }
}

proof fn lemma_trim_end_index(s: Seq<char>, k: int)
    requires
        0 <= k <= s.len(),
    ensures
        0 <= trim_end_index(s, k) <= k,
    decreases k,
{
    if k > 0 && white_space(s[k - 1]) {
        lemma_trim_end_index(s, k - 1);
    }
}

/// The characters of `s` without leading and trailing white space.
pub fn trim_chars(s: &[char]) -> (r: Vec<char>)
    ensures
        r@ == trim(s@),
{
    let n = s.len();
    let mut start: usize = 0;
    while start < n && is_whitespace(s[start])
        invariant
            n == s@.len(),
            start <= n,
            trim_start_index(s@, 0) == trim_start_index(s@, start as int),
        decreases n - start,
    {
        start = start + 1;
    }
    let mut end: usize = n;
    while end > 0 && is_whitespace(s[end - 1])
        invariant
            n == s@.len(),
            end <= n,
            trim_end_index(s@, n as int) == trim_end_index(s@, end as int),
        decreases end,
    {
        end = end - 1;
    }
    let mut r: Vec<char> = Vec::new();
    if start < end {
        let mut i = start;
        while i < end
            invariant
                start <= i <= end <= n,
                n == s@.len(),
                r@ == s@.subrange(start as int, i as int),
            decreases end - i,
        {
            r.push(s[i]);
            assert(r@ =~= s@.subrange(start as int, i + 1));
            i = i + 1;
        }
    }
    r
}

/// Whether `s` begins with `prefix`.
pub open spec fn starts_with(s: Seq<char>, prefix: Seq<char>) -> bool {
    prefix.len() <= s.len() && s.subrange(0, prefix.len() as int) == prefix
}

/// Whether `s` ends with `suffix`.
pub open spec fn ends_with(s: Seq<char>, suffix: Seq<char>) -> bool {
    suffix.len() <= s.len() && s.subrange(s.len() - suffix.len(), s.len() as int) == suffix
}

/// Whether the characters `s` begin with the characters of `prefix`.
pub fn chars_start_with(s: &[char], prefix: &[char]) -> (b: bool)
    ensures
        b == starts_with(s@, prefix@),
{
    if prefix.len() > s.len() {
        return false;
    }
    for i in 0..prefix.len()
        invariant
            prefix@.len() <= s@.len(),
            forall|j: int| 0 <= j < i ==> s@[j] == prefix@[j],
    {
        if s[i] != prefix[i] {
            assert(s@.subrange(0, prefix@.len() as int)[i as int] != prefix@[i as int]);
            return false;
        }
    }
    assert(s@.subrange(0, prefix@.len() as int) =~= prefix@);
    true
}

/// Whether the characters `s` end with the characters of `suffix`.
pub fn chars_end_with(s: &[char], suffix: &[char]) -> (b: bool)
    ensures
        b == ends_with(s@, suffix@),
{
    if suffix.len() > s.len() {
        return false;
    }
    let off = s.len() - suffix.len();
    let n = s.len();
    let mut j = off;
    while j < n
        invariant
            n == s@.len(),
            suffix@.len() <= s@.len(),
            off == s@.len() - suffix@.len(),
            off <= j <= n,
            forall|k: int| 0 <= k < j - off ==> s@[off + k] == suffix@[k],
        decreases n - j,
    {
        if s[j] != suffix[j - off] {
            assert(s@.subrange(off as int, s@.len() as int)[j - off] != suffix@[j - off]);
            return false;
        }
        j = j + 1;
    }
    assert(s@.subrange(off as int, s@.len() as int) =~= suffix@);
    true
}

/// Whether `s` holds the character `c`.
pub fn chars_contain(s: &[char], c: char) -> (b: bool)
    ensures
        b == s@.contains(c),
{
    for i in 0..s.len()
        invariant
            forall|j: int| 0 <= j < i ==> s@[j] != c,
    {
        if s[i] == c {
            assert(s@[i as int] == c);
            return true;
        }
    }
    false
}


/// What separates the runs that `split_runs` returns.
#[derive(Clone, Copy)]
pub enum Separator {
    /// Unicode white space (`str::split_whitespace`).
    WhiteSpace,
    /// `/` or `\` (path components).
    PathSeparator,
}

pub open spec fn is_separator(kind: Separator, c: char) -> bool {
    match kind {
        Separator::WhiteSpace => white_space(c),
        Separator::PathSeparator => c == '/' || c == '\\',
    }
}

fn separates(kind: Separator, c: char) -> (b: bool)
    ensures
        b == is_separator(kind, c),
{
    match kind {
        Separator::WhiteSpace => is_whitespace(c),
        Separator::PathSeparator => c == '/' || c == '\\',
    }
}

/// The maximal non-empty runs of characters of `s` that are not separators,
/// in order.
pub open spec fn runs(s: Seq<char>, kind: Separator) -> Seq<Seq<char>>
    decreases s.len(),
{
    if s.len() == 0 {
        seq![]
    } else {
        let prev = runs(s.drop_last(), kind);
        let c = s.last();
        if is_separator(kind, c) {
            prev
        } else if s.len() >= 2 && !is_separator(kind, s[s.len() - 2]) {
            prev.update(prev.len() - 1, prev.last().push(c))
        } else {
            prev.push(seq![c])
        }
    }
}

/// A vector of characters looks the same through `@` and `deep_view`.
pub proof fn lemma_chars_deep_view(v: Vec<char>)
    ensures
        v.deep_view() == v@,
{
    assert(v.deep_view() =~= v@);
}

/// The runs of `s` between separators, empty runs dropped.
pub fn split_runs(s: &[char], kind: Separator) -> (parts: Vec<Vec<char>>)
    ensures
        parts.deep_view() == runs(s@, kind),
{
    let mut done: Vec<Vec<char>> = Vec::new();
    let mut cur: Vec<char> = Vec::new();
    let mut in_run = false;
    let n = s.len();
    for i in 0..n
        invariant
            n == s@.len(),
            in_run == (i > 0 && !is_separator(kind, s@[i - 1])),
            in_run ==> cur@.len() > 0,
            !in_run ==> cur@.len() == 0,
            runs(s@.take(i as int), kind) == if in_run {
                done.deep_view().push(cur@)
            } else {
                done.deep_view()
            },
    {
        let c = s[i];
        let ghost prev_done = done.deep_view();
        let ghost prev_cur = cur@;
        assert(s@.take(i + 1).drop_last() =~= s@.take(i as int));
        assert(s@.take(i + 1).last() == c);
        if i > 0 {
            assert(s@.take(i + 1)[i - 1] == s@[i - 1]);
        }
        if separates(kind, c) {
            if in_run {
                let mut finished: Vec<char> = Vec::new();
                std::mem::swap(&mut finished, &mut cur);
                proof {
                    lemma_chars_deep_view(finished);
                }
                done.push(finished);
                assert(done.deep_view() =~= prev_done.push(prev_cur));
            }
            in_run = false;
        } else {
            cur.push(c);
            if in_run {
                assert(prev_done.push(prev_cur).update(prev_done.len() as int, prev_cur.push(c)) =~= prev_done.push(cur@));
            } else {
                assert(cur@ =~= seq![c]);
            }
            in_run = true;
        }
    }
    assert(s@.take(n as int) =~= s@);
    if in_run {
        let ghost prev_done = done.deep_view();
        let ghost last = cur@;
        proof {
            lemma_chars_deep_view(cur);
        }
        done.push(cur);
        assert(done.deep_view() =~= prev_done.push(last));
    }
    done
}

} // verus!
