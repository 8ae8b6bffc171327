//! Crash-safe loading of the JSON store files: what to do with what was
//! found on disk, and where a corrupt file is backed up.

use vstd::prelude::*;
use crate::text::push_char;

verus! {

/// What loading a store file ends in.
#[derive(Debug, Clone, Copy, PartialEq, Eq, Structural)]
pub enum LoadOutcome {
    /// Start from the default value.
    Default,
    /// Use the parsed contents.
    Parsed,
    /// The file is corrupt: back it up, then start from the default value.
    BackUpThenDefault,
}

/// The outcome of loading: a missing file, or one that could not be read,
/// gives the default (an unreadable file is left alone); a file that reads
/// and parses gives its contents; one that reads but does not parse is
/// backed up and the default used.
pub fn load_outcome(present: bool, read_ok: bool, parsed_ok: bool) -> (o: LoadOutcome)
    ensures
        o == (if !present || !read_ok {
            LoadOutcome::Default
        } else if parsed_ok {
            LoadOutcome::Parsed
        } else {
            LoadOutcome::BackUpThenDefault
        }),
{
    if !present || !read_ok {
        LoadOutcome::Default
    } else if parsed_ok {
        LoadOutcome::Parsed
    } else {
        LoadOutcome::BackUpThenDefault
    }
}

/// The decimal digit for `d < 10`.
pub open spec fn digit_char(d: nat) -> char {
    (48 + d) as char
}

/// The decimal notation of `n`, without leading zeros.
pub open spec fn decimal(n: nat) -> Seq<char>
    decreases n,
{
    if n < 10 {
        seq![digit_char(n)]
    } else {
        decimal(n / 10).push(digit_char(n % 10))
    }
}

/// The decimal notation of a number.
pub fn decimal_text(n: u128) -> (s: String)
    ensures
        s@ == decimal(n as nat),
{
    let mut digits: Vec<char> = Vec::new();
    let mut m = n;
    let ghost mut suffix: Seq<char> = Seq::empty();
    while m >= 10
        invariant
            decimal(n as nat) == decimal(m as nat) + suffix,
            digits@ == suffix.reverse(),
        decreases m,
    {
        let d = (m % 10) as u32;
        let c = char_of_digit(d);
        digits.push(c);
        proof {
            assert(decimal(m as nat) == decimal((m / 10) as nat).push(digit_char((m % 10) as nat)));
            assert(decimal(m as nat) + suffix =~= decimal((m / 10) as nat) + (seq![c] + suffix));
            assert((seq![c] + suffix).reverse() =~= suffix.reverse().push(c));
            suffix = seq![c] + suffix;
        }
        m = m / 10;
    }
    let c = char_of_digit(m as u32);
    digits.push(c);
    proof {
        assert(decimal(m as nat) =~= seq![c]);
        assert((seq![c] + suffix).reverse() =~= suffix.reverse().push(c));
        suffix = seq![c] + suffix;
    }
    let mut s = String::new();
    let len = digits.len();
    let mut i = len;
    while i > 0
        invariant
            i <= len,
            len == digits@.len(),
            digits@ == suffix.reverse(),
            s@ == suffix.take((len - i) as int),
            suffix.len() == len,
        decreases i,
    {
        i = i - 1;
        push_char(&mut s, digits[i]);
        assert(suffix[(len - i - 1) as int] == digits@[i as int]);
        assert(suffix.take((len - i) as int) =~= suffix.take((len - i - 1) as int).push(digits@[i as int]));
    }
    assert(suffix.take(len as int) =~= suffix);
    assert(decimal(n as nat) =~= suffix);
    s
}

/// The character of a decimal digit.
fn char_of_digit(d: u32) -> (c: char)
    requires
        d < 10,
    ensures
        c == digit_char(d as nat),
{
    match d {
        0 => '0',
        1 => '1',
        2 => '2',
        3 => '3',
        4 => '4',
        5 => '5',
        6 => '6',
        7 => '7',
        8 => '8',
        _ => '9',
    }
}

/// The file name `Path::file_name` finds in a path (its last component,
/// unless that is `..`), as text when it is valid Unicode.
pub uninterp spec fn path_file_name(path: Seq<char>) -> Option<Seq<char>>;

/// The path `Path::with_file_name` makes: `path` with its file name replaced.
pub uninterp spec fn path_with_file_name(path: Seq<char>, name: Seq<char>) -> Seq<char>;

/// `Path::file_name` of a path, as text. Trusted: the result is
/// `path_file_name(path)`. Which component counts as the file name is left to
/// the name: it depends on the platform's separators.
#[verifier::external_body]
fn file_name(path: &str) -> (n: Option<String>)
    ensures
        match n {
            Some(t) => path_file_name(path@) == Some(t@),
            None => path_file_name(path@) is None,
        },
{
    std::path::Path::new(path).file_name().and_then(|f| f.to_str()).map(|f| f.to_owned())
}

/// `Path::with_file_name`, as text. Trusted: the result is
/// `path_with_file_name(path, name)`; how the parent is kept is left to the
/// name.
#[verifier::external_body]
fn with_file_name(path: &str, name: &str) -> (p: String)
    ensures
        p@ == path_with_file_name(path@, name@),
{
    std::path::Path::new(path).with_file_name(name).to_string_lossy().into_owned()
}

/// The name of the backup of a corrupt store file: its file name (or
/// `state.json` when it has none), `.corrupt-`, the time in milliseconds
/// and `.bak`.
pub open spec fn backup_name(path: Seq<char>, ms: u128) -> Seq<char> {
    let name = match path_file_name(path) {
        Some(n) => n,
        None => "state.json"@,
    };
    name + ".corrupt-"@ + decimal(ms as nat) + ".bak"@
}

/// Where a corrupt store file at `path` is moved, `ms` milliseconds after the
/// epoch: beside it, under its backup name.
pub fn backup_path(path: &str, ms: u128) -> (p: String)
    ensures
        p@ == path_with_file_name(path@, backup_name(path@, ms)),
{
    let mut name = match file_name(path) {
        Some(n) => n,
        None => "state.json".to_owned(),
    };
    name.append(".corrupt-");
    let digits = decimal_text(ms);
    name.append(digits.as_str());
    name.append(".bak");
    with_file_name(path, name.as_str())
}

} // verus!
