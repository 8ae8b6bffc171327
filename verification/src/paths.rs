//! File-system path operations, as `std::path` performs them.

use vstd::prelude::*;

verus! {

/// The extension of a path as `Path::extension` finds it (the part of the
/// file name after its last `.`; empty when there is none).
pub uninterp spec fn path_extension(path: Seq<char>) -> Seq<char>;

/// The path `Path::join` builds from a base and one more component.
pub uninterp spec fn joined_path(base: Seq<char>, component: Seq<char>) -> Seq<char>;

/// Index of the last `.` in `p`, or -1 when there is none.
pub open spec fn last_dot(p: Seq<char>) -> int
    decreases p.len(),
{
    if p.len() == 0 {
        -1
    } else if p.last() == '.' {
        p.len() - 1
    } else {
        last_dot(p.drop_last())
    }
}

/// The extension of a bare file name: the text after its last `.`; empty
/// when it has no `.`, or its only `.` starts it.
pub open spec fn name_extension(p: Seq<char>) -> Seq<char> {
    let k = last_dot(p);
    if k > 0 {
        p.skip(k + 1)
    } else {
        Seq::empty()
    }
}

/// The last `.` of `a . b`, when `b` has none, is the one before `b`.
proof fn lemma_last_dot(a: Seq<char>, b: Seq<char>)
    requires
        !b.contains('.'),
    ensures
        last_dot(a + seq!['.'] + b) == a.len(),
    decreases b.len(),
{
    let s = a + seq!['.'] + b;
    if b.len() == 0 {
        assert(s.last() == '.');
    } else {
        let b2 = b.drop_last();
        assert(!b2.contains('.')) by {
            if b2.contains('.') {
                let j = choose|j: int| 0 <= j < b2.len() && b2[j] == '.';
                assert(b[j] == '.');
            }
        }
        assert(b.last() != '.') by {
            assert(b.contains(b[b.len() - 1]));
        }
        assert(s.drop_last() =~= a + seq!['.'] + b2);
        lemma_last_dot(a, b2);
    }
}

/// The extension of a file name `a.b`, where `a` is not empty and `b` has no
/// `.`, is `b`.
pub proof fn lemma_name_extension(a: Seq<char>, b: Seq<char>)
    requires
        a.len() > 0,
        !b.contains('.'),
    ensures
        name_extension(a + seq!['.'] + b) == b,
{
    lemma_last_dot(a, b);
    assert((a + seq!['.'] + b).skip(a.len() + 1 as int) =~= b);
}

/// A path with no `/`, `\` or `:`: one component, with no root or drive
/// prefix on any platform.
pub open spec fn bare_name(p: Seq<char>) -> bool {
    !p.contains('/') && !p.contains('\\') && !p.contains(':')
}

/// The extension `Path::extension` finds, as text: that of the file name
/// itself for a bare name, otherwise `path_extension`.
pub open spec fn extension_of(path: Seq<char>) -> Seq<char> {
    if bare_name(path) {
        name_extension(path)
    } else {
        path_extension(path)
    }
}

/// `Path::extension` of `path`, as text (empty when there is no extension).
/// Trusted: the result is `extension_of(path)` (`name_extension` for a bare
/// name, `path_extension` otherwise) and holds no `.`. The
/// documentation: the extension is the portion of the file name after its
/// final `.`, and there is none when there is no file name, no `.` in it, or
/// only a leading `.`; a path with no separator and no prefix is its own file
/// name, unless it is `.` or `..`, which have no file name and so no
/// extension (`name_extension` gives them the same empty text). How the file
/// name of any other path is found is left to `path_extension`: it depends on
/// the platform.
#[verifier::external_body]
pub(crate) fn file_extension(path: &str) -> (ext: String)
    ensures
        bare_name(path@) ==> ext@ == name_extension(path@),
        !bare_name(path@) ==> ext@ == path_extension(path@),
        !ext@.contains('.'),
{
    std::path::Path::new(path).extension().and_then(|e| e.to_str()).unwrap_or("").to_string()
}

/// `Path::join` of a base and one component, as text. Trusted: the result is
/// `joined_path(base, component)`. Which separator is added, and when the
/// component replaces the base, is left to the name: it depends on the
/// platform.
#[verifier::external_body]
pub(crate) fn join(base: &str, component: &str) -> (p: String)
    ensures
        p@ == joined_path(base@, component@),
{
    std::path::Path::new(base).join(component).to_string_lossy().into_owned()
}

} // verus!
