//! Picking a torrent source out of what the program is handed at launch or
//! by drag and drop.

use vstd::prelude::*;
use crate::paths::{extension_of, file_extension};
use crate::text::{chars_end_with, chars_of, chars_start_with, ends_with, lower, starts_with, to_lower};

verus! {

/// An argument names a torrent source: a magnet link or a `.torrent` file.
pub open spec fn is_source_arg(arg: Seq<char>) -> bool {
    starts_with(arg, "magnet:?"@) || ends_with(arg, ".torrent"@)
}

/// Whether a command-line argument names a torrent source.
pub fn names_source(arg: &str) -> (b: bool)
    ensures
        b == is_source_arg(arg@),
{
    let cs = chars_of(arg);
    let magnet = chars_of("magnet:?");
    let torrent = chars_of(".torrent");
    chars_start_with(cs.as_slice(), magnet.as_slice()) || chars_end_with(cs.as_slice(), torrent.as_slice())
}

/// The first argument after the program name that names a torrent source.
pub fn source_from_args(args: &[String]) -> (src: Option<String>)
    ensures
        match src {
            Some(s) => exists|i: int|
                1 <= i < args@.len() && is_source_arg(#[trigger] args@[i]@) && s@ == args@[i]@ && forall|j: int|
                    1 <= j < i ==> !is_source_arg(#[trigger] args@[j]@),
            None => forall|j: int| 1 <= j < args@.len() ==> !is_source_arg(#[trigger] args@[j]@),
        },
{
    let n = args.len();
    let mut i: usize = 1;
    while i < n
        invariant
            n == args@.len(),
            1 <= i,
            forall|j: int| 1 <= j < i && j < n ==> !is_source_arg(#[trigger] args@[j]@),
        decreases n - i,
    {
        if names_source(args[i].as_str()) {
            return Some(args[i].clone());
        }
        i = i + 1;
    }
    None
}

/// A dropped path has the extension `torrent`, in any ASCII case.
pub open spec fn is_torrent_path(path: Seq<char>) -> bool {
    lower(extension_of(path)) == "torrent"@
}

/// Which of the dropped paths to open: the first `.torrent` file, otherwise
/// the first path; `None` when nothing was dropped.
pub fn dropped_source(paths: &[String]) -> (k: Option<usize>)
    ensures
        match k {
            Some(i) => i < paths@.len() && ((is_torrent_path(paths@[i as int]@) && forall|j: int|
                0 <= j < i ==> !is_torrent_path(#[trigger] paths@[j]@)) || (i == 0 && forall|j: int|
                0 <= j < paths@.len() ==> !is_torrent_path(#[trigger] paths@[j]@))),
            None => paths@.len() == 0,
        },
{
    let n = paths.len();
    let torrent = chars_of("torrent");
    for i in 0..n
        invariant
            n == paths@.len(),
            torrent@ == "torrent"@,
            forall|j: int| 0 <= j < i ==> !is_torrent_path(#[trigger] paths@[j]@),
    {
        let ext = file_extension(paths[i].as_str());
        let e = to_lower(ext.as_str());
        let ec = chars_of(e.as_str());
        if crate::text::chars_eq(ec.as_slice(), torrent.as_slice()) {
            return Some(i);
        }
    }
    if n > 0 {
        Some(0)
    } else {
        None
    }
}

} // verus!
