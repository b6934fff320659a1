//! The storage layer's rules for service roots and paths, and for the ranges
//! of a read, as the library uses them.

use vstd::prelude::*;
use crate::image::components;
use crate::text::{ends_with_char, join_with, starts_with};

verus! {

/// `/`
pub open spec fn slash() -> Seq<char> {
    seq!['/']
}

/// The normal form of a service root: its non-empty components joined with
/// `/`, with a leading and a trailing `/`.
pub open spec fn root_form(v: Seq<char>) -> Seq<char> {
    let joined = join_with(components(v), '/');
    let led = if starts_with(joined, slash()) {
        joined
    } else {
        slash() + joined
    };
    if ends_with_char(led, '/') {
        led
    } else {
        led.push('/')
    }
}

/// A normalized root: it starts and ends with `/`.
pub open spec fn is_root_form(root: Seq<char>) -> bool {
    starts_with(root, slash()) && ends_with_char(root, '/')
}

/// `opendal_core::raw::normalize_root`: the root written as `/a/b/`, from the
/// non-empty components of `v`.
#[verifier::external_body]
pub fn normalize_root(v: &str) -> (r: String)
    ensures
        r@ == root_form(v@),
{
    opendal_core::raw::normalize_root(v)
}

/// The key of `path` under `root`: the root without its leading `/`,
/// followed by the path unless the path is `/` itself.
pub open spec fn abs_path(root: Seq<char>, path: Seq<char>) -> Seq<char> {
    if path == slash() {
        root.skip(1)
    } else {
        root.skip(1) + path
    }
}

/// `opendal_core::raw::build_abs_path`: the key of a service path under a
/// normalized root. The function asserts (in debug builds) that the root is
/// normalized and that the path is `/` or does not start with `/`.
#[verifier::external_body]
pub fn build_abs_path(root: &str, path: &str) -> (r: String)
    requires
        is_root_form(root@),
        path@ == slash() || !starts_with(path@, slash()),
    ensures
        r@ == abs_path(root@, path@),
{
    opendal_core::raw::build_abs_path(root, path)
}

/// The service path of `key` under `root`: the key without the root's
/// characters (without the root's leading `/` where the key has none).
pub open spec fn rel_path(root: Seq<char>, key: Seq<char>) -> Seq<char> {
    if starts_with(key, slash()) {
        key.skip(root.len() as int)
    } else {
        key.skip(root.len() - 1)
    }
}

/// `opendal_core::raw::build_rel_path`: the service path of a key under a
/// root. The function asserts (in debug builds) that the key differs from the
/// root and starts with it (with the root's leading `/` dropped where the key
/// has none).
#[verifier::external_body]
pub fn build_rel_path(root: &str, key: &str) -> (r: String)
    requires
        starts_with(root@, slash()),
        root@ != key@,
        starts_with(key@, slash()) ==> starts_with(key@, root@),
        !starts_with(key@, slash()) ==> starts_with(key@, root@.skip(1)),
    ensures
        r@ == rel_path(root@, key@),
{
    opendal_core::raw::build_rel_path(root, key)
}

/// The range of a read: from an offset, for a size or to the end; or the
/// last bytes.
#[derive(Clone, Copy, Debug, PartialEq, Eq, Structural)]
pub enum ReadRange {
    Range { offset: u64, size: Option<u64> },
    Suffix { size: u64 },
}

/// The slice `start..end` of content of length `len` that `range` selects,
/// or `None` where the range does not lie within the content.
pub open spec fn content_range(range: ReadRange, len: usize) -> Option<(int, int)> {
    match range {
        ReadRange::Suffix { size } => Some(
            (if size >= len {
                0
            } else {
                len - size
            }, len as int),
        ),
        ReadRange::Range { offset, size } => if size == Some(0u64) {
            Some((0, 0))
        } else if offset >= len && size is None {
            Some((len as int, len as int))
        } else if offset > usize::MAX {
            None
        } else {
            match size {
                Some(s) => if offset + s > u64::MAX || offset + s > usize::MAX || offset + s > len {
                    None
                } else {
                    Some((offset as int, offset + s))
                },
                None => Some((offset as int, len as int)),
            }
        },
    }
}

#[verifier::external_type_specification]
#[verifier::external_body]
pub struct ExError(opendal_core::Error);

/// `opendal_core::BytesRange::to_content_range`: the slice of content of
/// length `len` that the range selects, failing where it does not lie within
/// the content.
#[verifier::external_body]
pub fn to_content_range(range: ReadRange, len: usize) -> (r: Result<(usize, usize), opendal_core::Error>)
    ensures
        match content_range(range, len) {
            Some((s, e)) => r matches Ok((a, b)) && a == s && b == e,
            None => r is Err,
        },
{
    let range = match range {
        ReadRange::Range { offset, size } => opendal_core::BytesRange::new(offset, size),
        ReadRange::Suffix { size } => opendal_core::BytesRange::suffix(size),
    };
    match range.to_content_range(len) {
        Ok(r) => Ok((r.start, r.end)),
        Err(e) => Err(e),
    }
}

} // verus!
