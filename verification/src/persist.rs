//! Atomic file persistence, shared by every store.
//!
//! A store writes a sibling file, flushes it, and renames it over the target, so that a reader
//! never sees a partial write and a crash can never leave a truncated file.

use vstd::prelude::*;

use crate::error::{BrokerError, ErrorView};
use crate::path::{lemma_with_extension, name_of, parent, parent_of, with_ext, with_extension};

verus! {

/// Where the new contents of a file are written first.
pub open spec fn temp_of(path: Seq<char>) -> Seq<char> {
    with_ext(path, "json.tmp"@)
}

/// Creating the directory of `path` gave `r`.
pub open spec fn dir_made<D: FnOnce(&str) -> Result<(), String>>(
    create_dir: D,
    path: Seq<char>,
    r: Result<(), String>,
) -> bool {
    exists|d: &str| parent_of(path) == Some(d@) && #[trigger] create_dir.ensures((d,), r)
}

/// Writing these bytes to the sibling of `path` gave `r`.
pub open spec fn temp_written<W: FnOnce(&str, &[u8]) -> Result<(), String>>(
    write_synced: W,
    path: Seq<char>,
    bytes: &[u8],
    r: Result<(), String>,
) -> bool {
    exists|t: &str| t@ == temp_of(path) && #[trigger] write_synced.ensures((t, bytes), r)
}

/// Renaming the sibling of `path` over it gave `r`.
pub open spec fn renamed<N: FnOnce(&str, &str) -> Result<(), String>>(
    rename: N,
    path: &str,
    r: Result<(), String>,
) -> bool {
    exists|t: &str| t@ == temp_of(path@) && #[trigger] rename.ensures((t, path), r)
}

/// Write `bytes` to a file atomically: create its directory, write them to a sibling, flush it, and
/// rename it over the target.
///
/// The order is part of the contract: `write_synced` may be called only once the directory is
/// there, and `rename` only once the sibling is fully written.
///
/// # Errors
///
/// [`BrokerError::Io`] if the path has no parent directory or a step fails.
pub fn write_json_atomic<
    D: FnOnce(&str) -> Result<(), String>,
    W: FnOnce(&str, &[u8]) -> Result<(), String>,
    N: FnOnce(&str, &str) -> Result<(), String>,
>(path: &str, bytes: &[u8], create_dir: D, write_synced: W, rename: N) -> (r: Result<
    (),
    BrokerError,
>)
    requires
        forall|d: &str| parent_of(path@) == Some(d@) ==> #[trigger] create_dir.requires((d,)),
        forall|t: &str|
            t@ == temp_of(path@) && dir_made(create_dir, path@, Ok(()))
                ==> #[trigger] write_synced.requires((t, bytes)),
        forall|t: &str|
            t@ == temp_of(path@) && dir_made(create_dir, path@, Ok(())) && temp_written(write_synced, path@, bytes, Ok(())) ==> #[trigger] rename.requires((t, path)),
    ensures
        r is Ok ==> dir_made(create_dir, path@, Ok(())) && temp_written(write_synced, path@, bytes, Ok(())) && renamed(rename, path, Ok(())),
        r matches Err(e) ==> {
            ||| parent_of(path@) is None && e@ == ErrorView::Io("path has no parent directory"@)
            ||| exists|m: String| #[trigger]
                dir_made(create_dir, path@, Err(m)) && e@ == ErrorView::Io(m@)
            ||| dir_made(create_dir, path@, Ok(())) && exists|m: String| #[trigger]
                temp_written(write_synced, path@, bytes, Err(m)) && e@ == ErrorView::Io(m@)
            ||| temp_written(write_synced, path@, bytes, Ok(())) && exists|m: String| #[trigger]
                renamed(rename, path, Err(m)) && e@ == ErrorView::Io(m@)
        },
{
    let dir: String = match parent(path) {
        Some(d) => d,
        None => return Err(BrokerError::Io("path has no parent directory".to_owned())),
    };
    match create_dir(dir.as_str()) {
        Ok(u) => {
            assert(u == ());
            assert(dir_made(create_dir, path@, Ok(())));
        },
        Err(m) => {
            assert(dir_made(create_dir, path@, Err(m)));
            return Err(BrokerError::Io(m));
        },
    }
    let temp: String = with_extension(path, "json.tmp");
    match write_synced(temp.as_str(), bytes) {
        Ok(u) => {
            assert(u == ());
            assert(temp_written(write_synced, path@, bytes, Ok(())));
        },
        Err(m) => {
            assert(temp_written(write_synced, path@, bytes, Err(m)));
            return Err(BrokerError::Io(m));
        },
    }
    match rename(temp.as_str(), path) {
        Ok(u) => {
            assert(u == ());
            assert(renamed(rename, path, Ok(())));
            Ok(())
        },
        Err(m) => {
            assert(renamed(rename, path, Err(m)));
            Err(BrokerError::Io(m))
        },
    }
}

/// The new contents are written beside the file that they replace, in the same directory.
pub proof fn the_new_contents_are_a_sibling(path: Seq<char>)
    requires
        name_of(path) is Some,
    ensures
        parent_of(temp_of(path)) == parent_of(path),
{
    reveal_strlit("json.tmp");
    lemma_with_extension(path, "json.tmp"@);
}

} // verus!
