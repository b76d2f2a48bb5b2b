//! An entry of a workspace directory listing.

use vstd::prelude::*;

verus! {

/// One entry of a directory listing: whether it is a directory or a link,
/// its name, and when it last changed (seconds since the epoch).
#[derive(Clone, Debug)]
pub struct FileInfo {
    pub is_dir: bool,
    pub is_symlink: bool,
    pub name: String,
    pub updated: i32,
}

} // verus!
