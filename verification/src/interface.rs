//! The shape of a file-list entry.

use vstd::prelude::*;

verus! {

/// One entry of a file list: its kind and its path.
#[derive(Debug)]
pub struct FileList {
    pub file_type: String,
    pub file_path: String,
}

} // verus!
