//! Files that an operation leaves to be written.

use vstd::prelude::*;

verus! {

/// One file to create or overwrite: where, and with which bytes.
#[derive(Debug)]
pub struct FileWrite {
    pub path: String,
    pub data: Vec<u8>,
}

} // verus!
