//! What the object store can hold.

use vstd::prelude::*;
use crate::blob::Blob;

verus! {

/// An object of the store: the content of a file, or a directory of objects.
#[derive(Debug)]
pub enum ObjectStore {
    Blob(Blob),
    Tree(Tree),
}

/// A directory: its kind and name, its hash, and the objects in it.
#[derive(Debug)]
pub struct Tree {
    tree_type: String,
    name: String,
    hash: String,
    children: Vec<ObjectStore>,
}

} // verus!
