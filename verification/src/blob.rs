//! Blobs: the content of a file, named by its digest.

use vstd::prelude::*;
use crate::digest::{hash_bytes, is_hash, sha1_hex, DIGEST_INPUT_LIMIT};

verus! {

/// A blob as plain values.
pub struct BlobView {
    pub hash: Seq<char>,
    pub data: Seq<u8>,
}

/// The content of a file. It never changes, and its name is the digest of its
/// bytes.
#[derive(Debug)]
pub struct Blob {
    hash: String,
    data: Vec<u8>,
}

impl View for Blob {
    type V = BlobView;

    closed spec fn view(&self) -> BlobView {
        BlobView { hash: self.hash@, data: self.data@ }
    }
}

impl Blob {
    /// The name is the digest of the content, forty lowercase hexadecimal
    /// digits.
    #[verifier::type_invariant]
    pub open spec fn wf(&self) -> bool {
        self@.hash == sha1_hex(self@.data) && is_hash(self@.hash)
    }

    /// The blob that holds `data`.
    pub fn new(data: Vec<u8>) -> (blob: Blob)
        requires
            data@.len() < DIGEST_INPUT_LIMIT,
        ensures
            blob.wf(),
            blob@.data == data@,
            blob@.hash == sha1_hex(data@),
            is_hash(blob@.hash),
    {
        let hash = hash_bytes(data.as_slice());
        Blob { hash, data }
    }

    /// The blob's name.
    pub fn hash(&self) -> (hash: &String)
        ensures
            hash@ == self@.hash,
            is_hash(hash@),
            self.wf(),
    {
        proof {
            use_type_invariant(self);
        }
        &self.hash
    }

    /// The blob's content.
    pub fn data(&self) -> (data: &Vec<u8>)
        ensures
            data@ == self@.data,
    {
        &self.data
    }
}

/// Content addressing: blobs with the same content have the same name.
pub proof fn lemma_content_addressing(a: Blob, b: Blob)
    requires
        a.wf(),
        b.wf(),
        a@.data == b@.data,
    ensures
        a@.hash == b@.hash,
{
}

/// The name of a blob depends on its content alone: two blobs have the same
/// name exactly when their contents have the same digest. Where the digest
/// tells two contents apart, so do the names.
pub proof fn lemma_name_is_digest(a: Blob, b: Blob)
    requires
        a.wf(),
        b.wf(),
    ensures
        a@.hash == b@.hash <==> sha1_hex(a@.data) == sha1_hex(b@.data),
        a@.hash != b@.hash ==> a@.data != b@.data,
{
}

} // verus!
