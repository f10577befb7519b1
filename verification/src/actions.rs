//! The two operations of a working session: staging files, and committing
//! what is staged.
//!
//! Each takes what the caller has read from the repository and gives back
//! what is to be written to it. Nothing is to be written where an operation
//! fails.

use vstd::prelude::*;
use vstd::string::*;
use vstd::utf8::{decode_utf8, encode_utf8, valid_utf8};
use crate::blob::Blob;
use crate::commit::{files_in, legible, parent_in, readable, view_of, Commit, CommitView};
use crate::digest::{is_hash, sha1_hex, DIGEST_INPUT_LIMIT};
use crate::entries::{distinct_hashes, ordered, EntryView};
use crate::error::Error;
use crate::file_service::{head_target, joined, lemma_commit_object_round_trip, FileService};
use crate::text::lines_of;
use crate::index::{index_text, staged_onto, Index};
use crate::write::FileWrite;

verus! {

/// A file to stage: its path within the repository, and its content.
#[derive(Debug)]
pub struct StagedFile {
    pub path: String,
    pub data: Vec<u8>,
}

/// What staging leaves to be written: an object for each file, then the index.
#[derive(Debug)]
pub struct StagePlan {
    pub objects: Vec<FileWrite>,
    pub index: FileWrite,
}

/// What a commit leaves to be written, in this order: the commit's object,
/// the branch file, and the index, now empty.
#[derive(Debug)]
pub struct CommitPlan {
    pub commit: Commit,
    pub object: FileWrite,
    pub reference: FileWrite,
    pub index: FileWrite,
}

/// The entries that staging `files` makes: each path with the digest of its
/// content.
pub open spec fn entries_of(files: Seq<StagedFile>) -> Seq<EntryView> {
    Seq::new(files.len(), |i: int| EntryView { hash: sha1_hex(files[i].data@), path: files[i].path@ })
}

/// The commit that committing `staged` on top of `parent` sets out to make,
/// before it is finalized.
pub open spec fn planned(parent: Option<CommitView>, staged: Seq<EntryView>) -> CommitView {
    CommitView::child_of(parent).merge(staged)
}

/// Commit chain integrity along the chain: the commit made on top of `parent`
/// is stored as bytes that read back as a commit whose parent hash is the
/// parent's name and whose manifest is the one it was made with, provided
/// that the commit is legible.
pub proof fn lemma_commit_chain(parent: Option<CommitView>, staged: Seq<EntryView>)
    requires
        ordered(planned(parent, staged).files),
        distinct_hashes(planned(parent, staged).files),
        legible(planned(parent, staged).parent, planned(parent, staged).files),
    ensures
        ({
            let made = planned(parent, staged).update();
            let lines = lines_of(decode_utf8(made.bytes()));
            &&& valid_utf8(made.bytes())
            &&& readable(lines)
            &&& parent_in(lines) == match parent {
                Some(parent) => parent.hash,
                None => None,
            }
            &&& files_in(lines) == made.manifest()
        }),
{
    lemma_commit_object_round_trip(planned(parent, staged).update());
}

/// Stages `files`, in order: each becomes a blob in the object store, and the
/// index records the blob's name for the file's path, in place of what was
/// staged for that path before.
pub fn add_file(service: &FileService, index: &mut Index, files: &Vec<StagedFile>) -> (plan:
    StagePlan)
    requires
        forall|i: int| 0 <= i < files.len() ==> (#[trigger] files[i]).data@.len() < DIGEST_INPUT_LIMIT,
    ensures
        final(index).wf(),
        final(index)@ == staged_onto(old(index)@, entries_of(files@)),
        final(index).location() == old(index).location(),
        plan.objects.len() == files.len(),
        forall|i: int|
            0 <= i < files.len() ==> (#[trigger] plan.objects[i]).path@ == joined(
                service.object_dir@,
                sha1_hex(files[i].data@),
            ) && plan.objects[i].data@ == files[i].data@,
        forall|i: int| 0 <= i < files.len() ==> is_hash(sha1_hex((#[trigger] files[i]).data@)),
        plan.index.path@ == service.index@,
        plan.index.data@ == encode_utf8(index_text(final(index).entries())),
{
    let mut objects: Vec<FileWrite> = Vec::new();
    let mut i: usize = 0;
    proof {
        use_type_invariant(&*index);
        assert(entries_of(files@).take(0) =~= Seq::<EntryView>::empty());
    }
    while i < files.len()
        invariant
            i <= files.len(),
            forall|j: int|
                0 <= j < files.len() ==> (#[trigger] files[j]).data@.len() < DIGEST_INPUT_LIMIT,
            index.wf(),
            index@ == staged_onto(old(index)@, entries_of(files@).take(i as int)),
            index.location() == old(index).location(),
            objects.len() == i,
            forall|j: int|
                0 <= j < i ==> (#[trigger] objects[j]).path@ == joined(
                    service.object_dir@,
                    sha1_hex(files[j].data@),
                ) && objects[j].data@ == files[j].data@,
            forall|j: int| 0 <= j < i ==> is_hash(sha1_hex((#[trigger] files[j]).data@)),
        decreases files.len() - i,
    {
        proof {
            let next = entries_of(files@).take(i + 1);
            assert(next.drop_last() =~= entries_of(files@).take(i as int));
            assert(next.last() == entries_of(files@)[i as int]);
        }
        let blob = Blob::new(files[i].data.clone());
        objects.push(service.write_blob(&blob));
        index.update(files[i].path.as_str(), blob.hash().as_str());
        i += 1;
    }
    proof {
        assert(entries_of(files@).take(i as int) =~= entries_of(files@));
    }
    StagePlan { objects, index: service.write_index(index) }
}

/// Commits what is staged in `index` on top of `parent`, on the branch that
/// the text `head` of `HEAD` points to. The new commit has the parent's
/// manifest with the staged entries merged in. On success the index is
/// cleared. A commit that would track no file is refused, and so is a `HEAD`
/// that points nowhere; the index then stays as it is.
pub fn commit(service: &FileService, head: &str, parent: Option<&Commit>, index: &mut Index) -> (result:
    Result<CommitPlan, Error>)
    requires
        planned(view_of(parent), old(index).entries()).bytes().len() < DIGEST_INPUT_LIMIT,
    ensures
        final(index).wf(),
        final(index).location() == old(index).location(),
        match result {
            Ok(plan) => {
                let made = planned(view_of(parent), old(index).entries());
                &&& made.files.len() > 0
                &&& head_target(head@) matches Some(target)
                &&& plan.commit@ == made.finalize()
                &&& is_hash(sha1_hex(made.bytes()))
                &&& plan.object.path@ == joined(service.object_dir@, sha1_hex(made.bytes()))
                &&& plan.object.data@ == made.bytes()
                &&& plan.reference.path@ == joined(service.blip_dir@, target)
                &&& plan.reference.data@ == encode_utf8(sha1_hex(made.bytes()))
                &&& plan.index.path@ == old(index).location()
                &&& plan.index.data@ == Seq::<u8>::empty()
                &&& final(index).entries() == Seq::<EntryView>::empty()
            },
            Err(error) => {
                &&& final(index).entries() == old(index).entries()
                &&& if planned(view_of(parent), old(index).entries()).files.len() == 0 {
                    error is EmptyCommit
                } else {
                    error is InvalidObjectStore && head_target(head@) is None
                }
            },
        },
{
    proof {
        use_type_invariant(&*index);
    }
    let mut made = Commit::new(parent);
    made.add_from_index(index);
    match service.write_commit(&mut made, head) {
        Ok(writes) => {
            let cleared = index.clear();
            Ok(
                CommitPlan {
                    commit: made,
                    object: writes.object,
                    reference: writes.reference,
                    index: cleared,
                },
            )
        },
        Err(error) => Err(error),
    }
}

} // verus!
