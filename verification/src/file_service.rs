//! Where a repository keeps its files, and what to write into them.
//!
//! A repository lies in the directory `.blip` of its root:
//!
//! ```text
//! <root>/.blip/HEAD                 ref: refs/heads/<branch>
//! <root>/.blip/index                one line per staged entry
//! <root>/.blip/objects/<hash>       the bytes of a blob, or the text of a commit
//! <root>/.blip/refs/heads/<branch>  the hash of the branch's last commit
//! ```
//!
//! Nothing here touches the file system: what was read is passed in, and what
//! is to be written is handed back.

use vstd::prelude::*;
use vstd::string::*;
use vstd::utf8::{decode_utf8, encode_utf8, encode_utf8_decode_utf8, encode_utf8_valid_utf8,
    valid_utf8};
use crate::blob::Blob;
use crate::commit::{commit_text, files_in, legible, lemma_commit_round_trip, parent_in, readable,
    Commit, CommitView};
use crate::digest::{is_hash, DIGEST_INPUT_LIMIT};
use crate::entries::{distinct_hashes, ordered};
use crate::error::Error;
use crate::index::{index_entries, index_text, lemma_index_round_trip, lemma_read_index_round_trip,
    staged_by, storable, Index};
use crate::text::{chars_of, lines_of, starts_with, str_from_utf8};
use crate::write::FileWrite;

verus! {

/// `name` within the directory `base`. A `name` that starts at the root stands
/// for itself; a separator is put in where `base` does not end in one.
pub open spec fn joined(base: Seq<char>, name: Seq<char>) -> Seq<char> {
    if name.len() > 0 && name[0] == '/' {
        name
    } else if base.len() == 0 || base.last() == '/' {
        base + name
    } else {
        base + seq!['/'] + name
    }
}

/// The path of `name` within the directory `base`.
pub fn join(base: &str, name: &str) -> (path: String)
    ensures
        path@ == joined(base@, name@),
{
    let head = chars_of(base);
    let tail = chars_of(name);
    proof {
        reveal_strlit("/");
    }
    if tail.len() > 0 && tail[0] == '/' {
        String::from_str(name)
    } else if head.len() == 0 || head[head.len() - 1] == '/' {
        String::from_str(base).concat(name)
    } else {
        String::from_str(base).concat("/").concat(name)
    }
}

/// The branch file that the text of `HEAD` points to, relative to the
/// repository's directory: what follows `ref: `. Text that does not begin so
/// points nowhere.
pub open spec fn head_target(head: Seq<char>) -> Option<Seq<char>> {
    if "ref: "@.is_prefix_of(head) {
        Some(head.skip(5))
    } else {
        None
    }
}

/// Index round trip, file to file: the bytes that `write_index` gives for an
/// index whose entries are all storable are read by `read_index` as the same
/// mapping from path to hash.
pub proof fn lemma_index_file_round_trip(index: Index)
    requires
        index.wf(),
        forall|i: int| 0 <= i < index.entries().len() ==> storable(#[trigger] index.entries()[i]),
    ensures
        valid_utf8(encode_utf8(index_text(index.entries()))),
        index_entries(
            lines_of(decode_utf8(encode_utf8(index_text(index.entries())))),
        ) matches Some(stated) && staged_by(stated) == index@,
{
    encode_utf8_valid_utf8(index_text(index.entries()));
    encode_utf8_decode_utf8(index_text(index.entries()));
    lemma_index_round_trip(index);
}

/// Index round trip, from the file's bytes: what `read_index` accepts and
/// `write_index` writes out again, `read_index` reads back as the same mapping.
pub proof fn lemma_read_index_file_round_trip(data: Seq<u8>, index: Index)
    requires
        index.wf(),
        valid_utf8(data),
        index_entries(lines_of(decode_utf8(data))) matches Some(stated) && index@ == staged_by(
            stated,
        ),
    ensures
        valid_utf8(encode_utf8(index_text(index.entries()))),
        index_entries(
            lines_of(decode_utf8(encode_utf8(index_text(index.entries())))),
        ) matches Some(again) && staged_by(again) == index@,
{
    encode_utf8_valid_utf8(index_text(index.entries()));
    encode_utf8_decode_utf8(index_text(index.entries()));
    lemma_read_index_round_trip(decode_utf8(data), index);
}

/// Commit chain integrity, object to commit: the bytes that a legible commit
/// is stored as are read by `read_commit` as a commit with the same parent
/// and the same manifest.
pub proof fn lemma_commit_object_round_trip(commit: CommitView)
    requires
        ordered(commit.files),
        distinct_hashes(commit.files),
        legible(commit.parent, commit.files),
    ensures
        valid_utf8(commit.bytes()),
        readable(lines_of(decode_utf8(commit.bytes()))),
        parent_in(lines_of(decode_utf8(commit.bytes()))) == commit.parent,
        files_in(lines_of(decode_utf8(commit.bytes()))) == commit.manifest(),
{
    encode_utf8_valid_utf8(commit_text(commit.parent, commit.files));
    encode_utf8_decode_utf8(commit_text(commit.parent, commit.files));
    lemma_commit_round_trip(commit);
}

/// A directory on the way from the working directory up to the root, and
/// whether it holds a repository.
#[derive(Debug)]
pub struct DirProbe {
    pub dir: String,
    pub has_marker: bool,
}

/// The directories and files of a fresh repository.
#[derive(Debug)]
pub struct InitPlan {
    /// Directories to create, with the directories above them.
    pub dirs: Vec<String>,
    /// Files to create.
    pub files: Vec<FileWrite>,
}

/// The two files that record a commit: the commit object, and the branch file
/// that names it.
#[derive(Debug)]
pub struct CommitWrites {
    pub object: FileWrite,
    pub reference: FileWrite,
}

/// The paths of a repository.
#[derive(Debug)]
pub struct FileService {
    pub root_dir: String,
    pub blip_dir: String,
    pub object_dir: String,
    pub index: String,
    pub head: String,
}

impl FileService {
    /// The paths are those of the repository in `root_dir`.
    pub open spec fn wf(&self) -> bool {
        &&& self.blip_dir@ == joined(self.root_dir@, ".blip"@)
        &&& self.object_dir@ == joined(self.blip_dir@, "objects"@)
        &&& self.index@ == joined(self.blip_dir@, "index"@)
        &&& self.head@ == joined(self.blip_dir@, "HEAD"@)
    }

    /// The first of `probes` that holds a repository: its root. The probes run
    /// from the working directory upwards.
    pub fn find_root(probes: &Vec<DirProbe>) -> (result: Result<String, Error>)
        ensures
            match result {
                Ok(root) => exists|i: int|
                    0 <= i < probes.len() && (#[trigger] probes[i]).has_marker && root@
                        == probes[i].dir@ && forall|j: int|
                        0 <= j < i ==> !(#[trigger] probes[j]).has_marker,
                Err(error) => error is NoDirectory && forall|j: int|
                    0 <= j < probes.len() ==> !(#[trigger] probes[j]).has_marker,
            },
    {
        let mut i: usize = 0;
        while i < probes.len()
            invariant
                i <= probes.len(),
                forall|j: int| 0 <= j < i ==> !(#[trigger] probes[j]).has_marker,
            decreases probes.len() - i,
        {
            if probes[i].has_marker {
                return Ok(probes[i].dir.clone());
            }
            i += 1;
        }
        Err(Error::NoDirectory)
    }

    /// The paths of the repository in `root_dir`.
    pub fn at(root_dir: String) -> (service: FileService)
        ensures
            service.wf(),
            service.root_dir@ == root_dir@,
    {
        let blip_dir = join(root_dir.as_str(), ".blip");
        let object_dir = join(blip_dir.as_str(), "objects");
        let index = join(blip_dir.as_str(), "index");
        let head = join(blip_dir.as_str(), "HEAD");
        FileService { root_dir, blip_dir, object_dir, index, head }
    }

    /// The paths of the repository that the working directory lies in, found
    /// by `find_root`.
    pub fn new(probes: &Vec<DirProbe>) -> (result: Result<FileService, Error>)
        ensures
            match result {
                Ok(service) => service.wf() && exists|i: int|
                    0 <= i < probes.len() && (#[trigger] probes[i]).has_marker
                        && service.root_dir@ == probes[i].dir@ && forall|j: int|
                        0 <= j < i ==> !(#[trigger] probes[j]).has_marker,
                Err(error) => error is NoDirectory && forall|j: int|
                    0 <= j < probes.len() ==> !(#[trigger] probes[j]).has_marker,
            },
    {
        match FileService::find_root(probes) {
            Ok(root) => Ok(FileService::at(root)),
            Err(error) => Err(error),
        }
    }

    /// What to create for a fresh repository in the directory `path`: the
    /// directories for objects and for branches, an empty index, and a `HEAD`
    /// that points to the branch `master`. No branch file is among them: the
    /// first commit writes it.
    pub fn init_blip(path: &str) -> (plan: InitPlan)
        ensures
            plan.dirs.len() == 2,
            plan.dirs[0]@ == joined(joined(path@, ".blip"@), "objects"@),
            plan.dirs[1]@ == joined(joined(joined(path@, ".blip"@), "refs"@), "heads"@),
            plan.files.len() == 2,
            plan.files[0].path@ == joined(joined(path@, ".blip"@), "index"@),
            plan.files[0].data@ == Seq::<u8>::empty(),
            plan.files[1].path@ == joined(joined(path@, ".blip"@), "HEAD"@),
            plan.files[1].data@ == encode_utf8("ref: refs/heads/master"@),
    {
        let blip_dir = join(path, ".blip");
        let refs = join(blip_dir.as_str(), "refs");
        let mut dirs: Vec<String> = Vec::new();
        dirs.push(join(blip_dir.as_str(), "objects"));
        dirs.push(join(refs.as_str(), "heads"));
        let mut files: Vec<FileWrite> = Vec::new();
        files.push(FileWrite { path: join(blip_dir.as_str(), "index"), data: Vec::new() });
        files.push(
            FileWrite {
                path: join(blip_dir.as_str(), "HEAD"),
                data: "ref: refs/heads/master".as_bytes_vec(),
            },
        );
        InitPlan { dirs, files }
    }

    /// The path of the branch file that `HEAD` points to, given the text of
    /// `HEAD`. Text that does not begin with `ref: ` is refused.
    pub fn get_head_ref(&self, head: &str) -> (result: Result<String, Error>)
        ensures
            match result {
                Ok(path) => head_target(head@) matches Some(target) && path@ == joined(
                    self.blip_dir@,
                    target,
                ),
                Err(error) => error is InvalidObjectStore && head_target(head@) is None,
            },
    {
        let chars = chars_of(head);
        proof {
            reveal_strlit("ref: ");
        }
        if starts_with(&chars, "ref: ") {
            let target = head.substring_char(5, chars.len());
            proof {
                assert(head@.subrange(5, chars.len() as int) =~= head@.skip(5));
            }
            Ok(join(self.blip_dir.as_str(), target))
        } else {
            Err(Error::InvalidObjectStore)
        }
    }

    /// The name of the branch's last commit, given the bytes of the branch
    /// file where there is one: the whole text of the file. A branch without
    /// commits has no file yet, and that is no failure; a file that is not
    /// text is.
    pub fn get_hash_from_ref(branch_file: Option<&[u8]>) -> (result: Result<Option<String>, Error>)
        ensures
            match branch_file {
                None => result matches Ok(None),
                Some(bytes) => if valid_utf8(bytes@) {
                    result matches Ok(Some(hash)) && hash@ == decode_utf8(bytes@)
                } else {
                    result matches Err(Error::InvalidObjectStore)
                },
            },
    {
        match branch_file {
            None => Ok(None),
            Some(bytes) => match str_from_utf8(bytes) {
                Some(text) => Ok(Some(String::from_str(text))),
                None => Err(Error::InvalidObjectStore),
            },
        }
    }

    /// The path of the object named `hash`.
    pub fn object_path(&self, hash: &str) -> (path: String)
        ensures
            path@ == joined(self.object_dir@, hash@),
    {
        join(self.object_dir.as_str(), hash)
    }

    /// Reads the commit named `hash` from the bytes of its object. They must
    /// be UTF-8 and readable as commit text.
    pub fn read_commit(&self, hash: &str, object: &[u8]) -> (result: Result<Commit, Error>)
        ensures
            match result {
                Ok(commit) => {
                    &&& valid_utf8(object@)
                    &&& readable(lines_of(decode_utf8(object@)))
                    &&& commit.wf()
                    &&& commit@.hash == Some(hash@)
                    &&& commit@.data is None
                    &&& commit@.parent == parent_in(lines_of(decode_utf8(object@)))
                    &&& commit@.manifest() == files_in(lines_of(decode_utf8(object@)))
                },
                Err(error) => error is InvalidObjectStore && !(valid_utf8(object@) && readable(
                    lines_of(decode_utf8(object@)),
                )),
            },
    {
        match str_from_utf8(object) {
            Some(text) => Commit::from(hash, text),
            None => Err(Error::InvalidObjectStore),
        }
    }

    /// Reads the index from the bytes of the index file. They must be UTF-8,
    /// and each line must state an entry.
    pub fn read_index(&self, data: &[u8]) -> (result: Result<Index, Error>)
        ensures
            match result {
                Ok(index) => {
                    &&& valid_utf8(data@)
                    &&& index_entries(lines_of(decode_utf8(data@))) matches Some(stated)
                    &&& index.wf()
                    &&& index@ == staged_by(stated)
                    &&& index.location() == self.index@
                },
                Err(error) => error is InvalidIndex && !(valid_utf8(data@) && index_entries(
                    lines_of(decode_utf8(data@)),
                ) is Some),
            },
    {
        match str_from_utf8(data) {
            Some(text) => Index::parse(self.index.clone(), text),
            None => Err(Error::InvalidIndex),
        }
    }

    /// The object file for `data` under the name `hash`.
    pub fn write_obj(&self, hash: &str, data: &Vec<u8>) -> (file: FileWrite)
        ensures
            file.path@ == joined(self.object_dir@, hash@),
            file.data@ == data@,
    {
        FileWrite { path: self.object_path(hash), data: data.clone() }
    }

    /// The object file for `blob`.
    pub fn write_blob(&self, blob: &Blob) -> (file: FileWrite)
        ensures
            file.path@ == joined(self.object_dir@, blob@.hash),
            file.data@ == blob@.data,
            is_hash(blob@.hash),
    {
        self.write_obj(blob.hash().as_str(), blob.data())
    }

    /// The index file for what is staged in `index`.
    pub fn write_index(&self, index: &Index) -> (file: FileWrite)
        ensures
            file.path@ == self.index@,
            file.data@ == encode_utf8(index_text(index.entries())),
    {
        let text = index.render();
        FileWrite { path: self.index.clone(), data: text.as_str().as_bytes_vec() }
    }

    /// Finalizes `commit` and gives the files that record it: its object, and
    /// the branch file that the text of `HEAD` points to, which takes the
    /// commit's name. A commit that tracks no file is refused, and so is a
    /// `HEAD` that points nowhere; nothing is to be written then.
    pub fn write_commit(&self, commit: &mut Commit, head: &str) -> (result: Result<
        CommitWrites,
        Error,
    >)
        requires
            old(commit)@.bytes().len() < DIGEST_INPUT_LIMIT,
        ensures
            final(commit).wf(),
            final(commit)@ == old(commit)@.update(),
            match result {
                Ok(writes) => {
                    &&& final(commit)@.finalized()
                    &&& final(commit)@.hash matches Some(hash) && is_hash(hash)
                    &&& head_target(head@) matches Some(target)
                    &&& writes.object.path@ == joined(self.object_dir@, final(commit)@.hash->0)
                    &&& writes.object.data@ == final(commit)@.data->0
                    &&& writes.reference.path@ == joined(self.blip_dir@, target)
                    &&& writes.reference.data@ == encode_utf8(final(commit)@.hash->0)
                },
                Err(error) => if old(commit)@.files.len() == 0 {
                    error is EmptyCommit
                } else {
                    error is InvalidObjectStore && head_target(head@) is None
                },
            },
    {
        commit.update();
        proof {
            use_type_invariant(&*commit);
        }
        match (commit.hash(), commit.data()) {
            (Some(hash), Some(data)) => {
                let object = self.write_obj(hash.as_str(), data);
                match self.get_head_ref(head) {
                    Ok(path) => {
                        let reference = FileWrite { path, data: hash.as_str().as_bytes_vec() };
                        Ok(CommitWrites { object, reference })
                    },
                    Err(error) => Err(error),
                }
            },
            _ => Err(Error::EmptyCommit),
        }
    }
}

} // verus!
