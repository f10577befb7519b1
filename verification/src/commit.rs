//! Commits: a snapshot of the tracked files, linked to the commit before it.
//!
//! A commit starts unfinalized, holding a parent hash and a manifest. To
//! finalize it is to write it out as text, a `parent` line if it has a parent
//! and then a `blob` line for each file in ascending order of hash, and to name
//! it by the digest of that text. A commit read back from such text has its
//! name given.

use vstd::prelude::*;
use vstd::string::*;
use vstd::utf8::encode_utf8;
use crate::digest::{hash_at, hash_bytes, is_hash, is_hex_digit, sha1_hex, DIGEST_INPUT_LIMIT,
    HASH_LEN};
use crate::entries::{by_hash, clone_entries, distinct_hashes, lemma_by_hash_determines,
    lemma_by_hash_last, lemma_by_hash_pairs, lemma_listing,
    listing, ordered, put_by_hash, views, Entry, EntryView};
use crate::error::Error;
use crate::index::Index;
use crate::text::{chars_of, lemma_lines_of_concat, lemma_lines_of_one, lines_of, split_lines,
    starts_with, strip_cr, texts};

verus! {

/// What a line of commit text says.
pub enum CommitLineView {
    /// `parent <hash>`: the commit before this one.
    Parent(Seq<char>),
    /// `blob <hash>, <path>`: a tracked file.
    Blob(EntryView),
    /// The line begins like one of the two above, and no hash follows.
    Malformed,
    /// Any other line. It says nothing.
    Other,
}

/// Reads a line of commit text. After `parent ` and after `blob ` forty
/// hexadecimal digits must follow, and after those of a `blob` line a comma, a
/// space and the path, which runs to the end of the line.
pub open spec fn commit_line(line: Seq<char>) -> CommitLineView {
    if "parent "@.is_prefix_of(line) {
        let rest = line.skip(7);
        if rest.len() >= HASH_LEN && is_hash(rest.take(HASH_LEN as int)) {
            CommitLineView::Parent(rest.take(HASH_LEN as int))
        } else {
            CommitLineView::Malformed
        }
    } else if "blob "@.is_prefix_of(line) {
        let rest = line.skip(5);
        if rest.len() >= HASH_LEN + 2 && is_hash(rest.take(HASH_LEN as int)) && rest[HASH_LEN as int]
            == ',' && rest[HASH_LEN + 1] == ' ' {
            CommitLineView::Blob(
                EntryView { hash: rest.take(HASH_LEN as int), path: rest.skip(HASH_LEN + 2) },
            )
        } else {
            CommitLineView::Malformed
        }
    } else {
        CommitLineView::Other
    }
}

/// No line is malformed.
pub open spec fn readable(lines: Seq<Seq<char>>) -> bool {
    forall|i: int| 0 <= i < lines.len() ==> !(commit_line(#[trigger] lines[i]) is Malformed)
}

/// The parent that the lines name: that of the last `parent` line.
pub open spec fn parent_in(lines: Seq<Seq<char>>) -> Option<Seq<char>>
    decreases lines.len(),
{
    if lines.len() == 0 {
        None
    } else {
        match commit_line(lines.last()) {
            CommitLineView::Parent(hash) => Some(hash),
            _ => parent_in(lines.drop_last()),
        }
    }
}

/// The manifest that the lines list, from hash to path: a later `blob` line
/// replaces an earlier one for the same hash.
pub open spec fn files_in(lines: Seq<Seq<char>>) -> Map<Seq<char>, Seq<char>>
    decreases lines.len(),
{
    if lines.len() == 0 {
        Map::empty()
    } else {
        match commit_line(lines.last()) {
            CommitLineView::Blob(entry) => files_in(lines.drop_last()).insert(
                entry.hash,
                entry.path,
            ),
            _ => files_in(lines.drop_last()),
        }
    }
}

/// The `parent` line of a commit's text; nothing for a commit without parent.
pub open spec fn parent_line(parent: Option<Seq<char>>) -> Seq<char> {
    match parent {
        Some(hash) => "parent "@ + hash + seq!['\n'],
        None => Seq::empty(),
    }
}

/// The `blob` lines of a commit's text, one for each file.
pub open spec fn blob_lines(files: Seq<EntryView>) -> Seq<char>
    decreases files.len(),
{
    if files.len() == 0 {
        Seq::empty()
    } else {
        blob_lines(files.drop_last()) + "blob "@ + files.last().hash + ", "@ + files.last().path
            + seq!['\n']
    }
}

/// The text by which a commit is stored and named.
pub open spec fn commit_text(parent: Option<Seq<char>>, files: Seq<EntryView>) -> Seq<char> {
    parent_line(parent) + blob_lines(files)
}

/// The lines that show the files of a commit to a reader: as in its text, but
/// without the comma.
pub open spec fn listed_files(files: Seq<EntryView>) -> Seq<char>
    decreases files.len(),
{
    if files.len() == 0 {
        Seq::empty()
    } else {
        listed_files(files.drop_last()) + "blob "@ + files.last().hash + " "@ + files.last().path
            + seq!['\n']
    }
}

/// The manifest that results from merging `staged` into `files`, entry by
/// entry: the path of a staged entry replaces what `files` had for its hash.
pub open spec fn merged(files: Map<Seq<char>, Seq<char>>, staged: Seq<EntryView>) -> Map<
    Seq<char>,
    Seq<char>,
>
    decreases staged.len(),
{
    if staged.len() == 0 {
        files
    } else {
        merged(files, staged.drop_last()).insert(staged.last().hash, staged.last().path)
    }
}

/// A path that a line of commit text can hold: it has no line feed in it and
/// does not end in a carriage return.
pub open spec fn line_safe(path: Seq<char>) -> bool {
    &&& !path.contains('\n')
    &&& path.len() > 0 ==> path.last() != '\r'
}

/// A commit whose text can be read back: every hash in it has the shape of a
/// hash, and every path can stand in a line.
pub open spec fn legible(parent: Option<Seq<char>>, files: Seq<EntryView>) -> bool {
    &&& parent matches Some(hash) ==> is_hash(hash)
    &&& forall|i: int|
        0 <= i < files.len() ==> is_hash((#[trigger] files[i]).hash) && line_safe(files[i].path)
}

/// The `blob` line for `entry`, without its line feed.
pub open spec fn blob_line(entry: EntryView) -> Seq<char> {
    "blob "@ + entry.hash + ", "@ + entry.path
}

/// A hash holds no line feed.
proof fn lemma_hash_has_no_line_feed(hash: Seq<char>)
    requires
        is_hash(hash),
    ensures
        !hash.contains('\n'),
{
    if hash.contains('\n') {
        let i = choose|i: int| 0 <= i < hash.len() && hash[i] == '\n';
        assert(is_hex_digit(hash[i]));
    }
}

/// The `parent` line written for a hash is read as naming that hash.
pub proof fn lemma_parent_line_read(hash: Seq<char>)
    requires
        is_hash(hash),
    ensures
        commit_line("parent "@ + hash) == CommitLineView::Parent(hash),
        !("parent "@ + hash).contains('\n'),
        strip_cr("parent "@ + hash) == "parent "@ + hash,
{
    reveal_strlit("parent ");
    let line = "parent "@ + hash;
    assert("parent "@ =~= line.subrange(0, 7));
    assert(line.skip(7) =~= hash);
    assert(hash.take(HASH_LEN as int) =~= hash);
    lemma_hash_has_no_line_feed(hash);
    if line.contains('\n') {
        let i = choose|i: int| 0 <= i < line.len() && line[i] == '\n';
        if i >= 7 {
            assert(hash.contains(hash[i - 7]));
        }
    }
    assert(line.last() == hash.last());
    assert(is_hex_digit(hash[HASH_LEN - 1]));
}

/// The `blob` line written for an entry is read as listing that entry.
pub proof fn lemma_blob_line_read(entry: EntryView)
    requires
        is_hash(entry.hash),
        line_safe(entry.path),
    ensures
        commit_line(blob_line(entry)) == CommitLineView::Blob(entry),
        !blob_line(entry).contains('\n'),
        strip_cr(blob_line(entry)) == blob_line(entry),
{
    reveal_strlit("parent ");
    reveal_strlit("blob ");
    reveal_strlit(", ");
    let line = blob_line(entry);
    assert(line[0] == 'b');
    if "parent "@.is_prefix_of(line) {
        assert(line.subrange(0, 7)[0] == 'p');
    }
    assert("blob "@ =~= line.subrange(0, 5));
    let rest = line.skip(5);
    assert(rest =~= entry.hash + ", "@ + entry.path);
    assert(rest.take(HASH_LEN as int) =~= entry.hash);
    assert(rest.skip(HASH_LEN + 2) =~= entry.path);
    lemma_hash_has_no_line_feed(entry.hash);
    if line.contains('\n') {
        let i = choose|i: int| 0 <= i < line.len() && line[i] == '\n';
        if 5 <= i < 5 + HASH_LEN {
            assert(entry.hash.contains(entry.hash[i - 5]));
        } else if i >= 5 + HASH_LEN + 2 {
            assert(entry.path.contains(entry.path[i - 5 - HASH_LEN - 2]));
        }
    }
    if entry.path.len() > 0 {
        assert(line.last() == entry.path.last());
    } else {
        assert(line.last() == ' ');
    }
}

/// The text of the `blob` lines is that of all but the last, then the last
/// line and a line feed.
proof fn lemma_blob_lines_last(files: Seq<EntryView>)
    requires
        files.len() > 0,
    ensures
        blob_lines(files) == blob_lines(files.drop_last()) + blob_line(files.last()).push('\n'),
{
    assert(blob_lines(files) =~= blob_lines(files.drop_last()) + blob_line(files.last()).push(
        '\n',
    ));
}

/// The lines of the `blob` lines written for legible files are those lines.
pub proof fn lemma_blob_lines_read(files: Seq<EntryView>)
    requires
        legible(None, files),
    ensures
        lines_of(blob_lines(files)) == Seq::new(files.len(), |i: int| blob_line(files[i])),
        blob_lines(files).len() == 0 || blob_lines(files).last() == '\n',
    decreases files.len(),
{
    let lines = Seq::new(files.len(), |i: int| blob_line(files[i]));
    if files.len() == 0 {
        assert(lines_of(blob_lines(files)) =~= lines);
    } else {
        let init = files.drop_last();
        let last = files.last();
        let line = blob_line(last);
        let head = blob_lines(init);
        assert(legible(None, init)) by {
            assert forall|i: int| 0 <= i < init.len() implies is_hash((#[trigger] init[i]).hash)
                && line_safe(init[i].path) by {
                assert(init[i] == files[i]);
            }
        }
        lemma_blob_lines_read(init);
        assert(is_hash(last.hash) && line_safe(last.path)) by {
            assert(last == files[files.len() - 1]);
        }
        lemma_blob_line_read(last);
        lemma_blob_lines_last(files);
        lemma_lines_of_concat(head, line.push('\n'));
        lemma_lines_of_one(line);
        assert(lines_of(blob_lines(files)) == lines_of(head) + seq![line]);
        assert(lines =~= Seq::new(init.len(), |i: int| blob_line(init[i])) + seq![line]);
    }
}

/// After any lines, the `blob` lines of legible files with distinct hashes
/// leave the parent as it was and put each file into the manifest.
proof fn lemma_blobs_after(head: Seq<Seq<char>>, files: Seq<EntryView>)
    requires
        legible(None, files),
        distinct_hashes(files),
        readable(head),
        files_in(head) == Map::<Seq<char>, Seq<char>>::empty(),
    ensures
        readable(head + Seq::new(files.len(), |i: int| blob_line(files[i]))),
        parent_in(head + Seq::new(files.len(), |i: int| blob_line(files[i]))) == parent_in(head),
        files_in(head + Seq::new(files.len(), |i: int| blob_line(files[i]))) == by_hash(files),
    decreases files.len(),
{
    let blobs = Seq::new(files.len(), |i: int| blob_line(files[i]));
    let lines = head + blobs;
    if files.len() == 0 {
        assert(lines =~= head);
        assert(by_hash(files) =~= Map::<Seq<char>, Seq<char>>::empty());
    } else {
        let init = files.drop_last();
        let last = files.last();
        assert(legible(None, init)) by {
            assert forall|i: int| 0 <= i < init.len() implies is_hash((#[trigger] init[i]).hash)
                && line_safe(init[i].path) by {
                assert(init[i] == files[i]);
            }
        }
        lemma_by_hash_last(files);
        lemma_blobs_after(head, init);
        let before = head + Seq::new(init.len(), |i: int| blob_line(init[i]));
        assert(lines.drop_last() =~= before);
        assert(lines.last() == blob_line(last));
        assert(is_hash(files[files.len() - 1].hash));
        lemma_blob_line_read(last);
        assert forall|i: int| 0 <= i < lines.len() implies !(commit_line(#[trigger] lines[i])
            is Malformed) by {
            if i < before.len() {
                assert(lines[i] == before[i]);
            }
        }
    }
}

/// Commit chain integrity. The text of a commit, read back, names the same
/// parent and lists the same manifest, provided that the commit is legible:
/// `from`, given the text that `serialize` and `update` produce for the
/// commit, succeeds with that parent and that manifest.
pub proof fn lemma_commit_round_trip(commit: CommitView)
    requires
        ordered(commit.files),
        distinct_hashes(commit.files),
        legible(commit.parent, commit.files),
    ensures
        readable(lines_of(commit_text(commit.parent, commit.files))),
        parent_in(lines_of(commit_text(commit.parent, commit.files))) == commit.parent,
        files_in(lines_of(commit_text(commit.parent, commit.files))) == commit.manifest(),
{
    let blobs = Seq::new(commit.files.len(), |i: int| blob_line(commit.files[i]));
    lemma_blob_lines_read(commit.files);
    match commit.parent {
        Some(hash) => {
            let line = "parent "@ + hash;
            lemma_parent_line_read(hash);
            lemma_lines_of_one(line);
            assert(parent_line(commit.parent) =~= line.push('\n'));
            lemma_lines_of_concat(parent_line(commit.parent), blob_lines(commit.files));
            let head = seq![line];
            assert(head.drop_last() =~= Seq::<Seq<char>>::empty());
            assert(head.last() == line);
            assert(files_in(head.drop_last()) =~= Map::<Seq<char>, Seq<char>>::empty());
            lemma_blobs_after(head, commit.files);
        },
        None => {
            assert(commit_text(commit.parent, commit.files) =~= blob_lines(commit.files));
            let head = Seq::<Seq<char>>::empty();
            assert(head + blobs =~= blobs);
            lemma_blobs_after(head, commit.files);
        },
    }
}

/// What merging leaves in a manifest was in it before or was staged.
pub proof fn lemma_merged_member(
    files: Map<Seq<char>, Seq<char>>,
    staged: Seq<EntryView>,
    hash: Seq<char>,
    path: Seq<char>,
)
    requires
        merged(files, staged).contains_pair(hash, path),
    ensures
        files.contains_pair(hash, path) || staged.contains(EntryView { hash, path }),
    decreases staged.len(),
{
    if staged.len() > 0 {
        let last = staged.last();
        if last.hash == hash {
            assert(staged[staged.len() - 1] == EntryView { hash, path });
        } else {
            lemma_merged_member(files, staged.drop_last(), hash, path);
            if staged.drop_last().contains(EntryView { hash, path }) {
                let i = choose|i: int|
                    0 <= i < staged.drop_last().len() && staged.drop_last()[i] == EntryView {
                        hash,
                        path,
                    };
                assert(staged[i] == EntryView { hash, path });
            }
        }
    }
}

/// Merging keeps a commit legible: where `after` is `before` with `staged`
/// merged in, and both `before` and the staged entries are legible, so is
/// `after`.
pub proof fn lemma_merge_legible(before: CommitView, staged: Seq<EntryView>, after: CommitView)
    requires
        distinct_hashes(before.files),
        distinct_hashes(after.files),
        after.parent == before.parent,
        after.manifest() == merged(before.manifest(), staged),
        legible(before.parent, before.files),
        legible(None, staged),
    ensures
        legible(after.parent, after.files),
{
    lemma_by_hash_pairs(before.files);
    lemma_by_hash_pairs(after.files);
    assert forall|j: int| 0 <= j < after.files.len() implies is_hash(
        (#[trigger] after.files[j]).hash,
    ) && line_safe(after.files[j].path) by {
        let e = after.files[j];
        assert(after.files.contains(e));
        assert(by_hash(after.files).contains_pair(e.hash, e.path));
        lemma_merged_member(before.manifest(), staged, e.hash, e.path);
        if before.manifest().contains_pair(e.hash, e.path) {
            assert(before.files.contains(e));
            let i = choose|i: int| 0 <= i < before.files.len() && before.files[i] == e;
            assert(is_hash(before.files[i].hash));
        } else {
            let i = choose|i: int| 0 <= i < staged.len() && staged[i] == e;
            assert(is_hash(staged[i].hash));
        }
    }
}

/// The name of a commit is determined by its parent and its manifest: two
/// unfinalized commits that agree in both are finalized to the same bytes
/// under the same name.
pub proof fn lemma_commit_name_determined(a: CommitView, b: CommitView)
    requires
        ordered(a.files),
        distinct_hashes(a.files),
        ordered(b.files),
        distinct_hashes(b.files),
        a.parent == b.parent,
        a.manifest() == b.manifest(),
    ensures
        a.files == b.files,
        a.finalize().data == b.finalize().data,
        a.finalize().hash == b.finalize().hash,
{
    lemma_by_hash_determines(a.files, b.files);
}

/// A line of commit text, read.
#[derive(Debug)]
pub enum CommitLine {
    Parent(String),
    Blob(Entry),
    Malformed,
    Other,
}

impl View for CommitLine {
    type V = CommitLineView;

    open spec fn view(&self) -> CommitLineView {
        match self {
            CommitLine::Parent(hash) => CommitLineView::Parent(hash@),
            CommitLine::Blob(entry) => CommitLineView::Blob(entry@),
            CommitLine::Malformed => CommitLineView::Malformed,
            CommitLine::Other => CommitLineView::Other,
        }
    }
}

/// Reads a line of commit text.
pub fn read_commit_line(line: &str) -> (read: CommitLine)
    ensures
        read@ == commit_line(line@),
{
    let chars = chars_of(line);
    let n = chars.len();
    proof {
        reveal_strlit("parent ");
        reveal_strlit("blob ");
    }
    if starts_with(&chars, "parent ") {
        let ghost rest = line@.skip(7);
        proof {
            if 7 + HASH_LEN <= n {
                assert(rest.take(HASH_LEN as int) =~= line@.subrange(7, 7 + HASH_LEN));
            }
        }
        if hash_at(&chars, 7) {
            CommitLine::Parent(String::from_str(line.substring_char(7, 7 + HASH_LEN)))
        } else {
            CommitLine::Malformed
        }
    } else if starts_with(&chars, "blob ") {
        let ghost rest = line@.skip(5);
        proof {
            if 5 + HASH_LEN <= n {
                assert(rest.take(HASH_LEN as int) =~= line@.subrange(5, 5 + HASH_LEN));
            }
        }
        if hash_at(&chars, 5) && n >= 5 + HASH_LEN + 2 && chars[5 + HASH_LEN] == ',' && chars[5
            + HASH_LEN + 1] == ' ' {
            let hash = String::from_str(line.substring_char(5, 5 + HASH_LEN));
            let path = String::from_str(line.substring_char(5 + HASH_LEN + 2, n));
            proof {
                assert(rest.skip(HASH_LEN + 2) =~= line@.subrange(5 + HASH_LEN + 2, n as int));
            }
            CommitLine::Blob(Entry { hash, path })
        } else {
            CommitLine::Malformed
        }
    } else {
        CommitLine::Other
    }
}

/// A commit as plain values.
pub struct CommitView {
    /// The commit's name: set by finalizing, or given when it is read back.
    pub hash: Option<Seq<char>>,
    /// The bytes that were digested to name it: set by finalizing.
    pub data: Option<Seq<u8>>,
    /// The name of the commit before it.
    pub parent: Option<Seq<char>>,
    /// The tracked files, ascending by hash.
    pub files: Seq<EntryView>,
}

impl CommitView {
    /// The tracked files as a mapping from content hash to path.
    pub open spec fn manifest(self) -> Map<Seq<char>, Seq<char>> {
        by_hash(self.files)
    }

    /// The bytes of the commit's text.
    pub open spec fn bytes(self) -> Seq<u8> {
        encode_utf8(commit_text(self.parent, self.files))
    }

    /// Finalized: the commit has been written out and named, and is fixed.
    pub open spec fn finalized(self) -> bool {
        self.data is Some
    }

    /// This commit, finalized.
    pub open spec fn finalize(self) -> CommitView {
        CommitView { hash: Some(sha1_hex(self.bytes())), data: Some(self.bytes()), ..self }
    }

    /// A new commit on top of `parent`: unfinalized, with the parent's name as
    /// its parent hash and the parent's manifest as its own.
    pub open spec fn child_of(parent: Option<CommitView>) -> CommitView {
        match parent {
            Some(parent) => CommitView {
                hash: None,
                data: None,
                parent: parent.hash,
                files: parent.files,
            },
            None => CommitView { hash: None, data: None, parent: None, files: Seq::empty() },
        }
    }

    /// This commit with `staged` merged into its manifest. A finalized commit
    /// is fixed.
    pub open spec fn merge(self, staged: Seq<EntryView>) -> CommitView {
        if self.finalized() {
            self
        } else {
            CommitView { files: listing(merged(self.manifest(), staged)), ..self }
        }
    }

    /// This commit after an attempt to finalize it: a commit that tracks no
    /// file cannot be finalized, and a finalized one is fixed.
    pub open spec fn update(self) -> CommitView {
        if self.finalized() || self.files.len() == 0 {
            self
        } else {
            self.finalize()
        }
    }
}

/// The view of an optional commit.
pub open spec fn view_of(commit: Option<&Commit>) -> Option<CommitView> {
    match commit {
        Some(commit) => Some(commit@),
        None => None,
    }
}

/// A snapshot of the tracked files.
#[derive(Debug)]
pub struct Commit {
    hash: Option<String>,
    data: Option<Vec<u8>>,
    parent: Option<String>,
    files: Vec<Entry>,
}

/// The text of an optional string.
pub open spec fn text_of(s: Option<String>) -> Option<Seq<char>> {
    match s {
        Some(s) => Some(s@),
        None => None,
    }
}

/// The bytes of an optional vector.
pub open spec fn bytes_of(v: Option<Vec<u8>>) -> Option<Seq<u8>> {
    match v {
        Some(v) => Some(v@),
        None => None,
    }
}

impl View for Commit {
    type V = CommitView;

    closed spec fn view(&self) -> CommitView {
        CommitView {
            hash: text_of(self.hash),
            data: bytes_of(self.data),
            parent: text_of(self.parent),
            files: views(self.files@),
        }
    }
}

impl Commit {
    /// The manifest is in order and names no hash twice. A finalized commit
    /// tracks at least one file, holds the bytes of its text, and is named by
    /// their digest, forty lowercase hexadecimal digits.
    #[verifier::type_invariant]
    pub open spec fn wf(&self) -> bool {
        &&& ordered(self@.files)
        &&& distinct_hashes(self@.files)
        &&& self@.finalized() ==> {
            &&& self@.files.len() > 0
            &&& self@ == self@.finalize()
            &&& self@.hash matches Some(hash) && is_hash(hash)
        }
    }

    /// A new, unfinalized commit on top of `parent`: it has the parent's name
    /// as its parent hash and starts with the parent's manifest. Without a
    /// parent it starts with neither.
    pub fn new(parent: Option<&Commit>) -> (commit: Commit)
        ensures
            commit.wf(),
            commit@ == CommitView::child_of(view_of(parent)),
    {
        match parent {
            Some(p) => {
                proof {
                    use_type_invariant(p);
                }
                let hash = match &p.hash {
                    Some(hash) => Some(hash.clone()),
                    None => None,
                };
                Commit { hash: None, data: None, parent: hash, files: clone_entries(&p.files) }
            },
            None => {
                let commit = Commit { hash: None, data: None, parent: None, files: Vec::new() };
                assert(commit@.files =~= Seq::<EntryView>::empty());
                commit
            },
        }
    }

    /// Reads back the commit named `hash` from its text. Lines that are
    /// neither a `parent` nor a `blob` line are passed over; a malformed one
    /// makes the whole text unreadable.
    pub fn from(hash: &str, input: &str) -> (result: Result<Commit, Error>)
        ensures
            match result {
                Ok(commit) => {
                    &&& readable(lines_of(input@))
                    &&& commit.wf()
                    &&& commit@.hash == Some(hash@)
                    &&& commit@.data is None
                    &&& commit@.parent == parent_in(lines_of(input@))
                    &&& commit@.manifest() == files_in(lines_of(input@))
                },
                Err(error) => error is InvalidObjectStore && !readable(lines_of(input@)),
            },
    {
        let lines = split_lines(input);
        let ghost all = lines_of(input@);
        let mut parent: Option<String> = None;
        let mut files: Vec<Entry> = Vec::new();
        let mut i: usize = 0;
        proof {
            assert(all.take(0) =~= Seq::<Seq<char>>::empty());
            assert(by_hash(views(files@)) =~= files_in(all.take(0)));
        }
        while i < lines.len()
            invariant
                i <= lines.len(),
                texts(lines@) == all,
                all == lines_of(input@),
                ordered(views(files@)),
                distinct_hashes(views(files@)),
                readable(all.take(i as int)),
                text_of(parent) == parent_in(all.take(i as int)),
                by_hash(views(files@)) == files_in(all.take(i as int)),
            decreases lines.len() - i,
        {
            proof {
                assert(all[i as int] == lines[i as int]@);
                assert(all.take(i + 1).drop_last() =~= all.take(i as int));
                assert(all.take(i + 1).last() == all[i as int]);
            }
            match read_commit_line(lines[i].as_str()) {
                CommitLine::Parent(hash) => {
                    parent = Some(hash);
                },
                CommitLine::Blob(entry) => {
                    put_by_hash(&mut files, entry.hash, entry.path);
                },
                CommitLine::Malformed => {
                    return Err(Error::InvalidObjectStore);
                },
                CommitLine::Other => {},
            }
            proof {
                let next = all.take(i + 1);
                assert forall|j: int| 0 <= j < next.len() implies !(commit_line(
                    #[trigger] next[j],
                ) is Malformed) by {
                    if j < i {
                        assert(next[j] == all.take(i as int)[j]);
                    }
                }
            }
            i += 1;
        }
        proof {
            assert(all.take(i as int) =~= all);
        }
        Ok(Commit { hash: Some(String::from_str(hash)), data: None, parent, files })
    }

    /// The commit's name, once it has one.
    pub fn hash(&self) -> (hash: Option<&String>)
        ensures
            text_of_ref(hash) == self@.hash,
    {
        match &self.hash {
            Some(hash) => Some(hash),
            None => None,
        }
    }

    /// The bytes that were digested to name the commit, once it is finalized.
    pub fn data(&self) -> (data: Option<&Vec<u8>>)
        ensures
            bytes_of_ref(data) == self@.data,
    {
        match &self.data {
            Some(data) => Some(data),
            None => None,
        }
    }

    /// The name of the commit before this one.
    pub fn parent(&self) -> (parent: Option<&String>)
        ensures
            text_of_ref(parent) == self@.parent,
    {
        match &self.parent {
            Some(parent) => Some(parent),
            None => None,
        }
    }

    /// The tracked files, ascending by hash.
    pub fn files(&self) -> (files: &Vec<Entry>)
        ensures
            views(files@) == self@.files,
            self.wf(),
    {
        proof {
            use_type_invariant(self);
        }
        &self.files
    }

    /// What to print to show this commit: its parent, then its files.
    pub fn print(&self) -> (shown: String)
        ensures
            shown@ == parent_line(self@.parent) + listed_files(self@.files),
    {
        let mut shown = String::new();
        proof {
            reveal_strlit("\n");
            reveal_strlit(" ");
        }
        if let Some(parent) = &self.parent {
            shown.append("parent ");
            shown.append(parent.as_str());
            shown.append("\n");
        }
        let ghost head = shown@;
        assert(head =~= parent_line(self@.parent));
        let mut i: usize = 0;
        proof {
            assert(self@.files.take(0) =~= Seq::<EntryView>::empty());
            assert(head + listed_files(self@.files.take(0)) =~= head);
        }
        while i < self.files.len()
            invariant
                i <= self.files.len(),
                " "@ == seq![' '],
                "\n"@ == seq!['\n'],
                shown@ == head + listed_files(self@.files.take(i as int)),
            decreases self.files.len() - i,
        {
            proof {
                let next = self@.files.take(i + 1);
                assert(next.drop_last() =~= self@.files.take(i as int));
                assert(next.last() == self.files[i as int]@);
            }
            shown.append("blob ");
            shown.append(self.files[i].hash.as_str());
            shown.append(" ");
            shown.append(self.files[i].path.as_str());
            shown.append("\n");
            i += 1;
        }
        proof {
            assert(self@.files.take(i as int) =~= self@.files);
        }
        shown
    }

    /// The text by which this commit is stored and named.
    pub fn serialize(&self) -> (text: String)
        ensures
            text@ == commit_text(self@.parent, self@.files),
    {
        let mut text = String::new();
        proof {
            reveal_strlit("\n");
        }
        if let Some(parent) = &self.parent {
            text.append("parent ");
            text.append(parent.as_str());
            text.append("\n");
        }
        let ghost head = text@;
        assert(head =~= parent_line(self@.parent));
        let mut i: usize = 0;
        proof {
            assert(self@.files.take(0) =~= Seq::<EntryView>::empty());
            assert(head + blob_lines(self@.files.take(0)) =~= head);
        }
        while i < self.files.len()
            invariant
                i <= self.files.len(),
                "\n"@ == seq!['\n'],
                text@ == head + blob_lines(self@.files.take(i as int)),
            decreases self.files.len() - i,
        {
            proof {
                let next = self@.files.take(i + 1);
                assert(next.drop_last() =~= self@.files.take(i as int));
                assert(next.last() == self.files[i as int]@);
            }
            text.append("blob ");
            text.append(self.files[i].hash.as_str());
            text.append(", ");
            text.append(self.files[i].path.as_str());
            text.append("\n");
            i += 1;
        }
        proof {
            assert(self@.files.take(i as int) =~= self@.files);
        }
        text
    }

    /// Merges what is staged in `index` into the manifest: for each staged
    /// entry, in the order of the index, its path becomes the path recorded
    /// for its hash. A finalized commit is fixed and stays as it is.
    ///
    /// The manifest is keyed by content hash, not by path. Two paths with the
    /// same content therefore share one entry, which keeps the path that was
    /// merged last, and a file renamed without a change takes over the entry
    /// of its old path.
    pub fn add_from_index(&mut self, index: &Index)
        ensures
            final(self).wf(),
            final(self)@ == old(self)@.merge(index.entries()),
            !old(self)@.finalized() ==> final(self)@.manifest() == merged(
                old(self)@.manifest(),
                index.entries(),
            ),
    {
        proof {
            use_type_invariant(&*self);
        }
        if self.data.is_some() {
            return ;
        }
        let staged = index.hashtree();
        let mut files: Vec<Entry> = Vec::new();
        proof {
            assert(views(files@) =~= Seq::<EntryView>::empty());
        }
        core::mem::swap(&mut self.files, &mut files);
        let ghost start = by_hash(views(files@));
        let mut i: usize = 0;
        proof {
            assert(index.entries().take(0) =~= Seq::<EntryView>::empty());
        }
        while i < staged.len()
            invariant
                i <= staged.len(),
                views(staged@) == index.entries(),
                ordered(views(files@)),
                distinct_hashes(views(files@)),
                by_hash(views(files@)) == merged(start, index.entries().take(i as int)),
            decreases staged.len() - i,
        {
            proof {
                let next = index.entries().take(i + 1);
                assert(next.drop_last() =~= index.entries().take(i as int));
                assert(next.last() == staged[i as int]@);
            }
            put_by_hash(&mut files, staged[i].hash.clone(), staged[i].path.clone());
            i += 1;
        }
        proof {
            assert(index.entries().take(i as int) =~= index.entries());
            lemma_listing(views(files@));
        }
        self.files = files;
    }

    /// Finalizes the commit: writes it out as text, keeps the bytes of the
    /// text, and names the commit by their digest. A commit that tracks no
    /// file cannot be finalized and stays as it is, and so does one that is
    /// finalized already. The text must be short enough to be digested.
    pub fn update(&mut self)
        requires
            old(self)@.bytes().len() < DIGEST_INPUT_LIMIT,
        ensures
            final(self).wf(),
            final(self)@ == old(self)@.update(),
            final(self)@.finalized() ==> (final(self)@.hash matches Some(hash) && is_hash(hash)),
    {
        proof {
            use_type_invariant(&*self);
        }
        if self.data.is_some() || self.files.len() == 0 {
            return ;
        }
        let text = self.serialize();
        let data = text.as_str().as_bytes_vec();
        let hash = hash_bytes(data.as_slice());
        self.hash = Some(hash);
        self.data = Some(data);
    }
}

/// The text of an optional borrowed string.
pub open spec fn text_of_ref(s: Option<&String>) -> Option<Seq<char>> {
    match s {
        Some(s) => Some(s@),
        None => None,
    }
}

/// The bytes of an optional borrowed vector.
pub open spec fn bytes_of_ref(v: Option<&Vec<u8>>) -> Option<Seq<u8>> {
    match v {
        Some(v) => Some(v@),
        None => None,
    }
}

} // verus!
