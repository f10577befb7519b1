//! The staging index: which content hash is staged for which path, and the
//! text file that keeps it between operations.
//!
//! The file holds one line per staged path, `<hash> <path>`, in ascending
//! order of hash. In reading it, every white space character separates two
//! tokens, and a line must consist of exactly two.

use vstd::prelude::*;
use vstd::string::*;
use vstd::utf8::encode_utf8;
use crate::entries::{Entry, EntryView, views, ordered, distinct_paths, by_path, put_by_path,
    lemma_by_path_determines, lemma_by_path_last, lemma_by_path_pairs};
use crate::error::Error;
use crate::text::{chars_of, find_whitespace, first_whitespace, has_whitespace, is_whitespace,
    lemma_first_whitespace, lemma_first_whitespace_is, lemma_lines_of_concat, lemma_lines_of_one,
    lines_of, split_lines, strip_cr, texts};
use crate::write::FileWrite;

verus! {

/// The entry that an index line states. Every white space character of the
/// line separates two tokens, so that two in a row have an empty token between
/// them. A line of exactly two tokens, which is one with exactly one white
/// space character, states the first as hash and the second as path. Any other
/// line states nothing.
pub open spec fn index_line(line: Seq<char>) -> Option<EntryView> {
    let k = first_whitespace(line);
    if k < line.len() && !has_whitespace(line.skip(k + 1)) {
        Some(EntryView { hash: line.take(k), path: line.skip(k + 1) })
    } else {
        None
    }
}

/// The entries that the lines of an index file state, in the order of the
/// lines; nothing where some line states no entry.
pub open spec fn index_entries(lines: Seq<Seq<char>>) -> Option<Seq<EntryView>> {
    if forall|i: int| 0 <= i < lines.len() ==> index_line(#[trigger] lines[i]) is Some {
        Some(Seq::new(lines.len(), |i: int| index_line(lines[i])->0))
    } else {
        None
    }
}

/// The mapping from path to hash that results from staging `entries` onto
/// `start`, one after the other: each entry replaces what was staged for its
/// path.
pub open spec fn staged_onto(start: Map<Seq<char>, Seq<char>>, entries: Seq<EntryView>) -> Map<
    Seq<char>,
    Seq<char>,
>
    decreases entries.len(),
{
    if entries.len() == 0 {
        start
    } else {
        staged_onto(start, entries.drop_last()).insert(entries.last().path, entries.last().hash)
    }
}

/// The mapping from path to hash that results from staging `entries` one
/// after the other, with nothing staged before.
pub open spec fn staged_by(entries: Seq<EntryView>) -> Map<Seq<char>, Seq<char>> {
    staged_onto(Map::empty(), entries)
}

/// The text of an index file that holds `entries`, a line for each.
pub open spec fn index_text(entries: Seq<EntryView>) -> Seq<char>
    decreases entries.len(),
{
    if entries.len() == 0 {
        Seq::empty()
    } else {
        index_text(entries.drop_last()) + entries.last().hash + seq![' '] + entries.last().path
            + seq!['\n']
    }
}

/// An entry that a line of the index file can hold: neither token has white
/// space in it.
pub open spec fn storable(entry: EntryView) -> bool {
    !has_whitespace(entry.hash) && !has_whitespace(entry.path)
}

/// The line of the index file for `entry`, without its line feed.
pub open spec fn entry_line(entry: EntryView) -> Seq<char> {
    entry.hash + seq![' '] + entry.path
}

/// Staging entries with different paths gives the mapping that holds them all.
pub proof fn lemma_staged_by_distinct(entries: Seq<EntryView>)
    requires
        distinct_paths(entries),
    ensures
        staged_by(entries) == by_path(entries),
    decreases entries.len(),
{
    if entries.len() == 0 {
        assert(by_path(entries) =~= Map::<Seq<char>, Seq<char>>::empty());
    } else {
        lemma_by_path_last(entries);
        lemma_staged_by_distinct(entries.drop_last());
    }
}

/// The line written for a storable entry states that entry.
pub proof fn lemma_entry_line_read(entry: EntryView)
    requires
        storable(entry),
    ensures
        index_line(entry_line(entry)) == Some(entry),
        !entry_line(entry).contains('\n'),
        strip_cr(entry_line(entry)) == entry_line(entry),
{
    let line = entry_line(entry);
    let k = entry.hash.len() as int;
    assert forall|i: int| 0 <= i < k implies !is_whitespace(#[trigger] line[i]) by {
        assert(line[i] == entry.hash[i]);
    }
    assert(line[k] == ' ');
    lemma_first_whitespace_is(line, k);
    assert(line.take(k) =~= entry.hash);
    assert(line.skip(k + 1) =~= entry.path);
    if line.contains('\n') {
        let i = choose|i: int| 0 <= i < line.len() && line[i] == '\n';
        if i < k {
            assert(is_whitespace(entry.hash[i]));
        } else if i > k {
            assert(is_whitespace(entry.path[i - k - 1]));
        }
    }
    if entry.path.len() > 0 {
        assert(line.last() == entry.path.last());
        assert(!is_whitespace(entry.path[entry.path.len() - 1]));
    }
}

/// The text of an index file is empty or ends in a line feed.
pub proof fn lemma_index_text_ends(entries: Seq<EntryView>)
    ensures
        index_text(entries).len() == 0 || index_text(entries).last() == '\n',
{
}

/// The lines of the text written for storable entries state those entries.
pub proof fn lemma_index_text_read(entries: Seq<EntryView>)
    requires
        forall|i: int| 0 <= i < entries.len() ==> storable(#[trigger] entries[i]),
    ensures
        lines_of(index_text(entries)) == Seq::new(entries.len(), |i: int| entry_line(entries[i])),
        index_entries(lines_of(index_text(entries))) == Some(entries),
    decreases entries.len(),
{
    let lines = Seq::new(entries.len(), |i: int| entry_line(entries[i]));
    if entries.len() == 0 {
        assert(lines_of(index_text(entries)) =~= lines);
    } else {
        let init = entries.drop_last();
        let last = entries.last();
        assert forall|i: int| 0 <= i < init.len() implies storable(#[trigger] init[i]) by {
            assert(storable(entries[i]));
        }
        lemma_index_text_read(init);
        lemma_index_text_ends(init);
        assert(storable(entries[entries.len() - 1]));
        lemma_entry_line_read(last);
        let line = entry_line(last);
        assert(index_text(entries) =~= index_text(init) + line.push('\n'));
        lemma_lines_of_concat(index_text(init), line.push('\n'));
        lemma_lines_of_one(line);
        assert(lines_of(index_text(entries)) =~= lines);
    }
    assert forall|i: int| 0 <= i < lines.len() implies index_line(#[trigger] lines[i]) == Some(
        entries[i],
    ) by {
        lemma_entry_line_read(entries[i]);
    }
    assert(index_entries(lines)->0 =~= entries);
}

/// Writing the index out and reading the file back restores what was staged,
/// provided that every staged entry is storable: the text that `write` gives
/// for the index is read by `parse` as the same mapping from path to hash.
pub proof fn lemma_index_round_trip(index: Index)
    requires
        index.wf(),
        forall|i: int| 0 <= i < index.entries().len() ==> storable(#[trigger] index.entries()[i]),
    ensures
        index_entries(lines_of(index_text(index.entries()))) matches Some(stated) && staged_by(
            stated,
        ) == index@,
{
    lemma_index_text_read(index.entries());
    lemma_staged_by_distinct(index.entries());
}

/// What is staged by a sequence of entries was staged by one of them.
pub proof fn lemma_staged_by_member(entries: Seq<EntryView>, path: Seq<char>, hash: Seq<char>)
    requires
        staged_by(entries).contains_pair(path, hash),
    ensures
        entries.contains(EntryView { hash, path }),
    decreases entries.len(),
{
    if entries.len() > 0 {
        let last = entries.last();
        if last.path == path {
            assert(entries[entries.len() - 1] == EntryView { hash, path });
        } else {
            lemma_staged_by_member(entries.drop_last(), path, hash);
            let i = choose|i: int|
                0 <= i < entries.drop_last().len() && entries.drop_last()[i] == EntryView {
                    hash,
                    path,
                };
            assert(entries[i] == EntryView { hash, path });
        }
    }
}

/// The entry that a line states is storable.
pub proof fn lemma_index_line_storable(line: Seq<char>)
    requires
        index_line(line) is Some,
    ensures
        storable(index_line(line)->0),
{
    let entry = index_line(line)->0;
    let k = first_whitespace(line);
    lemma_first_whitespace(line);
    if has_whitespace(entry.hash) {
        let i = choose|i: int| 0 <= i < entry.hash.len() && is_whitespace(#[trigger] entry.hash[i]);
        assert(entry.hash[i] == line[i]);
    }
}

/// Index round trip, from the file: an index that was read from a file, and
/// written out again, is read back as the same mapping.
pub proof fn lemma_read_index_round_trip(text: Seq<char>, index: Index)
    requires
        index.wf(),
        index_entries(lines_of(text)) matches Some(stated) && index@ == staged_by(stated),
    ensures
        index_entries(lines_of(index_text(index.entries()))) matches Some(again) && staged_by(
            again,
        ) == index@,
{
    let lines = lines_of(text);
    let stated = index_entries(lines)->0;
    let entries = index.entries();
    lemma_by_path_pairs(entries);
    assert forall|j: int| 0 <= j < entries.len() implies storable(#[trigger] entries[j]) by {
        let e = entries[j];
        assert(entries.contains(e));
        assert(by_path(entries).contains_pair(e.path, e.hash));
        lemma_staged_by_member(stated, e.path, e.hash);
        let i = choose|i: int| 0 <= i < stated.len() && stated[i] == e;
        assert(index_line(lines[i]) is Some);
        assert(stated[i] == index_line(lines[i])->0);
        lemma_index_line_storable(lines[i]);
    }
    lemma_index_round_trip(index);
}

/// The index file is determined by what is staged: two indexes with the same
/// mapping from path to hash are written out as the same text.
pub proof fn lemma_index_file_determined(a: Index, b: Index)
    requires
        a.wf(),
        b.wf(),
        a@ == b@,
    ensures
        a.entries() == b.entries(),
        index_text(a.entries()) == index_text(b.entries()),
{
    lemma_by_path_determines(a.entries(), b.entries());
}

/// Reads one line of an index file.
pub fn read_index_line(line: &str) -> (entry: Option<Entry>)
    ensures
        match index_line(line@) {
            Some(stated) => entry matches Some(e) && e@ == stated,
            None => entry is None,
        },
{
    let chars = chars_of(line);
    let n = chars.len();
    let k = find_whitespace(&chars, 0);
    proof {
        assert(chars@.skip(0) =~= line@);
    }
    if k >= n {
        return None;
    }
    let second = find_whitespace(&chars, k + 1);
    proof {
        lemma_first_whitespace(line@.skip(k + 1));
    }
    if second < n {
        return None;
    }
    let hash = String::from_str(line.substring_char(0, k));
    let path = String::from_str(line.substring_char(k + 1, n));
    proof {
        assert(line@.subrange(0, k as int) =~= line@.take(k as int));
        assert(line@.subrange(k + 1, n as int) =~= line@.skip(k + 1));
    }
    Some(Entry { hash, path })
}

/// The staging index of a repository.
#[derive(Debug)]
pub struct Index {
    path: String,
    hashtree: Vec<Entry>,
}

impl View for Index {
    type V = Map<Seq<char>, Seq<char>>;

    /// What is staged: a mapping from path to content hash.
    open spec fn view(&self) -> Map<Seq<char>, Seq<char>> {
        by_path(self.entries())
    }
}

impl Index {
    /// The staged entries in the order in which they are written out: by
    /// hash, and by path among equal hashes.
    pub closed spec fn entries(&self) -> Seq<EntryView> {
        views(self.hashtree@)
    }

    /// Where the index file lies.
    pub closed spec fn location(&self) -> Seq<char> {
        self.path@
    }

    /// The entries are in order and no path is staged twice.
    #[verifier::type_invariant]
    pub open spec fn wf(&self) -> bool {
        ordered(self.entries()) && distinct_paths(self.entries())
    }

    /// An index with nothing staged, kept in the file at `path`.
    pub fn new(path: String) -> (index: Index)
        ensures
            index.wf(),
            index.entries() == Seq::<EntryView>::empty(),
            index.location() == path@,
    {
        let index = Index { path, hashtree: Vec::new() };
        assert(index.entries() =~= Seq::<EntryView>::empty());
        index
    }

    /// Reads the text of an index file kept at `path`. Each line must state an
    /// entry; the entries are staged in the order of the lines.
    pub fn parse(path: String, text: &str) -> (result: Result<Index, Error>)
        ensures
            match index_entries(lines_of(text@)) {
                Some(stated) => result matches Ok(index) && index.wf() && index@ == staged_by(
                    stated,
                ) && index.location() == path@,
                None => result matches Err(Error::InvalidIndex),
            },
    {
        let lines = split_lines(text);
        let ghost all = lines_of(text@);
        let mut hashtree: Vec<Entry> = Vec::new();
        let mut i: usize = 0;
        let ghost mut stated: Seq<EntryView> = Seq::empty();
        proof {
            assert(by_path(views(hashtree@)) =~= staged_by(stated));
        }
        while i < lines.len()
            invariant
                i <= lines.len(),
                texts(lines@) == all,
                all == lines_of(text@),
                ordered(views(hashtree@)),
                distinct_paths(views(hashtree@)),
                stated.len() == i,
                forall|j: int| 0 <= j < i ==> index_line(#[trigger] all[j]) == Some(stated[j]),
                by_path(views(hashtree@)) == staged_by(stated),
            decreases lines.len() - i,
        {
            assert(all[i as int] == lines[i as int]@);
            match read_index_line(lines[i].as_str()) {
                Some(entry) => {
                    proof {
                        let next = stated.push(entry@);
                        assert(next.drop_last() =~= stated);
                        stated = next;
                    }
                    put_by_path(&mut hashtree, entry.path, entry.hash);
                },
                None => {
                    assert(index_line(all[i as int]) is None);
                    return Err(Error::InvalidIndex);
                },
            }
            i += 1;
        }
        proof {
            assert(index_entries(all) is Some);
            assert(index_entries(all)->0 =~= stated);
        }
        Ok(Index { path, hashtree })
    }

    /// Where the index file lies.
    pub fn path(&self) -> (path: &String)
        ensures
            path@ == self.location(),
    {
        &self.path
    }

    /// The staged entries, ascending by hash and then by path.
    pub fn hashtree(&self) -> (entries: &Vec<Entry>)
        ensures
            views(entries@) == self.entries(),
            self.wf(),
    {
        proof {
            use_type_invariant(self);
        }
        &self.hashtree
    }

    /// Stages `hash` for `path`, in place of whatever was staged for it.
    pub fn update(&mut self, path: &str, hash: &str)
        ensures
            final(self).wf(),
            final(self)@ == old(self)@.insert(path@, hash@),
            final(self).location() == old(self).location(),
    {
        proof {
            use_type_invariant(&*self);
        }
        let mut entries: Vec<Entry> = Vec::new();
        proof {
            assert(views(entries@) =~= Seq::<EntryView>::empty());
        }
        core::mem::swap(&mut self.hashtree, &mut entries);
        put_by_path(&mut entries, String::from_str(path), String::from_str(hash));
        self.hashtree = entries;
    }

    /// The text of the index file for what is staged.
    pub fn render(&self) -> (text: String)
        ensures
            text@ == index_text(self.entries()),
    {
        let mut text = String::new();
        let mut i: usize = 0;
        proof {
            reveal_strlit(" ");
            reveal_strlit("\n");
            assert(self.entries().take(0) =~= Seq::<EntryView>::empty());
        }
        while i < self.hashtree.len()
            invariant
                i <= self.hashtree.len(),
                " "@ == seq![' '],
                "\n"@ == seq!['\n'],
                text@ == index_text(self.entries().take(i as int)),
            decreases self.hashtree.len() - i,
        {
            proof {
                let next = self.entries().take(i + 1);
                assert(next.drop_last() =~= self.entries().take(i as int));
                assert(next.last() == self.hashtree[i as int]@);
            }
            text.append(self.hashtree[i].hash.as_str());
            text.append(" ");
            text.append(self.hashtree[i].path.as_str());
            text.append("\n");
            i += 1;
        }
        proof {
            assert(self.entries().take(i as int) =~= self.entries());
        }
        text
    }

    /// The index file as it should stand on disk for what is staged.
    pub fn write(&self) -> (file: FileWrite)
        ensures
            file.path@ == self.location(),
            file.data@ == encode_utf8(index_text(self.entries())),
    {
        let text = self.render();
        FileWrite { path: self.path.clone(), data: text.as_str().as_bytes_vec() }
    }

    /// Unstages everything, and gives the index file as it should then stand
    /// on disk: empty.
    pub fn clear(&mut self) -> (file: FileWrite)
        ensures
            final(self).wf(),
            final(self).entries() == Seq::<EntryView>::empty(),
            final(self).location() == old(self).location(),
            file.path@ == old(self).location(),
            file.data@ == Seq::<u8>::empty(),
    {
        self.hashtree = Vec::new();
        assert(self.entries() =~= Seq::<EntryView>::empty());
        FileWrite { path: self.path.clone(), data: Vec::new() }
    }
}

} // verus!
