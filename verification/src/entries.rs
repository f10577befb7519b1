//! Hash/path pairs, kept as a vector in ascending order. The staging index and
//! the manifest of a commit are both such vectors; they differ in which half of
//! a pair is the key.

use vstd::prelude::*;
use vstd::string::*;
use crate::text::{precedes, text_order, same_text, TextOrder,
    lemma_precedes_total, lemma_precedes_transitive, lemma_precedes_irreflexive,
    lemma_precedes_asymmetric};

verus! {

/// One tracked file: the hash of its content and its path in the repository.
#[derive(Debug)]
pub struct Entry {
    pub hash: String,
    pub path: String,
}

/// An entry as plain text.
pub struct EntryView {
    pub hash: Seq<char>,
    pub path: Seq<char>,
}

impl View for Entry {
    type V = EntryView;

    open spec fn view(&self) -> EntryView {
        EntryView { hash: self.hash@, path: self.path@ }
    }
}

impl Clone for Entry {
    fn clone(&self) -> (copy: Entry)
        ensures
            copy@ == self@,
    {
        Entry { hash: self.hash.clone(), path: self.path.clone() }
    }
}

/// The views of a vector of entries, in order.
pub open spec fn views(entries: Seq<Entry>) -> Seq<EntryView> {
    Seq::new(entries.len(), |i: int| entries[i]@)
}

/// Order of entries: by hash, and by path where the hashes agree.
pub open spec fn entry_precedes(a: EntryView, b: EntryView) -> bool {
    precedes(a.hash, b.hash) || (a.hash == b.hash && precedes(a.path, b.path))
}

/// Strictly ascending: every entry precedes all that follow it.
pub open spec fn ordered(s: Seq<EntryView>) -> bool {
    forall|i: int, j: int| 0 <= i < j < s.len() ==> entry_precedes(#[trigger] s[i], #[trigger] s[j])
}

/// No hash occurs in two entries.
pub open spec fn distinct_hashes(s: Seq<EntryView>) -> bool {
    forall|i: int, j: int| 0 <= i < j < s.len() ==> (#[trigger] s[i]).hash != (#[trigger] s[j]).hash
}

/// No path occurs in two entries.
pub open spec fn distinct_paths(s: Seq<EntryView>) -> bool {
    forall|i: int, j: int| 0 <= i < j < s.len() ==> (#[trigger] s[i]).path != (#[trigger] s[j]).path
}

/// Some entry of `s` has the hash `hash`.
pub open spec fn has_hash(s: Seq<EntryView>, hash: Seq<char>) -> bool {
    exists|i: int| 0 <= i < s.len() && (#[trigger] s[i]).hash == hash
}

/// Some entry of `s` has the path `path`.
pub open spec fn has_path(s: Seq<EntryView>, path: Seq<char>) -> bool {
    exists|i: int| 0 <= i < s.len() && (#[trigger] s[i]).path == path
}

/// The entries read as a mapping from hash to path.
pub open spec fn by_hash(s: Seq<EntryView>) -> Map<Seq<char>, Seq<char>> {
    Map::new(
        |hash: Seq<char>| has_hash(s, hash),
        |hash: Seq<char>| s[choose|i: int| 0 <= i < s.len() && (#[trigger] s[i]).hash == hash].path,
    )
}

/// The entries read as a mapping from path to hash.
pub open spec fn by_path(s: Seq<EntryView>) -> Map<Seq<char>, Seq<char>> {
    Map::new(
        |path: Seq<char>| has_path(s, path),
        |path: Seq<char>| s[choose|i: int| 0 <= i < s.len() && (#[trigger] s[i]).path == path].hash,
    )
}

/// With distinct hashes, the mapping holds exactly the pairs of the entries.
pub proof fn lemma_by_hash_pairs(s: Seq<EntryView>)
    requires
        distinct_hashes(s),
    ensures
        forall|hash: Seq<char>, path: Seq<char>| #[trigger]
            by_hash(s).contains_pair(hash, path) <==> s.contains(EntryView { hash, path }),
{
    assert forall|hash: Seq<char>, path: Seq<char>| #[trigger]
        by_hash(s).contains_pair(hash, path) <==> s.contains(EntryView { hash, path }) by {
        let e = EntryView { hash, path };
        if s.contains(e) {
            let i = choose|i: int| 0 <= i < s.len() && s[i] == e;
            assert(s[i].hash == hash);
            let c = choose|c: int| 0 <= c < s.len() && (#[trigger] s[c]).hash == hash;
            assert(c == i);
        }
        if by_hash(s).contains_pair(hash, path) {
            let c = choose|c: int| 0 <= c < s.len() && (#[trigger] s[c]).hash == hash;
            assert(s[c] == e);
        }
    }
}

/// With distinct paths, the mapping holds exactly the pairs of the entries.
pub proof fn lemma_by_path_pairs(s: Seq<EntryView>)
    requires
        distinct_paths(s),
    ensures
        forall|path: Seq<char>, hash: Seq<char>| #[trigger]
            by_path(s).contains_pair(path, hash) <==> s.contains(EntryView { hash, path }),
{
    assert forall|path: Seq<char>, hash: Seq<char>| #[trigger]
        by_path(s).contains_pair(path, hash) <==> s.contains(EntryView { hash, path }) by {
        let e = EntryView { hash, path };
        if s.contains(e) {
            let i = choose|i: int| 0 <= i < s.len() && s[i] == e;
            assert(s[i].path == path);
            let c = choose|c: int| 0 <= c < s.len() && (#[trigger] s[c]).path == path;
            assert(c == i);
        }
        if by_path(s).contains_pair(path, hash) {
            let c = choose|c: int| 0 <= c < s.len() && (#[trigger] s[c]).path == path;
            assert(s[c] == e);
        }
    }
}

/// Two ascending sequences with distinct hashes that give the same mapping from
/// hash to path are the same sequence.
pub proof fn lemma_by_hash_determines(a: Seq<EntryView>, b: Seq<EntryView>)
    requires
        ordered(a),
        ordered(b),
        distinct_hashes(a),
        distinct_hashes(b),
        by_hash(a) == by_hash(b),
    ensures
        a == b,
{
    lemma_by_hash_pairs(a);
    lemma_by_hash_pairs(b);
    assert forall|e: EntryView| a.contains(e) <==> b.contains(e) by {
        assert(by_hash(a).contains_pair(e.hash, e.path) <==> a.contains(e));
        assert(by_hash(b).contains_pair(e.hash, e.path) <==> b.contains(e));
    }
    lemma_ordered_unique(a, b);
}

/// Two ascending sequences with distinct paths that give the same mapping from
/// path to hash are the same sequence.
pub proof fn lemma_by_path_determines(a: Seq<EntryView>, b: Seq<EntryView>)
    requires
        ordered(a),
        ordered(b),
        distinct_paths(a),
        distinct_paths(b),
        by_path(a) == by_path(b),
    ensures
        a == b,
{
    lemma_by_path_pairs(a);
    lemma_by_path_pairs(b);
    assert forall|e: EntryView| a.contains(e) <==> b.contains(e) by {
        assert(by_path(a).contains_pair(e.path, e.hash) <==> a.contains(e));
        assert(by_path(b).contains_pair(e.path, e.hash) <==> b.contains(e));
    }
    lemma_ordered_unique(a, b);
}

/// The entries of a manifest in the order in which a commit keeps them: the
/// ascending sequence that holds each hash once and gives `manifest`.
pub open spec fn listing(manifest: Map<Seq<char>, Seq<char>>) -> Seq<EntryView> {
    choose|s: Seq<EntryView>| ordered(s) && distinct_hashes(s) && by_hash(s) == manifest
}

/// An ascending sequence with distinct hashes is the listing of its mapping.
pub proof fn lemma_listing(s: Seq<EntryView>)
    requires
        ordered(s),
        distinct_hashes(s),
    ensures
        listing(by_hash(s)) == s,
{
    lemma_by_hash_determines(listing(by_hash(s)), s);
}

/// With distinct hashes, the mapping of a sequence is that of all but its last
/// entry, with the last entry put in.
pub proof fn lemma_by_hash_last(s: Seq<EntryView>)
    requires
        s.len() > 0,
        distinct_hashes(s),
    ensures
        distinct_hashes(s.drop_last()),
        by_hash(s) == by_hash(s.drop_last()).insert(s.last().hash, s.last().path),
{
    let init = s.drop_last();
    let last = s.last();
    assert(distinct_hashes(init)) by {
        assert forall|i: int, j: int| 0 <= i < j < init.len() implies (#[trigger] init[i]).hash
            != (#[trigger] init[j]).hash by {
            assert(s[i].hash != s[j].hash);
        }
    }
    lemma_by_hash_pairs(init);
    lemma_by_hash_pairs(s);
    let target = by_hash(init).insert(last.hash, last.path);
    assert forall|k: Seq<char>, v: Seq<char>| by_hash(s).contains_pair(k, v)
        <==> target.contains_pair(k, v) by {
        let e = EntryView { hash: k, path: v };
        assert(by_hash(s).contains_pair(k, v) <==> s.contains(e));
        assert(by_hash(init).contains_pair(k, v) <==> init.contains(e));
        if s.contains(e) {
            let i = choose|i: int| 0 <= i < s.len() && s[i] == e;
            if i < init.len() {
                assert(init[i] == e);
                assert(s[i].hash != s[s.len() - 1].hash);
            }
        }
        if init.contains(e) {
            let i = choose|i: int| 0 <= i < init.len() && init[i] == e;
            assert(s[i] == e);
            assert(s[i].hash != s[s.len() - 1].hash);
        }
        if e == last {
            assert(s[s.len() - 1] == e);
        }
    }
    lemma_same_pairs(by_hash(s), target);
}

/// With distinct paths, the mapping of a sequence is that of all but its last
/// entry, with the last entry put in.
pub proof fn lemma_by_path_last(s: Seq<EntryView>)
    requires
        s.len() > 0,
        distinct_paths(s),
    ensures
        distinct_paths(s.drop_last()),
        by_path(s) == by_path(s.drop_last()).insert(s.last().path, s.last().hash),
{
    let init = s.drop_last();
    let last = s.last();
    assert(distinct_paths(init)) by {
        assert forall|i: int, j: int| 0 <= i < j < init.len() implies (#[trigger] init[i]).path
            != (#[trigger] init[j]).path by {
            assert(s[i].path != s[j].path);
        }
    }
    lemma_by_path_pairs(init);
    lemma_by_path_pairs(s);
    let target = by_path(init).insert(last.path, last.hash);
    assert forall|k: Seq<char>, v: Seq<char>| by_path(s).contains_pair(k, v)
        <==> target.contains_pair(k, v) by {
        let e = EntryView { hash: v, path: k };
        assert(by_path(s).contains_pair(k, v) <==> s.contains(e));
        assert(by_path(init).contains_pair(k, v) <==> init.contains(e));
        if s.contains(e) {
            let i = choose|i: int| 0 <= i < s.len() && s[i] == e;
            if i < init.len() {
                assert(init[i] == e);
                assert(s[i].path != s[s.len() - 1].path);
            }
        }
        if init.contains(e) {
            let i = choose|i: int| 0 <= i < init.len() && init[i] == e;
            assert(s[i] == e);
            assert(s[i].path != s[s.len() - 1].path);
        }
        if e == last {
            assert(s[s.len() - 1] == e);
        }
    }
    lemma_same_pairs(by_path(s), target);
}

/// Two mappings that hold the same pairs are the same mapping.
pub proof fn lemma_same_pairs(a: Map<Seq<char>, Seq<char>>, b: Map<Seq<char>, Seq<char>>)
    requires
        forall|k: Seq<char>, v: Seq<char>| a.contains_pair(k, v) <==> b.contains_pair(k, v),
    ensures
        a == b,
{
    assert forall|k: Seq<char>| a.dom().contains(k) <==> b.dom().contains(k) by {
        if a.dom().contains(k) {
            assert(a.contains_pair(k, a[k]));
        }
        if b.dom().contains(k) {
            assert(b.contains_pair(k, b[k]));
        }
    }
    assert forall|k: Seq<char>| a.dom().contains(k) implies a[k] == b[k] by {
        assert(a.contains_pair(k, a[k]));
    }
    assert(a =~= b);
}

/// Of two different entries, one precedes the other.
pub proof fn lemma_entry_total(a: EntryView, b: EntryView)
    ensures
        a == b || entry_precedes(a, b) || entry_precedes(b, a),
{
    lemma_precedes_total(a.hash, b.hash);
    lemma_precedes_total(a.path, b.path);
}

/// The order of entries is transitive.
pub proof fn lemma_entry_transitive(a: EntryView, b: EntryView, c: EntryView)
    requires
        entry_precedes(a, b),
        entry_precedes(b, c),
    ensures
        entry_precedes(a, c),
{
    if precedes(a.hash, b.hash) && precedes(b.hash, c.hash) {
        lemma_precedes_transitive(a.hash, b.hash, c.hash);
    }
    if a.hash == b.hash && b.hash == c.hash {
        lemma_precedes_irreflexive(a.hash);
        lemma_precedes_transitive(a.path, b.path, c.path);
    }
}

/// No entry precedes itself, and the order never holds both ways.
pub proof fn lemma_entry_asymmetric(a: EntryView, b: EntryView)
    ensures
        !entry_precedes(a, a),
        !(entry_precedes(a, b) && entry_precedes(b, a)),
{
    lemma_precedes_irreflexive(a.hash);
    lemma_precedes_irreflexive(a.path);
    lemma_precedes_irreflexive(b.hash);
    lemma_precedes_asymmetric(a.hash, b.hash);
    lemma_precedes_asymmetric(a.path, b.path);
}

/// Two ascending sequences with the same members are the same sequence.
pub proof fn lemma_ordered_unique(a: Seq<EntryView>, b: Seq<EntryView>)
    requires
        ordered(a),
        ordered(b),
        forall|e: EntryView| a.contains(e) <==> b.contains(e),
    ensures
        a == b,
    decreases a.len(),
{
    if a.len() == 0 {
        if b.len() > 0 {
            assert(b.contains(b[0]));
        }
        assert(a =~= b);
    } else {
        assert(a.contains(a[0]));
        assert(b.len() > 0);
        assert(b.contains(b[0]));
        // The least member stands first in both.
        let ia = choose|i: int| 0 <= i < a.len() && a[i] == b[0];
        let ib = choose|i: int| 0 <= i < b.len() && b[i] == a[0];
        lemma_entry_asymmetric(a[0], b[0]);
        assert(a[0] == b[0]) by {
            if ia > 0 {
                assert(entry_precedes(a[0], a[ia]));
            }
            if ib > 0 {
                assert(entry_precedes(b[0], b[ib]));
            }
        }
        let ra = a.drop_first();
        let rb = b.drop_first();
        assert(ordered(ra)) by {
            assert forall|i: int, j: int| 0 <= i < j < ra.len() implies entry_precedes(
                #[trigger] ra[i],
                #[trigger] ra[j],
            ) by {
                assert(entry_precedes(a[i + 1], a[j + 1]));
            }
        }
        assert(ordered(rb)) by {
            assert forall|i: int, j: int| 0 <= i < j < rb.len() implies entry_precedes(
                #[trigger] rb[i],
                #[trigger] rb[j],
            ) by {
                assert(entry_precedes(b[i + 1], b[j + 1]));
            }
        }
        assert forall|e: EntryView| ra.contains(e) <==> rb.contains(e) by {
            lemma_entry_asymmetric(e, e);
            if ra.contains(e) {
                let i = choose|i: int| 0 <= i < ra.len() && ra[i] == e;
                assert(a[i + 1] == e);
                assert(entry_precedes(a[0], a[i + 1]));
                assert(a.contains(e));
                let j = choose|j: int| 0 <= j < b.len() && b[j] == e;
                assert(j > 0);
                assert(rb[j - 1] == e);
            }
            if rb.contains(e) {
                let i = choose|i: int| 0 <= i < rb.len() && rb[i] == e;
                assert(b[i + 1] == e);
                assert(entry_precedes(b[0], b[i + 1]));
                assert(b.contains(e));
                let j = choose|j: int| 0 <= j < a.len() && a[j] == e;
                assert(j > 0);
                assert(ra[j - 1] == e);
            }
        }
        lemma_ordered_unique(ra, rb);
        assert(a =~= seq![a[0]] + ra);
        assert(b =~= seq![b[0]] + rb);
    }
}

/// Where `a` stands relative to `b` in the order of entries.
fn entry_order(a: &Entry, b: &Entry) -> (order: TextOrder)
    ensures
        order == TextOrder::Before <==> entry_precedes(a@, b@),
        order == TextOrder::Same <==> a@ == b@,
        order == TextOrder::After <==> entry_precedes(b@, a@),
{
    proof {
        lemma_entry_asymmetric(a@, b@);
        lemma_entry_asymmetric(b@, a@);
        lemma_entry_total(a@, b@);
    }
    let hashes = text_order(a.hash.as_str(), b.hash.as_str());
    match hashes {
        TextOrder::Same => text_order(a.path.as_str(), b.path.as_str()),
        _ => hashes,
    }
}

/// A copy of `entries`.
pub fn clone_entries(entries: &Vec<Entry>) -> (copy: Vec<Entry>)
    ensures
        views(copy@) == views(entries@),
{
    let mut copy: Vec<Entry> = Vec::new();
    let mut i: usize = 0;
    while i < entries.len()
        invariant
            i <= entries.len(),
            copy.len() == i,
            forall|j: int| 0 <= j < i ==> copy[j]@ == entries[j]@,
        decreases entries.len() - i,
    {
        copy.push(entries[i].clone());
        i += 1;
    }
    assert(views(copy@) =~= views(entries@));
    copy
}

/// Position of the first entry whose hash is `hash`.
pub fn find_hash(entries: &Vec<Entry>, hash: &str) -> (found: Option<usize>)
    ensures
        found is Some <==> has_hash(views(entries@), hash@),
        found matches Some(i) ==> i < entries.len() && entries[i as int].hash@ == hash@,
{
    let mut i: usize = 0;
    while i < entries.len()
        invariant
            i <= entries.len(),
            forall|j: int| 0 <= j < i ==> (#[trigger] views(entries@)[j]).hash != hash@,
        decreases entries.len() - i,
    {
        if same_text(entries[i].hash.as_str(), hash) {
            assert(views(entries@)[i as int].hash == hash@);
            return Some(i);
        }
        i += 1;
    }
    None
}

/// Position of the first entry whose path is `path`.
pub fn find_path(entries: &Vec<Entry>, path: &str) -> (found: Option<usize>)
    ensures
        found is Some <==> has_path(views(entries@), path@),
        found matches Some(i) ==> i < entries.len() && entries[i as int].path@ == path@,
{
    let mut i: usize = 0;
    while i < entries.len()
        invariant
            i <= entries.len(),
            forall|j: int| 0 <= j < i ==> (#[trigger] views(entries@)[j]).path != path@,
        decreases entries.len() - i,
    {
        if same_text(entries[i].path.as_str(), path) {
            assert(views(entries@)[i as int].path == path@);
            return Some(i);
        }
        i += 1;
    }
    None
}

/// Takes the entry at `i` out of an ascending vector.
fn remove_entry(entries: &mut Vec<Entry>, i: usize)
    requires
        i < old(entries).len(),
        ordered(views(old(entries)@)),
    ensures
        ordered(views(final(entries)@)),
        views(final(entries)@) == views(old(entries)@).remove(i as int),
        forall|e: EntryView|
            views(final(entries)@).contains(e) <==> views(old(entries)@).contains(e) && e
                != old(entries)[i as int]@,
{
    let ghost before = views(entries@);
    entries.remove(i);
    proof {
        let after = views(entries@);
        assert(after =~= before.remove(i as int));
        assert forall|a: int, b: int| 0 <= a < b < after.len() implies entry_precedes(
            #[trigger] after[a],
            #[trigger] after[b],
        ) by {
            let a0 = if a < i { a } else { a + 1 };
            let b0 = if b < i { b } else { b + 1 };
            assert(entry_precedes(before[a0], before[b0]));
        }
        assert forall|e: EntryView|
            after.contains(e) <==> before.contains(e) && e != before[i as int] by {
            lemma_entry_asymmetric(e, e);
            if after.contains(e) {
                let a = choose|a: int| 0 <= a < after.len() && after[a] == e;
                let a0 = if a < i { a } else { a + 1 };
                assert(before[a0] == e);
                if a0 < i {
                    assert(entry_precedes(before[a0], before[i as int]));
                } else {
                    assert(entry_precedes(before[i as int], before[a0]));
                }
            }
            if before.contains(e) && e != before[i as int] {
                let a0 = choose|a: int| 0 <= a < before.len() && before[a] == e;
                let a = if a0 < i { a0 } else { a0 - 1 };
                assert(after[a] == e);
            }
        }
    }
}

/// Puts `entry` into an ascending vector that does not hold it, at its place.
fn insert_entry(entries: &mut Vec<Entry>, entry: Entry)
    requires
        ordered(views(old(entries)@)),
        !views(old(entries)@).contains(entry@),
    ensures
        ordered(views(final(entries)@)),
        forall|e: EntryView|
            views(final(entries)@).contains(e) <==> views(old(entries)@).contains(e) || e
                == entry@,
{
    let ghost before = views(entries@);
    let mut k: usize = 0;
    while k < entries.len() && entry_order(&entries[k], &entry) == TextOrder::Before
        invariant
            k <= entries.len(),
            views(entries@) == before,
            forall|j: int| 0 <= j < k ==> entry_precedes(#[trigger] before[j], entry@),
        decreases entries.len() - k,
    {
        assert(before[k as int] == entries[k as int]@);
        k += 1;
    }
    proof {
        if k < entries.len() {
            assert(before[k as int] == entries[k as int]@);
            assert(before.contains(before[k as int]));
            assert(entry_precedes(entry@, before[k as int]));
        }
    }
    let ghost new = entry@;
    entries.insert(k, entry);
    proof {
        let after = views(entries@);
        assert(after =~= before.insert(k as int, new));
        assert forall|a: int, b: int| 0 <= a < b < after.len() implies entry_precedes(
            #[trigger] after[a],
            #[trigger] after[b],
        ) by {
            let a0 = if a < k { a } else { a - 1 };
            let b0 = if b < k { b } else { b - 1 };
            if a == k {
                if b0 > k {
                    assert(entry_precedes(before[k as int], before[b0]));
                    lemma_entry_transitive(new, before[k as int], before[b0]);
                }
            } else if b == k {
                assert(entry_precedes(before[a0], new));
            } else {
                assert(entry_precedes(before[a0], before[b0]));
            }
        }
        assert forall|e: EntryView| after.contains(e) <==> before.contains(e) || e == new by {
            if after.contains(e) {
                let a = choose|a: int| 0 <= a < after.len() && after[a] == e;
                if a != k {
                    let a0 = if a < k { a } else { a - 1 };
                    assert(before[a0] == e);
                }
            }
            if before.contains(e) {
                let a0 = choose|a: int| 0 <= a < before.len() && before[a] == e;
                let a = if a0 < k { a0 } else { a0 + 1 };
                assert(after[a] == e);
            }
            if e == new {
                assert(after[k as int] == e);
            }
        }
    }
}

/// Sets the path recorded for `hash`, in a vector that holds each hash once.
pub(crate) fn put_by_hash(entries: &mut Vec<Entry>, hash: String, path: String)
    requires
        ordered(views(old(entries)@)),
        distinct_hashes(views(old(entries)@)),
    ensures
        ordered(views(final(entries)@)),
        distinct_hashes(views(final(entries)@)),
        by_hash(views(final(entries)@)) == by_hash(views(old(entries)@)).insert(hash@, path@),
{
    let ghost before = views(entries@);
    let found = find_hash(entries, hash.as_str());
    if let Some(i) = found {
        remove_entry(entries, i);
    }
    let ghost between = views(entries@);
    let ghost new = EntryView { hash: hash@, path: path@ };
    proof {
        assert forall|e: EntryView| between.contains(e) <==> before.contains(e) && e.hash
            != hash@ by {
            if before.contains(e) {
                let a = choose|a: int| 0 <= a < before.len() && before[a] == e;
                assert(before[a].hash == e.hash);
                if let Some(i) = found {
                    assert(before[i as int].hash == hash@);
                    if a < i {
                        assert(before[a].hash != before[i as int].hash);
                    } else if i < a {
                        assert(before[i as int].hash != before[a].hash);
                    }
                }
            }
        }
        assert(!between.contains(new));
    }
    insert_entry(entries, Entry { hash, path });
    proof {
        let after = views(entries@);
        assert(distinct_hashes(after)) by {
            assert forall|a: int, b: int| 0 <= a < b < after.len() implies (#[trigger] after[a]).hash
                != (#[trigger] after[b]).hash by {
                assert(after.contains(after[a]));
                assert(after.contains(after[b]));
                lemma_entry_asymmetric(after[a], after[b]);
                assert(entry_precedes(after[a], after[b]));
                if after[a].hash == after[b].hash {
                    if after[a] != new && after[b] != new {
                        let a0 = choose|i: int| 0 <= i < before.len() && before[i] == after[a];
                        let b0 = choose|i: int| 0 <= i < before.len() && before[i] == after[b];
                        if a0 < b0 {
                            assert(before[a0].hash != before[b0].hash);
                        } else if b0 < a0 {
                            assert(before[b0].hash != before[a0].hash);
                        }
                    }
                }
            }
        }
        lemma_by_hash_pairs(before);
        lemma_by_hash_pairs(after);
        let target = by_hash(before).insert(hash@, path@);
        assert forall|k: Seq<char>, v: Seq<char>| by_hash(after).contains_pair(k, v)
            <==> target.contains_pair(k, v) by {
            let e = EntryView { hash: k, path: v };
            assert(by_hash(after).contains_pair(k, v) <==> after.contains(e));
            assert(by_hash(before).contains_pair(k, v) <==> before.contains(e));
        }
        lemma_same_pairs(by_hash(after), target);
    }
}

/// Sets the hash recorded for `path`, in a vector that holds each path once.
pub(crate) fn put_by_path(entries: &mut Vec<Entry>, path: String, hash: String)
    requires
        ordered(views(old(entries)@)),
        distinct_paths(views(old(entries)@)),
    ensures
        ordered(views(final(entries)@)),
        distinct_paths(views(final(entries)@)),
        by_path(views(final(entries)@)) == by_path(views(old(entries)@)).insert(path@, hash@),
{
    let ghost before = views(entries@);
    let found = find_path(entries, path.as_str());
    if let Some(i) = found {
        remove_entry(entries, i);
    }
    let ghost between = views(entries@);
    let ghost new = EntryView { hash: hash@, path: path@ };
    proof {
        assert forall|e: EntryView| between.contains(e) <==> before.contains(e) && e.path
            != path@ by {
            if before.contains(e) {
                let a = choose|a: int| 0 <= a < before.len() && before[a] == e;
                assert(before[a].path == e.path);
                if let Some(i) = found {
                    assert(before[i as int].path == path@);
                    if a < i {
                        assert(before[a].path != before[i as int].path);
                    } else if i < a {
                        assert(before[i as int].path != before[a].path);
                    }
                }
            }
        }
        assert(!between.contains(new));
    }
    insert_entry(entries, Entry { hash, path });
    proof {
        let after = views(entries@);
        assert(distinct_paths(after)) by {
            assert forall|a: int, b: int| 0 <= a < b < after.len() implies (#[trigger] after[a]).path
                != (#[trigger] after[b]).path by {
                assert(after.contains(after[a]));
                assert(after.contains(after[b]));
                lemma_entry_asymmetric(after[a], after[b]);
                assert(entry_precedes(after[a], after[b]));
                if after[a].path == after[b].path {
                    if after[a] != new && after[b] != new {
                        let a0 = choose|i: int| 0 <= i < before.len() && before[i] == after[a];
                        let b0 = choose|i: int| 0 <= i < before.len() && before[i] == after[b];
                        if a0 < b0 {
                            assert(before[a0].path != before[b0].path);
                        } else if b0 < a0 {
                            assert(before[b0].path != before[a0].path);
                        }
                    }
                }
            }
        }
        lemma_by_path_pairs(before);
        lemma_by_path_pairs(after);
        let target = by_path(before).insert(path@, hash@);
        assert forall|k: Seq<char>, v: Seq<char>| by_path(after).contains_pair(k, v)
            <==> target.contains_pair(k, v) by {
            let e = EntryView { hash: v, path: k };
            assert(by_path(after).contains_pair(k, v) <==> after.contains(e));
            assert(by_path(before).contains_pair(k, v) <==> before.contains(e));
        }
        lemma_same_pairs(by_path(after), target);
    }
}

} // verus!
