//! The entries of one tracked directory, and how a file comes in.

use crate::digest::{is_digest, sha1_hex, sha1sum, SHA1_LIMIT};
use crate::entry::{lemma_combined, lemma_normalized, Entry, EntryView};
use crate::views::views;
use std::path::PathBuf;
use vstd::prelude::*;

verus! {

/// `std::path::PathBuf`, held and handed on as it is: nothing here looks
/// into a path.
#[verifier::external_type_specification]
#[verifier::external_body]
pub struct ExPathBuf(PathBuf);

/// Some record has this hash.
pub open spec fn holds(entries: Seq<EntryView>, hash: Seq<char>) -> bool {
    exists|i: int| 0 <= i < entries.len() && entries[i].hash == hash
}

/// The record at `at` is the first with this hash.
pub open spec fn is_first(entries: Seq<EntryView>, hash: Seq<char>, at: int) -> bool {
    &&& 0 <= at < entries.len()
    &&& entries[at].hash == hash
    &&& forall|i: int| 0 <= i < at ==> entries[i].hash != hash
}

/// Where the first record with this hash stands, if there is one.
pub open spec fn first_of(entries: Seq<EntryView>, hash: Seq<char>) -> int {
    choose|at: int| is_first(entries, hash, at)
}

/// No two records have the same hash.
pub open spec fn distinct_hashes(entries: Seq<EntryView>) -> bool {
    forall|i: int, j: int| 0 <= i < j < entries.len() ==> entries[i].hash != entries[j].hash
}

/// No two records have the same hash, and each has its names and its tags
/// in ascending order, none twice.
pub open spec fn well_formed(entries: Seq<EntryView>) -> bool {
    &&& distinct_hashes(entries)
    &&& forall|i: int| 0 <= i < entries.len() ==> (#[trigger] entries[i]).normal()
}

/// The records after `candidate` has come in: the first record with its hash
/// has taken up its names and tags, or, where no record has its hash, it
/// stands at the end, put in order.
pub open spec fn upserted(entries: Seq<EntryView>, candidate: EntryView) -> Seq<EntryView> {
    if holds(entries, candidate.hash) {
        let at = first_of(entries, candidate.hash);
        entries.update(at, entries[at].combine(candidate))
    } else {
        entries.push(candidate.normalized())
    }
}

/// The records after each of `candidates` has come in, in their order.
pub open spec fn upserted_all(
    entries: Seq<EntryView>,
    candidates: Seq<EntryView>,
) -> Seq<EntryView>
    decreases candidates.len(),
{
    if candidates.len() == 0 {
        entries
    } else {
        upserted(upserted_all(entries, candidates.drop_last()), candidates.last())
    }
}

/// The entry that a file comes in as: the hash of its bytes, its one name,
/// and its tags as given.
pub open spec fn file_entry(name: Seq<char>, tags: Seq<Seq<char>>, bytes: Seq<u8>) -> EntryView {
    EntryView { hash: sha1_hex(bytes), names: seq![name], tags }
}

/// Where the first record with this hash at or after `from` stands; the
/// number of records where there is none.
spec fn next_with(entries: Seq<EntryView>, hash: Seq<char>, from: int) -> int
    decreases entries.len() - from,
{
    if 0 <= from < entries.len() && entries[from].hash != hash {
        next_with(entries, hash, from + 1)
    } else {
        from
    }
}

proof fn lemma_next_with(entries: Seq<EntryView>, hash: Seq<char>, from: int)
    requires
        0 <= from <= entries.len(),
    ensures
        from <= next_with(entries, hash, from) <= entries.len(),
        forall|i: int| from <= i < next_with(entries, hash, from) ==> entries[i].hash != hash,
        next_with(entries, hash, from) < entries.len() ==> entries[next_with(
            entries,
            hash,
            from,
        )].hash == hash,
    decreases entries.len() - from,
{
    if from < entries.len() && entries[from].hash != hash {
        lemma_next_with(entries, hash, from + 1);
    }
}

/// Where some record has this hash, one is the first with it.
pub proof fn lemma_first_of(entries: Seq<EntryView>, hash: Seq<char>)
    requires
        holds(entries, hash),
    ensures
        is_first(entries, hash, first_of(entries, hash)),
{
    let at = next_with(entries, hash, 0);
    lemma_next_with(entries, hash, 0);
    let some = choose|i: int| 0 <= i < entries.len() && entries[i].hash == hash;
    assert(at <= some);
    assert(is_first(entries, hash, at));
}

/// Taking an entry in leaves every hash where it was, and adds the entry's
/// hash at the end if no record had it. Records of which no two had the same
/// hash are so afterwards, and well-formed records are well formed
/// afterwards.
pub proof fn lemma_upserted(entries: Seq<EntryView>, candidate: EntryView)
    ensures
        upserted(entries, candidate).len() == if holds(entries, candidate.hash) {
            entries.len()
        } else {
            entries.len() + 1
        },
        forall|i: int|
            0 <= i < entries.len() ==> (#[trigger] upserted(entries, candidate)[i]).hash
                == entries[i].hash,
        holds(upserted(entries, candidate), candidate.hash),
        distinct_hashes(entries) ==> distinct_hashes(upserted(entries, candidate)),
        well_formed(entries) ==> well_formed(upserted(entries, candidate)),
{
    let after = upserted(entries, candidate);
    if holds(entries, candidate.hash) {
        lemma_first_of(entries, candidate.hash);
        let at = first_of(entries, candidate.hash);
        assert(after[at].hash == candidate.hash);
        lemma_combined(entries[at], candidate);
    } else {
        lemma_normalized(candidate);
        assert(after[entries.len() as int].hash == candidate.hash);
    }
    if well_formed(entries) {
        assert forall|i: int| 0 <= i < after.len() implies (#[trigger] after[i]).normal() by {
            if i < entries.len() {
                assert(entries[i].normal());
            }
        }
    }
}

/// However many entries are taken in, one after the other, no hash comes to
/// stand twice: records of which no two had the same hash are so
/// afterwards, and well-formed records are well formed afterwards.
pub proof fn lemma_upserted_all(entries: Seq<EntryView>, candidates: Seq<EntryView>)
    ensures
        distinct_hashes(entries) ==> distinct_hashes(upserted_all(entries, candidates)),
        well_formed(entries) ==> well_formed(upserted_all(entries, candidates)),
    decreases candidates.len(),
{
    if candidates.len() > 0 {
        lemma_upserted_all(entries, candidates.drop_last());
        lemma_upserted(upserted_all(entries, candidates.drop_last()), candidates.last());
    }
}

/// What was found where a file to be added should be.
#[derive(Debug)]
pub enum Input {
    /// No regular file: a directory, or nothing.
    Directory,
    /// A file that could not be read.
    Unreadable,
    /// A file, and the bytes in it.
    Content(Vec<u8>),
}

/// What became of a file that was to be added.
#[derive(Debug, Clone, Copy, PartialEq, Eq, Structural)]
pub enum Added {
    /// It was passed over, and the archive is as it was.
    Skipped,
    /// An entry had its hash and has taken up its name and tags.
    Merged,
    /// No entry had its hash; it has an entry of its own now.
    Inserted,
}

/// The entries of one tracked directory, and the directory.
#[derive(Debug)]
pub struct Archive {
    pub path: PathBuf,
    pub entries: Vec<Entry>,
}

impl View for Archive {
    type V = Seq<EntryView>;

    open spec fn view(&self) -> Seq<EntryView> {
        views(self.entries@)
    }
}

impl Archive {
    /// The first entry with the hash of `compare`, to be changed in place.
    pub fn get_match_mut(&mut self, compare: &Entry) -> (found: Option<&mut Entry>)
        ensures
            found is Some <==> holds(old(self)@, compare@.hash),
            match found {
                Some(entry) => {
                    let at = first_of(old(self)@, compare@.hash);
                    &&& is_first(old(self)@, compare@.hash, at)
                    &&& *entry == old(self).entries@[at]
                    &&& final(self).entries@ == old(self).entries@.update(at, *final(entry))
                    &&& final(self).path == old(self).path
                },
                None => *final(self) == *old(self),
            },
    {
        let n: usize = self.entries.len();
        let mut at: usize = 0;
        while at < n
            invariant
                *self == *old(self),
                n == self.entries@.len(),
                at <= n,
                forall|i: int| 0 <= i < at ==> self@[i].hash != compare@.hash,
            decreases n - at,
        {
            if self.entries[at].hash == compare.hash {
                assert(is_first(self@, compare@.hash, at as int));
                return Some(&mut self.entries[at]);
            }
            at += 1;
        }
        None
    }

    /// Takes `candidate` into the archive: the first entry with its hash
    /// takes up its names and tags, or, where there is none, it is put in
    /// order and added at the end. Says whether there was such an entry.
    pub fn upsert(&mut self, candidate: Entry) -> (merged: bool)
        ensures
            final(self)@ == upserted(old(self)@, candidate@),
            final(self).path == old(self).path,
            merged == holds(old(self)@, candidate@.hash),
            distinct_hashes(old(self)@) ==> distinct_hashes(final(self)@),
            well_formed(old(self)@) ==> well_formed(final(self)@),
    {
        proof {
            lemma_upserted(self@, candidate@);
        }
        let mut candidate = candidate;
        match self.get_match_mut(&candidate) {
            Some(found) => {
                found.combine(&mut candidate);
                true
            },
            None => {
                candidate.normalize();
                self.entries.push(candidate);
                false
            },
        }
    }

    /// Takes a file into the archive. Where there is no file to read, nothing
    /// changes. Else the file comes in, by [`Archive::upsert`], as an entry
    /// with the hash of its bytes, `name` as its one name, and `tags`.
    pub fn add_file(&mut self, name: String, tags: Vec<String>, input: Input) -> (added: Added)
        requires
            match input {
                Input::Content(bytes) => bytes@.len() < SHA1_LIMIT,
                _ => true,
            },
        ensures
            final(self).path == old(self).path,
            match input {
                Input::Content(bytes) => {
                    let entry = file_entry(name@, views(tags@), bytes@);
                    &&& is_digest(entry.hash)
                    &&& final(self)@ == upserted(old(self)@, entry)
                    &&& added == if holds(old(self)@, entry.hash) {
                        Added::Merged
                    } else {
                        Added::Inserted
                    }
                },
                _ => *final(self) == *old(self) && added == Added::Skipped,
            },
            distinct_hashes(old(self)@) ==> distinct_hashes(final(self)@),
            well_formed(old(self)@) ==> well_formed(final(self)@),
    {
        match input {
            Input::Content(bytes) => {
                let hash = sha1sum(bytes.as_slice());
                let mut names: Vec<String> = Vec::new();
                names.push(name);
                let entry = Entry { hash, names, tags };
                assert(entry@.names =~= seq![name@]);
                if self.upsert(entry) {
                    Added::Merged
                } else {
                    Added::Inserted
                }
            },
            _ => Added::Skipped,
        }
    }
}

} // verus!
