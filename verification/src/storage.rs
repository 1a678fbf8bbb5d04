//! An archive and its storage file: the lines of the file taken in as
//! entries, and the entries laid out as the lines of the file.

use crate::archive::{holds, upserted, well_formed, Archive};
use crate::entry::{lemma_normalized, Entry, EntryView};
use crate::lines::{
    framed, is_record_line, lemma_framed_push, lemma_lines_of_framed, lines_of, record_line, LF,
};
use crate::views::views;
use std::path::PathBuf;
use vstd::prelude::*;

verus! {

/// The directory, below the tracked one, that marks it as an archive.
pub const TAGGIT_FOLDER: &'static str = ".taggit";

/// The directory, below the tracked one, that is kept for tracked content.
pub const FILES_FOLDER: &'static str = ".taggit/files";

/// The storage file, below the tracked directory.
pub const HASHES_FILE: &'static str = ".taggit/hashes.json";

/// A line of the storage file, and the entry that it stands for if it stands
/// for one.
#[derive(Debug)]
pub struct Line {
    pub text: Vec<u8>,
    pub entry: Option<Entry>,
}

/// What a [`Line`] holds, as plain values.
pub struct LineView {
    pub text: Seq<u8>,
    pub entry: Option<EntryView>,
}

impl View for Line {
    type V = LineView;

    open spec fn view(&self) -> LineView {
        LineView {
            text: self.text@,
            entry: match self.entry {
                Some(entry) => Some(entry@),
                None => None,
            },
        }
    }
}

/// Why a storage file cannot be read or laid out.
#[derive(Debug)]
pub enum FormatError {
    /// This line of the file stands for no entry.
    Line(Vec<u8>),
    /// The entry at this place has no line that can stand in the file.
    Entry(usize),
}

/// A line that holds bytes and stands for no entry.
pub open spec fn is_corrupt(line: LineView) -> bool {
    line.text.len() > 0 && line.entry is None
}

/// The line at `at` is the first corrupt one.
pub open spec fn is_first_corrupt(lines: Seq<LineView>, at: int) -> bool {
    &&& 0 <= at < lines.len()
    &&& is_corrupt(lines[at])
    &&& forall|i: int| 0 <= i < at ==> !is_corrupt(lines[i])
}

/// The records that these lines give: the entry of each line that holds
/// bytes, taken in one after the other.
pub open spec fn loaded(lines: Seq<LineView>) -> Seq<EntryView>
    decreases lines.len(),
{
    if lines.len() == 0 {
        Seq::empty()
    } else {
        let before = loaded(lines.drop_last());
        match lines.last().entry {
            Some(entry) if lines.last().text.len() > 0 => upserted(before, entry),
            _ => before,
        }
    }
}

/// The line given for the entry at `at`, if one is given.
pub open spec fn line_for(encoded: Seq<Option<Vec<u8>>>, at: int) -> Option<Seq<u8>> {
    if 0 <= at < encoded.len() {
        match encoded[at] {
            Some(line) => Some(line@),
            None => None,
        }
    } else {
        None
    }
}

/// A line is given for the entry at `at`, and it can stand in the file.
pub open spec fn has_line(encoded: Seq<Option<Vec<u8>>>, at: int) -> bool {
    match line_for(encoded, at) {
        Some(line) => is_record_line(line),
        None => false,
    }
}

/// The lines given for the first `count` entries.
pub open spec fn lines_for(encoded: Seq<Option<Vec<u8>>>, count: int) -> Seq<Seq<u8>> {
    Seq::new(count as nat, |i: int| line_for(encoded, i).unwrap())
}

/// Lines that hold bytes and stand for well-formed records give those
/// records, in the order of the lines.
pub proof fn lemma_loaded_as_given(lines: Seq<LineView>, entries: Seq<EntryView>)
    requires
        well_formed(entries),
        lines.len() == entries.len(),
        forall|i: int|
            0 <= i < lines.len() ==> (#[trigger] lines[i]).text.len() > 0 && lines[i].entry
                == Some(entries[i]),
    ensures
        loaded(lines) == entries,
    decreases lines.len(),
{
    if lines.len() == 0 {
        assert(entries =~= Seq::empty());
    } else {
        let last = lines.len() - 1;
        let before = entries.drop_last();
        assert(lines[last].entry == Some(entries[last]));
        assert(well_formed(before)) by {
            assert forall|i: int| 0 <= i < before.len() implies (#[trigger] before[i]).normal() by {
                assert(entries[i].normal());
            }
        }
        lemma_loaded_as_given(lines.drop_last(), before);
        assert(!holds(before, entries[last].hash));
        assert(entries[last].normal());
        lemma_normalized(entries[last]);
        assert(before.push(entries[last]) =~= entries);
    }
}

/// A well-formed archive comes back from its own storage file. Where the
/// file that [`Archive::write`] lays out is cut into lines again, and each
/// line stands for the entry that it was given for, [`Archive::from_path`]
/// gives the entries that were written, in their order.
pub proof fn lemma_written_then_loaded(
    entries: Seq<EntryView>,
    encoded: Seq<Seq<u8>>,
    lines: Seq<LineView>,
)
    requires
        well_formed(entries),
        encoded.len() == entries.len(),
        forall|i: int| 0 <= i < encoded.len() ==> is_record_line(#[trigger] encoded[i]),
        lines.len() == lines_of(framed(encoded)).len(),
        forall|i: int|
            0 <= i < lines.len() ==> (#[trigger] lines[i]).text == lines_of(framed(encoded))[i]
                && lines[i].entry == Some(entries[i]),
    ensures
        lines_of(framed(encoded)) == encoded,
        forall|i: int| 0 <= i < lines.len() ==> !is_corrupt(#[trigger] lines[i]),
        loaded(lines) == entries,
{
    lemma_lines_of_framed(encoded);
    assert forall|i: int| 0 <= i < lines.len() implies (#[trigger] lines[i]).text.len() > 0 by {
        assert(is_record_line(encoded[i]));
    }
    lemma_loaded_as_given(lines, entries);
}

impl Archive {
    /// The archive that the lines of a storage file give. Lines without a
    /// byte are passed over; every other line must stand for an entry, and
    /// the first that does not fails the whole: no archive is made of the
    /// lines before it. The entries come in as by [`Archive::upsert`], so the
    /// archive is well formed.
    pub fn from_path(path: PathBuf, lines: Vec<Line>) -> (made: Result<Archive, FormatError>)
        ensures
            made is Ok <==> forall|i: int|
                0 <= i < lines@.len() ==> !is_corrupt(#[trigger] lines@[i]@),
            match made {
                Ok(archive) => {
                    &&& archive.path == path
                    &&& archive@ == loaded(views(lines@))
                    &&& well_formed(archive@)
                },
                Err(FormatError::Line(text)) => exists|at: int|
                    #[trigger] is_first_corrupt(views(lines@), at) && text@ == lines@[at].text@,
                Err(FormatError::Entry(_)) => false,
            },
    {
        let mut archive = Archive { path, entries: Vec::new() };
        let ghost given = lines@;
        proof {
            assert(views(given.take(0)) =~= Seq::<LineView>::empty());
            assert(archive@ =~= Seq::empty());
        }
        for line in it: lines.into_iter()
            invariant
                it.seq() == given,
                archive.path == path,
                archive@ == loaded(views(given.take(it.index()))),
                well_formed(archive@),
                forall|i: int| 0 <= i < it.index() ==> !is_corrupt(#[trigger] given[i]@),
        {
            let ghost at = it.index();
            proof {
                assert(views(given.take(at + 1)).drop_last() =~= views(given.take(at)));
                assert(views(given.take(at + 1)).last() == line@);
            }
            let Line { text, entry } = line;
            if text.len() > 0 {
                match entry {
                    Some(entry) => {
                        archive.upsert(entry);
                    },
                    None => {
                        proof {
                            assert(is_corrupt(given[at]@));
                            assert(is_first_corrupt(views(given), at));
                        }
                        return Err(FormatError::Line(text));
                    },
                }
            }
        }
        proof {
            assert(given.take(given.len() as int) =~= given);
        }
        Ok(archive)
    }

    /// The bytes of the storage file that holds this archive: for each entry
    /// in order its line, `encoded[i]` for `entries[i]`, followed by a line
    /// feed, and nothing else. An entry for which no line is given, or one
    /// that cannot stand in the file, fails the whole; the first such entry
    /// is named. Lines beyond the last entry are not read.
    pub fn write(&self, encoded: &Vec<Option<Vec<u8>>>) -> (file: Result<Vec<u8>, FormatError>)
        ensures
            file is Ok <==> forall|i: int|
                0 <= i < self.entries@.len() ==> #[trigger] has_line(encoded@, i),
            match file {
                Ok(bytes) => bytes@ == framed(lines_for(encoded@, self.entries@.len() as int)),
                Err(FormatError::Entry(at)) => {
                    &&& at < self.entries@.len()
                    &&& !has_line(encoded@, at as int)
                    &&& forall|i: int| 0 <= i < at ==> #[trigger] has_line(encoded@, i)
                },
                Err(FormatError::Line(_)) => false,
            },
    {
        let n: usize = self.entries.len();
        let mut bytes: Vec<u8> = Vec::new();
        let mut at: usize = 0;
        proof {
            assert(lines_for(encoded@, 0) =~= Seq::empty());
        }
        while at < n
            invariant
                n == self.entries@.len(),
                at <= n,
                forall|i: int| 0 <= i < at ==> #[trigger] has_line(encoded@, i),
                bytes@ == framed(lines_for(encoded@, at as int)),
            decreases n - at,
        {
            if at >= encoded.len() {
                assert(!has_line(encoded@, at as int));
                return Err(FormatError::Entry(at));
            }
            match &encoded[at] {
                Some(line) => {
                    if !record_line(line.as_slice()) {
                        assert(!has_line(encoded@, at as int));
                        return Err(FormatError::Entry(at));
                    }
                    let ghost before = bytes@;
                    let mut i: usize = 0;
                    while i < line.len()
                        invariant
                            i <= line@.len(),
                            bytes@ == before + line@.subrange(0, i as int),
                        decreases line@.len() - i,
                    {
                        bytes.push(line[i]);
                        i += 1;
                        assert(bytes@ =~= before + line@.subrange(0, i as int));
                    }
                    bytes.push(LF);
                    proof {
                        let written = lines_for(encoded@, at as int);
                        assert(line@.subrange(0, line@.len() as int) =~= line@);
                        assert(bytes@ =~= before + line@ + seq![LF]);
                        assert(lines_for(encoded@, at + 1) =~= written.push(line@));
                        lemma_framed_push(written, line@);
                    }
                },
                None => {
                    assert(!has_line(encoded@, at as int));
                    return Err(FormatError::Entry(at));
                },
            }
            at += 1;
        }
        Ok(bytes)
    }
}

} // verus!
