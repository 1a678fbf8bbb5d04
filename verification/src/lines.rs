//! The storage file as lines of bytes: one record on each, each ended by a
//! line feed.

use crate::views::views;
use vstd::prelude::*;

verus! {

/// The byte that ends a line.
pub const LF: u8 = 10;

/// The byte that may stand before the line feed; it is no part of the line.
pub const CR: u8 = 13;

/// Where the first line feed of `bytes` at or after `from` stands; the length
/// of `bytes` where there is none.
pub open spec fn next_lf(bytes: Seq<u8>, from: int) -> int
    decreases bytes.len() - from,
{
    if 0 <= from < bytes.len() && bytes[from] != LF {
        next_lf(bytes, from + 1)
    } else {
        from
    }
}

/// A line as read: without the carriage return that ended it, if one did.
pub open spec fn without_cr(line: Seq<u8>) -> Seq<u8> {
    if line.len() > 0 && line.last() == CR {
        line.drop_last()
    } else {
        line
    }
}

/// The lines of a file. A line ends before a line feed, or before a carriage
/// return and a line feed; what follows the last line feed is a line too,
/// whole, unless nothing follows.
pub open spec fn lines_of(bytes: Seq<u8>) -> Seq<Seq<u8>>
    decreases bytes.len(),
{
    let end = next_lf(bytes, 0);
    if bytes.len() == 0 {
        Seq::empty()
    } else if 0 <= end < bytes.len() {
        seq![without_cr(bytes.subrange(0, end))] + lines_of(
            bytes.subrange(end + 1, bytes.len() as int),
        )
    } else {
        seq![bytes]
    }
}

/// A line that can stand in the file and be read back as it is: it holds a
/// byte, no line feed, and does not end in a carriage return.
pub open spec fn is_record_line(line: Seq<u8>) -> bool {
    &&& line.len() > 0
    &&& forall|i: int| 0 <= i < line.len() ==> line[i] != LF
    &&& line.last() != CR
}

/// The file that holds these lines: each followed by a line feed.
pub open spec fn framed(lines: Seq<Seq<u8>>) -> Seq<u8>
    decreases lines.len(),
{
    if lines.len() == 0 {
        Seq::empty()
    } else {
        lines[0] + seq![LF] + framed(lines.drop_first())
    }
}

/// The next line feed is where the first line feed at or after `from` is.
proof fn lemma_next_lf_is(bytes: Seq<u8>, from: int, end: int)
    requires
        0 <= from <= end <= bytes.len(),
        forall|i: int| from <= i < end ==> bytes[i] != LF,
        end < bytes.len() ==> bytes[end] == LF,
    ensures
        next_lf(bytes, from) == end,
    decreases end - from,
{
    if from < end {
        lemma_next_lf_is(bytes, from + 1, end);
    }
}

/// A file with one more line at its end.
pub proof fn lemma_framed_push(lines: Seq<Seq<u8>>, line: Seq<u8>)
    ensures
        framed(lines.push(line)) == framed(lines) + line + seq![LF],
    decreases lines.len(),
{
    if lines.len() == 0 {
        assert(lines.push(line).drop_first() =~= Seq::<Seq<u8>>::empty());
        assert(framed(lines.push(line).drop_first()) =~= Seq::<u8>::empty());
        assert(framed(lines) =~= Seq::<u8>::empty());
        assert(framed(lines.push(line)) =~= framed(lines) + line + seq![LF]);
    } else {
        assert(lines.push(line).drop_first() =~= lines.drop_first().push(line));
        lemma_framed_push(lines.drop_first(), line);
        assert(framed(lines.push(line)) =~= framed(lines) + line + seq![LF]);
    }
}

/// Lines that can stand in the file are read back from it as they were
/// written: as many, in the same order, byte for byte.
pub proof fn lemma_lines_of_framed(lines: Seq<Seq<u8>>)
    requires
        forall|i: int| 0 <= i < lines.len() ==> is_record_line(#[trigger] lines[i]),
    ensures
        lines_of(framed(lines)) == lines,
    decreases lines.len(),
{
    if lines.len() == 0 {
        assert(lines_of(framed(lines)) =~= lines);
    } else {
        let first = lines[0];
        let rest = lines.drop_first();
        let file = framed(lines);
        assert(is_record_line(first));
        assert(file =~= first + seq![LF] + framed(rest));
        assert forall|i: int| 0 <= i < first.len() implies file[i] != LF by {
            assert(file[i] == first[i]);
        }
        assert(file[first.len() as int] == LF);
        lemma_next_lf_is(file, 0, first.len() as int);
        assert(file.subrange(0, first.len() as int) =~= first);
        assert(file.subrange(first.len() as int + 1, file.len() as int) =~= framed(rest));
        assert forall|i: int| 0 <= i < rest.len() implies is_record_line(#[trigger] rest[i]) by {
            assert(rest[i] == lines[i + 1]);
        }
        lemma_lines_of_framed(rest);
        assert(lines_of(file) =~= seq![first] + rest);
        assert(seq![first] + rest =~= lines);
    }
}

/// Whether `line` can stand in the file and be read back as it is.
pub fn record_line(line: &[u8]) -> (can: bool)
    ensures
        can == is_record_line(line@),
{
    let n: usize = line.len();
    if n == 0 || line[n - 1] == CR {
        return false;
    }
    let mut i: usize = 0;
    while i < n
        invariant
            n == line@.len(),
            i <= n,
            forall|j: int| 0 <= j < i ==> line@[j] != LF,
        decreases n - i,
    {
        if line[i] == LF {
            return false;
        }
        i += 1;
    }
    true
}

/// Cuts the bytes of a file into its lines.
pub fn split_lines(bytes: &[u8]) -> (lines: Vec<Vec<u8>>)
    ensures
        views(lines@) == lines_of(bytes@),
{
    let n: usize = bytes.len();
    let mut lines: Vec<Vec<u8>> = Vec::new();
    let mut start: usize = 0;
    proof {
        assert(bytes@.subrange(0, n as int) =~= bytes@);
        assert(views(lines@) + lines_of(bytes@) =~= lines_of(bytes@));
    }
    while start < n
        invariant
            n == bytes@.len(),
            start <= n,
            views(lines@) + lines_of(bytes@.subrange(start as int, n as int)) == lines_of(
                bytes@,
            ),
        decreases n - start,
    {
        let ghost tail = bytes@.subrange(start as int, n as int);
        let ghost done = views(lines@);
        let mut line: Vec<u8> = Vec::new();
        let mut end: usize = start;
        while end < n && bytes[end] != LF
            invariant
                n == bytes@.len(),
                start <= end <= n,
                line@ == bytes@.subrange(start as int, end as int),
                forall|i: int| start <= i < end ==> bytes@[i] != LF,
            decreases n - end,
        {
            line.push(bytes[end]);
            end += 1;
            assert(line@ =~= bytes@.subrange(start as int, end as int));
        }
        proof {
            lemma_next_lf_is(tail, 0, end - start);
            assert(tail.subrange(0, end - start) =~= line@);
        }
        if end < n {
            let len: usize = line.len();
            if len > 0 && line[len - 1] == CR {
                line.pop();
            }
            proof {
                assert(line@ =~= without_cr(tail.subrange(0, end - start)));
                assert(tail.subrange(end - start + 1, tail.len() as int) =~= bytes@.subrange(
                    end + 1,
                    n as int,
                ));
                assert(views(lines@.push(line)) =~= done + seq![line@]);
            }
            lines.push(line);
            start = end + 1;
        } else {
            proof {
                assert(line@ =~= tail);
                assert(bytes@.subrange(n as int, n as int) =~= Seq::<u8>::empty());
                assert(views(lines@.push(line)) =~= done + seq![line@]);
                assert(done + seq![tail] + Seq::<Seq<u8>>::empty() =~= done + seq![tail]);
            }
            lines.push(line);
            start = n;
        }
    }
    proof {
        assert(bytes@.subrange(n as int, n as int) =~= Seq::<u8>::empty());
        assert(views(lines@) + Seq::<Seq<u8>>::empty() =~= views(lines@));
    }
    lines
}

} // verus!
