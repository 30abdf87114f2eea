//! The framing of a log: one record on each line.

use vstd::prelude::*;

verus! {

/// The byte that ends a line.
pub const NEWLINE: u8 = 10;

/// The byte that may stand before the end of a line, and is then no part of
/// the line.
pub const CARRIAGE_RETURN: u8 = 13;

/// Where the first line of `text` ends: the position of the first newline,
/// or the length of `text` where it holds none.
pub open spec fn line_end(text: Seq<u8>) -> nat
    decreases text.len(),
{
    if text.len() == 0 || text[0] == NEWLINE {
        0
    } else {
        1 + line_end(text.skip(1))
    }
}

/// `line` without the carriage return at its end, if it has one.
pub open spec fn without_return(line: Seq<u8>) -> Seq<u8> {
    if line.len() > 0 && line.last() == CARRIAGE_RETURN {
        line.drop_last()
    } else {
        line
    }
}

/// The lines of `text`. A line ends at a newline, or at a carriage return
/// and a newline; what follows the last newline is a line of its own unless
/// it is empty, and keeps a carriage return at its end.
pub open spec fn lines_of(text: Seq<u8>) -> Seq<Seq<u8>>
    decreases text.len(),
{
    if text.len() == 0 {
        Seq::empty()
    } else {
        let end = line_end(text);
        if end >= text.len() {
            seq![text]
        } else {
            seq![without_return(text.take(end as int))] + lines_of(text.skip(end as int + 1))
        }
    }
}

/// `line` as it is written to a log: with a newline behind it.
pub open spec fn framed(line: Seq<u8>) -> Seq<u8> {
    line.push(NEWLINE)
}

/// The lines, each by its bytes.
pub open spec fn line_views(lines: Seq<Vec<u8>>) -> Seq<Seq<u8>> {
    Seq::new(lines.len(), |i: int| lines[i]@)
}

/// The first line ends at `end` where no newline stands before `end` and
/// one stands there, or the text ends there.
pub proof fn lemma_line_end(text: Seq<u8>, end: int)
    requires
        0 <= end <= text.len(),
        forall|k: int| 0 <= k < end ==> text[k] != NEWLINE,
        end == text.len() || text[end] == NEWLINE,
    ensures
        line_end(text) == end,
    decreases end,
{
    if end > 0 {
        lemma_line_end(text.skip(1), end - 1);
    }
}

/// A log to which a line without newline and carriage return was written
/// reads as that line, and then as what follows it.
pub proof fn lemma_framed_line_is_read(line: Seq<u8>, rest: Seq<u8>)
    requires
        forall|k: int| 0 <= k < line.len() ==> line[k] != NEWLINE,
        line.len() == 0 || line.last() != CARRIAGE_RETURN,
    ensures
        lines_of(framed(line) + rest) == seq![line] + lines_of(rest),
{
    let text = framed(line) + rest;
    lemma_line_end(text, line.len() as int);
    assert(text.take(line.len() as int) =~= line);
    assert(text.skip(line.len() as int + 1) =~= rest);
}

/// Copies the bytes of `text` from `from` up to `to`.
fn copy_range(text: &[u8], from: usize, to: usize) -> (out: Vec<u8>)
    requires
        from <= to <= text.len(),
    ensures
        out@ == text@.subrange(from as int, to as int),
{
    let mut out: Vec<u8> = Vec::new();
    let mut i: usize = from;
    while i < to
        invariant
            from <= i <= to <= text.len(),
            out@ == text@.subrange(from as int, i as int),
        decreases to - i,
    {
        out.push(text[i]);
        i = i + 1;
        assert(out@ =~= text@.subrange(from as int, i as int));
    }
    out
}

/// Splits the bytes of a log into its lines.
pub fn split_lines(text: &[u8]) -> (lines: Vec<Vec<u8>>)
    ensures
        line_views(lines@) == lines_of(text@),
{
    let mut lines: Vec<Vec<u8>> = Vec::new();
    let mut start: usize = 0;
    let mut i: usize = 0;
    assert(line_views(lines@) + lines_of(text@.skip(0)) =~= lines_of(text@)) by {
        assert(text@.skip(0) =~= text@);
    }
    while i < text.len()
        invariant
            start <= i <= text.len(),
            forall|k: int| start <= k < i ==> text[k] != NEWLINE,
            line_views(lines@) + lines_of(text@.skip(start as int)) == lines_of(text@),
        decreases text.len() - i,
    {
        if text[i] == NEWLINE {
            let end: usize = if i > start && text[i - 1] == CARRIAGE_RETURN {
                i - 1
            } else {
                i
            };
            let line = copy_range(text, start, end);
            proof {
                let tail = text@.skip(start as int);
                lemma_line_end(tail, i - start);
                assert(tail.take(i - start) =~= text@.subrange(start as int, i as int));
                assert(tail.skip(i - start + 1) =~= text@.skip(i + 1));
                assert(line@ =~= without_return(text@.subrange(start as int, i as int)));
                assert(line_views(lines@.push(line)) =~= line_views(lines@) + seq![line@]);
                assert(line_views(lines@.push(line)) + lines_of(text@.skip(i + 1)) =~= line_views(
                    lines@,
                ) + lines_of(tail));
            }
            lines.push(line);
            start = i + 1;
        }
        i = i + 1;
    }
    if start < text.len() {
        let line = copy_range(text, start, text.len());
        proof {
            let tail = text@.skip(start as int);
            lemma_line_end(tail, tail.len() as int);
            assert(line@ =~= tail);
            assert(line_views(lines@.push(line)) =~= line_views(lines@) + seq![line@]);
        }
        lines.push(line);
    } else {
        assert(line_views(lines@) + lines_of(text@.skip(start as int)) =~= line_views(lines@));
    }
    lines
}

/// `line` as it is written to a log: with a newline behind it.
pub fn frame_line(line: &[u8]) -> (out: Vec<u8>)
    ensures
        out@ == framed(line@),
{
    let mut out = copy_range(line, 0, line.len());
    assert(line@.subrange(0, line.len() as int) =~= line@);
    out.push(NEWLINE);
    out
}

} // verus!
