//! Splitting a trace into lines.

use crate::foreign;
use crate::foreign::byte_count;
use vstd::prelude::*;

verus! {

/// Line feed.
pub const NEWLINE: u8 = 10;

/// Carriage return.
pub const RETURN: u8 = 13;

/// Position of the first line feed at or after `pos`, or the end.
pub open spec fn line_break(data: Seq<u8>, pos: int) -> int
    decreases data.len() - pos,
{
    if pos < 0 || pos >= data.len() || data[pos] == NEWLINE {
        pos
    } else {
        line_break(data, pos + 1)
    }
}

/// End of the line's text: without a carriage return before the break.
pub open spec fn text_end(data: Seq<u8>, pos: int, brk: int) -> int {
    if brk > pos && data[brk - 1] == RETURN {
        brk - 1
    } else {
        brk
    }
}

/// Start of the line after a break.
pub open spec fn after_break(data: Seq<u8>, brk: int) -> int {
    if brk < data.len() {
        brk + 1
    } else {
        data.len() as int
    }
}

pub proof fn lemma_line_break_bounds(data: Seq<u8>, pos: int)
    requires
        0 <= pos <= data.len(),
    ensures
        pos <= line_break(data, pos) <= data.len(),
        line_break(data, pos) < data.len() ==> data[line_break(data, pos)] == NEWLINE,
        forall|i: int| pos <= i < line_break(data, pos) ==> data[i] != NEWLINE,
    decreases data.len() - pos,
{
    if pos < data.len() && data[pos] != NEWLINE {
        lemma_line_break_bounds(data, pos + 1);
    }
}

pub proof fn lemma_line_break_is(data: Seq<u8>, pos: int, brk: int)
    requires
        0 <= pos <= brk <= data.len(),
        brk < data.len() ==> data[brk] == NEWLINE,
        forall|i: int| pos <= i < brk ==> data[i] != NEWLINE,
    ensures
        line_break(data, pos) == brk,
{
    lemma_line_break_bounds(data, pos);
}

/// The text spans of the lines from `pos` on. A break at the very end opens no
/// further line.
pub open spec fn spans_from(data: Seq<u8>, pos: int) -> Seq<(int, int)>
    decreases data.len() - pos,
    when 0 <= pos
    via spans_from_decreases
{
    if pos >= data.len() {
        Seq::empty()
    } else {
        let brk = line_break(data, pos);
        seq![(pos, text_end(data, pos, brk))] + spans_from(data, after_break(data, brk))
    }
}

#[via_fn]
proof fn spans_from_decreases(data: Seq<u8>, pos: int) {
    if pos < data.len() {
        lemma_line_break_bounds(data, pos);
    }
}

/// Number of lines of a trace: one per line feed, one more for an unfinished
/// last line.
pub open spec fn line_total(data: Seq<u8>) -> nat {
    byte_count(data, NEWLINE) + if data.len() > 0 && data.last() != NEWLINE {
        1nat
    } else {
        0nat
    }
}

proof fn lemma_count_skip(data: Seq<u8>, pos: int, brk: int)
    requires
        0 <= pos <= brk <= data.len(),
        forall|i: int| pos <= i < brk ==> data[i] != NEWLINE,
    ensures
        byte_count(data.skip(pos), NEWLINE) == byte_count(data.skip(brk), NEWLINE),
    decreases brk - pos,
{
    if pos < brk {
        lemma_count_skip(data, pos + 1, brk);
        lemma_count_front(data.skip(pos));
        assert(data.skip(pos).skip(1) =~= data.skip(pos + 1));
    }
}

/// Counting from the front.
pub proof fn lemma_count_front(s: Seq<u8>)
    requires
        s.len() > 0,
    ensures
        byte_count(s, NEWLINE) == byte_count(s.skip(1), NEWLINE) + if s[0] == NEWLINE {
            1nat
        } else {
            0nat
        },
    decreases s.len(),
{
    if s.len() == 1 {
        assert(s.skip(1) =~= Seq::empty());
        assert(s.drop_last() =~= Seq::empty());
        reveal_with_fuel(byte_count, 2);
    } else {
        lemma_count_front(s.drop_last());
        assert(s.drop_last().skip(1) =~= s.skip(1).drop_last());
        assert(s.skip(1).last() == s.last());
        assert(s.drop_last()[0] == s[0]);
    }
}

/// The lines from `pos` on are as many as their line feeds, plus one for an
/// unfinished last line.
pub proof fn law_line_total(data: Seq<u8>, pos: int)
    requires
        0 <= pos <= data.len(),
    ensures
        spans_from(data, pos).len() == line_total(data.skip(pos)),
    decreases data.len() - pos,
{
    if pos == data.len() {
        assert(data.skip(pos) =~= Seq::empty());
    } else {
        lemma_line_break_bounds(data, pos);
        let brk = line_break(data, pos);
        let next = after_break(data, brk);
        law_line_total(data, next);
        lemma_count_skip(data, pos, brk);
        assert(data.skip(pos).last() == data.last());
        if brk < data.len() {
            lemma_count_front(data.skip(brk));
            assert(data.skip(brk).skip(1) =~= data.skip(brk + 1));
            if next < data.len() {
                assert(data.skip(next).last() == data.last());
            } else {
                assert(data.skip(next) =~= Seq::empty());
                assert(data.last() == NEWLINE);
            }
        } else {
            assert(data.skip(brk) =~= Seq::empty());
            assert(data.skip(next) =~= Seq::empty());
            assert(data[data.len() - 1] != NEWLINE);
        }
    }
}

/// Number of lines of a trace.
pub fn count_lines(data: &[u8]) -> (n: usize)
    ensures
        n == line_total(data@),
{
    let breaks: usize = foreign::count_byte(NEWLINE, data);
    proof {
        lemma_count_bound(data@);
    }
    if data.len() > 0 && data[data.len() - 1] != NEWLINE {
        breaks + 1
    } else {
        breaks
    }
}

pub proof fn lemma_count_bound(s: Seq<u8>)
    ensures
        byte_count(s, NEWLINE) <= s.len(),
        s.len() > 0 && s.last() != NEWLINE ==> byte_count(s, NEWLINE) < s.len(),
    decreases s.len(),
{
    if s.len() > 0 {
        lemma_count_bound(s.drop_last());
    }
}

/// The text spans of all lines, a trailing carriage return left out.
pub fn line_spans(data: &[u8]) -> (spans: Vec<(usize, usize)>)
    ensures
        spans@.len() == line_total(data@),
        spans@.map_values(|s: (usize, usize)| (s.0 as int, s.1 as int)) == spans_from(data@, 0),
{
    let len: usize = data.len();
    let mut spans: Vec<(usize, usize)> = Vec::new();
    let mut pos: usize = 0;
    let ghost as_ints = |s: (usize, usize)| (s.0 as int, s.1 as int);
    while pos < len
        invariant
            pos <= len,
            len == data@.len(),
            spans@.map_values(as_ints) + spans_from(data@, pos as int) == spans_from(data@, 0),
            as_ints == (|s: (usize, usize)| (s.0 as int, s.1 as int)),
        decreases len - pos,
    {
        let rest = vstd::slice::slice_subrange(data, pos, len);
        let brk: usize = match memchr::memchr(NEWLINE, rest) {
            Some(p) => pos + p,
            None => len,
        };
        proof {
            assert forall|i: int| pos <= i < brk implies data@[i] != NEWLINE by {
                assert(rest@[i - pos] == data@[i]);
            }
            lemma_line_break_is(data@, pos as int, brk as int);
        }
        let end: usize = if brk > pos && data[brk - 1] == RETURN {
            brk - 1
        } else {
            brk
        };
        let ghost before = spans@;
        spans.push((pos, end));
        let next: usize = if brk < len {
            brk + 1
        } else {
            len
        };
        assert(spans@.map_values(as_ints) =~= before.map_values(as_ints).push(
            (pos as int, end as int),
        ));
        assert(spans@.map_values(as_ints) + spans_from(data@, next as int) =~= before.map_values(
            as_ints,
        ) + spans_from(data@, pos as int));
        pos = next;
    }
    proof {
        law_line_total(data@, 0);
        assert(data@.skip(0) =~= data@);
        assert(spans@.map_values(as_ints) =~= spans_from(data@, 0));
    }
    spans
}

} // verus!
