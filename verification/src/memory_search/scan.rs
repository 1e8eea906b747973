//! Replaying a trace line by line.

use crate::error::{invalid, is_invalid, is_parse_error, parse_error, TraceError};
use crate::foreign;
use crate::memory_search::expand::{expand_mem_op, expanded, op_ok};
use crate::memory_search::request::{
    budget_fault, options_fault, validate_options, validate_public_response_budget, CachePage,
    MemoryOccurrence, MemorySearchMatch, MemorySearchOptions, MemorySearchResult, MemorySearchRw,
};
use crate::memory_search::state::{
    event_matches, fresh_matches, low_end, with_bytes, Bytes, SearchFilter, SearchState,
};
use crate::scanner::lines::{
    lemma_line_break_bounds, lemma_line_break_is, line_break, text_end, NEWLINE, RETURN,
};
use crate::types::{MemOp, TraceFormat};
use vstd::prelude::*;
use vstd::utf8::*;

verus! {

/// What a line of the trace says.
#[derive(Clone, Copy)]
pub enum DecodedLine {
    /// No instruction.
    Other,
    /// An instruction that touches no memory.
    Plain,
    /// An instruction that accesses memory.
    Access(MemOp),
}

// ---------------------------------------------------------------------------
// Lines
// ---------------------------------------------------------------------------

/// The text spans between line feeds from `pos` on; after a last line feed
/// stands one more, empty line.
pub open spec fn segments_from(data: Seq<u8>, pos: int) -> Seq<(int, int)>
    decreases data.len() + 1 - pos,
    when 0 <= pos <= data.len()
    via segments_decreases
{
    let brk = line_break(data, pos);
    let head = seq![(pos, text_end(data, pos, brk))];
    if brk < data.len() {
        head + segments_from(data, brk + 1)
    } else {
        head
    }
}

#[via_fn]
proof fn segments_decreases(data: Seq<u8>, pos: int) {
    lemma_line_break_bounds(data, pos);
}

pub open spec fn segments(data: Seq<u8>) -> Seq<(int, int)> {
    segments_from(data, 0)
}

/// The text of line `i`.
pub open spec fn line_text(data: Seq<u8>, i: int) -> Seq<u8> {
    data.subrange(segments(data)[i].0, segments(data)[i].1)
}

/// The lines of a trace as text spans.
pub fn trace_segments(data: &[u8]) -> (spans: Vec<(usize, usize)>)
    ensures
        spans@.map_values(|s: (usize, usize)| (s.0 as int, s.1 as int)) == segments(data@),
        spans@.len() == segments(data@).len(),
        forall|i: int|
            #![trigger spans@[i]]
            0 <= i < spans@.len() ==> spans@[i].0 <= spans@[i].1 <= data@.len() && spans@[i].0
                == segments(data@)[i].0 && spans@[i].1 == segments(data@)[i].1,
{
    let len: usize = data.len();
    let mut spans: Vec<(usize, usize)> = Vec::new();
    let mut pos: usize = 0;
    let mut open: bool = true;
    let ghost as_ints = |s: (usize, usize)| (s.0 as int, s.1 as int);
    assert(spans@.map_values(as_ints) + segments_from(data@, 0) =~= segments(data@));
    while open
        invariant
            pos <= len,
            len == data@.len(),
            as_ints == (|s: (usize, usize)| (s.0 as int, s.1 as int)),
            open ==> spans@.map_values(as_ints) + segments_from(data@, pos as int) == segments(
                data@,
            ),
            !open ==> spans@.map_values(as_ints) == segments(data@),
            forall|i: int|
                #![trigger spans@[i]]
                0 <= i < spans@.len() ==> spans@[i].0 <= spans@[i].1 <= data@.len(),
        decreases
            (if open {
                1int
            } else {
                0int
            }) + len - pos,
    {
        let rest = vstd::slice::slice_subrange(data, pos, len);
        let brk: usize = match memchr::memchr(NEWLINE, rest) {
            Some(p) => pos + p,
            None => len,
        };
        proof {
            assert forall|i: int| pos <= i < brk implies data@[i] != NEWLINE by {
                assert(rest@[i - pos] == data@[i]);
            }
            lemma_line_break_is(data@, pos as int, brk as int);
        }
        let end: usize = if brk > pos && data[brk - 1] == RETURN {
            brk - 1
        } else {
            brk
        };
        let ghost before = spans@;
        spans.push((pos, end));
        assert(spans@.map_values(as_ints) =~= before.map_values(as_ints).push(
            (pos as int, end as int),
        ));
        if brk < len {
            assert(spans@.map_values(as_ints) + segments_from(data@, brk + 1)
                =~= before.map_values(as_ints) + segments_from(data@, pos as int));
            pos = brk + 1;
        } else {
            assert(spans@.map_values(as_ints) =~= before.map_values(as_ints) + segments_from(
                data@,
                pos as int,
            ));
            open = false;
        }
    }
    assert forall|i: int| #![trigger spans@[i]] 0 <= i < spans@.len() implies spans@[i].0
        == segments(data@)[i].0 && spans@[i].1 == segments(data@)[i].1 by {
        assert(spans@.map_values(as_ints)[i] == segments(data@)[i]);
    }
    assert(spans@.map_values(as_ints).len() == spans@.len());
    spans
}

/// `needle` stands in `text` at `i`.
pub open spec fn stands_at(text: Seq<u8>, needle: Seq<u8>, i: int) -> bool {
    0 <= i && i + needle.len() <= text.len() && text.subrange(i, i + needle.len()) == needle
}

pub open spec fn holds(text: Seq<u8>, needle: Seq<u8>) -> bool {
    exists|i: int| #[trigger] stands_at(text, needle, i)
}

/// `mem[`
pub open spec fn mark_bracket() -> Seq<u8> {
    seq![109u8, 101u8, 109u8, 91u8]
}

/// `mem_w=`
pub open spec fn mark_write() -> Seq<u8> {
    seq![109u8, 101u8, 109u8, 95u8, 119u8, 61u8]
}

/// `mem_r=`
pub open spec fn mark_read() -> Seq<u8> {
    seq![109u8, 101u8, 109u8, 95u8, 114u8, 61u8]
}

/// The line is marked as a memory access.
pub open spec fn marked(text: Seq<u8>, format: TraceFormat) -> bool {
    match format {
        TraceFormat::Unidbg => holds(text, mark_bracket()),
        TraceFormat::Gumtrace => holds(text, mark_write()) || holds(text, mark_read()),
    }
}

fn contains(text: &[u8], needle: &[u8]) -> (b: bool)
    ensures
        b == holds(text@, needle@),
{
    if needle.len() > text.len() {
        return false;
    }
    let last: usize = text.len() - needle.len();
    let mut i: usize = 0;
    loop
        invariant
            i <= last,
            last == text@.len() - needle@.len(),
            text@.len() <= usize::MAX,
            forall|k: int| 0 <= k < i ==> !#[trigger] stands_at(text@, needle@, k),
        decreases last - i,
    {
        let mut k: usize = 0;
        while k < needle.len() && text[i + k] == needle[k]
            invariant
                k <= needle@.len(),
                i <= last,
                last == text@.len() - needle@.len(),
                text@.len() <= usize::MAX,
                forall|j: int| 0 <= j < k ==> text@[i + j] == needle@[j],
            decreases needle@.len() - k,
        {
            k += 1;
        }
        if k == needle.len() {
            assert(text@.subrange(i as int, i + needle@.len()) =~= needle@);
            assert(stands_at(text@, needle@, i as int));
            return true;
        }
        assert(!stands_at(text@, needle@, i as int)) by {
            if stands_at(text@, needle@, i as int) {
                assert(text@.subrange(i as int, i + needle@.len())[k as int] == needle@[k as int]);
            }
        }
        if i == last {
            return false;
        }
        i += 1;
    }
}

fn contains_memory_event(text: &[u8], format: TraceFormat) -> (b: bool)
    ensures
        b == marked(text@, format),
{
    match format {
        TraceFormat::Unidbg => {
            let mark: [u8; 4] = [109, 101, 109, 91];
            assert(mark@ =~= mark_bracket());
            contains(text, mark.as_slice())
        },
        TraceFormat::Gumtrace => {
            let write: [u8; 6] = [109, 101, 109, 95, 119, 61];
            let read: [u8; 6] = [109, 101, 109, 95, 114, 61];
            assert(write@ =~= mark_write());
            assert(read@ =~= mark_read());
            contains(text, write.as_slice()) || contains(text, read.as_slice())
        },
    }
}

// ---------------------------------------------------------------------------
// The replay
// ---------------------------------------------------------------------------

/// A replay after some lines.
#[verifier::ext_equal]
pub struct ReplayState {
    pub mem: Bytes,
    pub found: Seq<MemoryOccurrence>,
    /// An instruction was seen.
    pub any: bool,
}

/// Why a replay stops: the line, if one is to blame, and what is wrong.
pub type Fault = (Option<u32>, Seq<char>);

pub open spec fn not_utf8_text() -> Seq<char> {
    "trace line is not valid UTF-8"@
}

pub open spec fn malformed_text() -> Seq<char> {
    "malformed memory event"@
}

pub open spec fn overflow_text() -> Seq<char> {
    "memory access range overflows u64"@
}

pub open spec fn too_many_lines_text() -> Seq<char> {
    "trace contains more than u32::MAX sequence lines"@
}

pub open spec fn nothing_recognized_text() -> Seq<char> {
    "trace contains no recognizable instruction line"@
}

/// Direction of an access.
pub open spec fn direction(op: MemOp) -> MemorySearchRw {
    if op.is_write {
        MemorySearchRw::Write
    } else {
        MemorySearchRw::Read
    }
}

/// The matches that a line brings about.
pub open spec fn line_matches(
    mem: Bytes,
    line: DecodedLine,
    pattern: Seq<u8>,
    f: SearchFilter,
    index: int,
) -> Seq<MemoryOccurrence> {
    match line {
        DecodedLine::Access(op) => event_matches(
            mem,
            pattern,
            f,
            op.abs,
            expanded(op),
            index as u32,
            direction(op),
        ),
        _ => Seq::empty(),
    }
}

/// One line. A line that is marked as a memory access but was not decoded as
/// one stops the replay: leaving it out could hide or invent matches.
pub open spec fn replay_line(
    m: ReplayState,
    text: Seq<u8>,
    line: DecodedLine,
    format: TraceFormat,
    pattern: Seq<u8>,
    f: SearchFilter,
    index: int,
) -> Result<ReplayState, Fault> {
    if index > u32::MAX {
        Err((None, too_many_lines_text()))
    } else if !valid_utf8(text) {
        Err((Some(index as u32), not_utf8_text()))
    } else {
        match line {
            DecodedLine::Access(op) => {
                let values = expanded(op);
                if op.abs + values.len() > u64::MAX + 1 {
                    Err((Some(index as u32), overflow_text()))
                } else {
                    Ok(
                        ReplayState {
                            mem: with_bytes(
                                m.mem,
                                op.abs,
                                values,
                                direction(op),
                                values.len() as int,
                            ),
                            found: m.found + line_matches(m.mem, line, pattern, f, index),
                            any: true,
                        },
                    )
                }
            },
            _ => {
                if marked(text, format) {
                    Err((Some(index as u32), malformed_text()))
                } else {
                    Ok(
                        ReplayState {
                            any: m.any || line is Plain,
                            found: m.found + line_matches(m.mem, line, pattern, f, index),
                            ..m
                        },
                    )
                }
            },
        }
    }
}

pub open spec fn replay_start() -> ReplayState {
    ReplayState { mem: Map::empty(), found: Seq::empty(), any: false }
}

/// The replay of the first `n` lines.
pub open spec fn replay_lines(
    data: Seq<u8>,
    decoded: Seq<DecodedLine>,
    format: TraceFormat,
    pattern: Seq<u8>,
    f: SearchFilter,
    n: int,
) -> Result<ReplayState, Fault>
    decreases n,
{
    if n <= 0 {
        Ok(replay_start())
    } else {
        match replay_lines(data, decoded, format, pattern, f, n - 1) {
            Err(e) => Err(e),
            Ok(m) => replay_line(
                m,
                line_text(data, n - 1),
                decoded[n - 1],
                format,
                pattern,
                f,
                n - 1,
            ),
        }
    }
}

/// All matches of a trace. A trace without any instruction is refused: no
/// match in it would mean nothing.
pub open spec fn all_matches(
    data: Seq<u8>,
    decoded: Seq<DecodedLine>,
    format: TraceFormat,
    pattern: Seq<u8>,
    f: SearchFilter,
) -> Result<Seq<MemoryOccurrence>, Fault> {
    match replay_lines(data, decoded, format, pattern, f, segments(data).len() as int) {
        Err(e) => Err(e),
        Ok(m) => if m.any {
            Ok(m.found)
        } else {
            Err((None, nothing_recognized_text()))
        },
    }
}

pub open spec fn filter_of(o: MemorySearchOptions) -> SearchFilter {
    SearchFilter { seq_range: o.seq_range, memory_range: o.memory_range }
}

/// The matches that a request asks for, before paging.
pub open spec fn requested(
    data: Seq<u8>,
    decoded: Seq<DecodedLine>,
    format: TraceFormat,
    o: MemorySearchOptions,
) -> Result<Seq<MemoryOccurrence>, Fault> {
    all_matches(data, decoded, format, o.pattern@, filter_of(o))
}

/// There is one decoded line per line, and vector accesses are in order.
pub open spec fn decoded_ok(data: Seq<u8>, decoded: Seq<DecodedLine>) -> bool {
    &&& decoded.len() == segments(data).len()
    &&& forall|i: int|
        #![trigger decoded[i]]
        0 <= i < decoded.len() ==> (decoded[i] matches DecodedLine::Access(op) ==> op_ok(op))
}

/// The error reports the fault.
pub open spec fn reports(e: TraceError, fault: Fault) -> bool {
    is_parse_error(e, fault.0, fault.1)
}

/// Replays one line.
fn replay_one(
    state: &mut SearchState<'_>,
    any: &mut bool,
    text: &[u8],
    line: &DecodedLine,
    format: TraceFormat,
    filter: &SearchFilter,
    index: usize,
    sink: &mut Vec<MemoryOccurrence>,
    Ghost(m): Ghost<ReplayState>,
) -> (r: Result<(), TraceError>)
    requires
        old(state).wf(),
        *line matches DecodedLine::Access(op) ==> op_ok(op),
        m.mem == old(state).memory@,
        m.any == *old(any),
    ensures
        final(state).wf(),
        final(state).needle() == old(state).needle(),
        match replay_line(m, text@, *line, format, old(state).needle(), *filter, index as int) {
            Err(fault) => r matches Err(e) && reports(e, fault),
            Ok(next) => {
                &&& r is Ok
                &&& final(state).memory@ == next.mem
                &&& *final(any) == next.any
                &&& final(sink)@ == old(sink)@ + line_matches(
                    m.mem,
                    *line,
                    old(state).needle(),
                    *filter,
                    index as int,
                )
            },
        },
{
    if index > 0xFFFF_FFFF {
        return Err(parse_error(None, "trace contains more than u32::MAX sequence lines"));
    }
    let seq: u32 = index as u32;
    if foreign::text_from_utf8(text).is_none() {
        return Err(parse_error(Some(seq), "trace line is not valid UTF-8"));
    }
    let ghost start = sink@;
    match line {
        DecodedLine::Access(op) => {
            let values = expand_mem_op(op);
            let rw: MemorySearchRw = if op.is_write {
                MemorySearchRw::Write
            } else {
                MemorySearchRw::Read
            };
            match state.process_event(op.abs, &values, seq, rw, filter, sink) {
                Ok(_) => {
                    *any = true;
                },
                Err(e) => {
                    return Err(e);
                },
            }
        },
        DecodedLine::Plain => {
            if contains_memory_event(text, format) {
                return Err(parse_error(Some(seq), "malformed memory event"));
            }
            *any = true;
            assert(sink@ =~= start + Seq::<MemoryOccurrence>::empty());
        },
        DecodedLine::Other => {
            if contains_memory_event(text, format) {
                return Err(parse_error(Some(seq), "malformed memory event"));
            }
            assert(sink@ =~= start + Seq::<MemoryOccurrence>::empty());
        },
    }
    Ok(())
}

proof fn lemma_fault_stays(
    data: Seq<u8>,
    decoded: Seq<DecodedLine>,
    format: TraceFormat,
    pattern: Seq<u8>,
    f: SearchFilter,
    n: int,
    total: int,
)
    requires
        0 <= n <= total,
        replay_lines(data, decoded, format, pattern, f, n) is Err,
    ensures
        replay_lines(data, decoded, format, pattern, f, total) == replay_lines(
            data,
            decoded,
            format,
            pattern,
            f,
            n,
        ),
    decreases total - n,
{
    if n < total {
        lemma_fault_stays(data, decoded, format, pattern, f, n, total - 1);
    }
}

/// Replays a trace and hands all matches to the sink.
pub fn scan_memory_with_sink(
    data: &[u8],
    decoded: &Vec<DecodedLine>,
    format: TraceFormat,
    options: &MemorySearchOptions,
    sink: &mut Vec<MemoryOccurrence>,
) -> (r: Result<(), TraceError>)
    requires
        decoded_ok(data@, decoded@),
        options.pattern@.len() > 0,
    ensures
        match requested(data@, decoded@, format, *options) {
            Ok(found) => r is Ok && final(sink)@ == old(sink)@ + found,
            Err(fault) => r matches Err(e) && reports(e, fault),
        },
{
    let spans = trace_segments(data);
    let filter = SearchFilter {
        seq_range: options.seq_range,
        memory_range: options.memory_range,
    };
    let mut state = SearchState::new(options.pattern.as_slice());
    let mut any: bool = false;
    let ghost start = sink@;
    let ghost p = options.pattern@;
    let mut i: usize = 0;
    let ghost mut m = replay_start();
    assert(sink@ =~= start + m.found);
    while i < spans.len()
        invariant
            i <= spans@.len(),
            spans@.len() == segments(data@).len(),
            decoded_ok(data@, decoded@),
            forall|i: int|
                #![trigger spans@[i]]
                0 <= i < spans@.len() ==> spans@[i].0 <= spans@[i].1 <= data@.len() && spans@[i].0
                    == segments(data@)[i].0 && spans@[i].1 == segments(data@)[i].1,
            state.wf(),
            state.needle() == p,
            p == options.pattern@,
            filter == filter_of(*options),
            replay_lines(data@, decoded@, format, p, filter, i as int) == Ok::<ReplayState, Fault>(
                m,
            ),
            m.mem == state.memory@,
            m.any == any,
            sink@ == start + m.found,
        decreases spans@.len() - i,
    {
        let span = spans[i];
        assert(spans@[i as int].0 <= spans@[i as int].1);
        let text = vstd::slice::slice_subrange(data, span.0, span.1);
        assert(text@ =~= line_text(data@, i as int));
        assert(decoded@[i as int] matches DecodedLine::Access(op) ==> op_ok(op));
        match replay_one(
            &mut state,
            &mut any,
            text,
            &decoded[i],
            format,
            &filter,
            i,
            sink,
            Ghost(m),
        ) {
            Ok(_) => {},
            Err(e) => {
                proof {
                    lemma_fault_stays(
                        data@,
                        decoded@,
                        format,
                        p,
                        filter,
                        i + 1,
                        spans@.len() as int,
                    );
                }
                return Err(e);
            },
        }
        proof {
            let next = replay_line(
                m,
                text@,
                decoded@[i as int],
                format,
                p,
                filter,
                i as int,
            )->Ok_0;
            assert(sink@ =~= start + next.found);
            m = next;
        }
        i += 1;
    }
    if !any {
        return Err(parse_error(None, "trace contains no recognizable instruction line"));
    }
    Ok(())
}

// ---------------------------------------------------------------------------
// Pages
// ---------------------------------------------------------------------------

/// `a`, but at most `b`.
pub open spec fn at_most(a: int, b: int) -> int {
    if a < b {
        a
    } else {
        b
    }
}

/// The matches `offset..offset + limit`, as far as there are any.
pub open spec fn page_of(all: Seq<MemoryOccurrence>, offset: u32, limit: u32) -> Seq<
    MemoryOccurrence,
> {
    all.subrange(
        at_most(offset as int, all.len() as int),
        at_most(offset + limit, all.len() as int),
    )
}

/// The page that a request asks for.
pub open spec fn is_page(page: CachePage, all: Seq<MemoryOccurrence>, offset: u32, limit: u32) -> bool {
    &&& page.total == all.len()
    &&& page.matches@ == page_of(all, offset, limit)
    &&& page.has_more == (offset + limit < all.len())
}

pub open spec fn too_many_matches_text() -> Seq<char> {
    "too many memory search matches"@
}

/// Replays a trace and keeps the requested page of the matches.
pub fn scan_memory_page(
    data: &[u8],
    decoded: &Vec<DecodedLine>,
    format: TraceFormat,
    options: &MemorySearchOptions,
) -> (r: Result<CachePage, TraceError>)
    requires
        decoded_ok(data@, decoded@),
        options.pattern@.len() > 0,
    ensures
        match requested(data@, decoded@, format, *options) {
            Ok(found) => if found.len() > u32::MAX {
                r matches Err(e) && is_invalid(e, too_many_matches_text())
            } else {
                r matches Ok(page) && is_page(page, found, options.offset, options.limit)
            },
            Err(fault) => r matches Err(e) && reports(e, fault),
        },
{
    let spans = trace_segments(data);
    let filter = SearchFilter {
        seq_range: options.seq_range,
        memory_range: options.memory_range,
    };
    let mut state = SearchState::new(options.pattern.as_slice());
    let mut any: bool = false;
    let mut matches: Vec<MemoryOccurrence> = Vec::new();
    let mut total: u64 = 0;
    let first: u64 = options.offset as u64;
    let end: u64 = options.offset as u64 + options.limit as u64;
    let ghost p = options.pattern@;
    let ghost mut m = replay_start();
    assert(matches@ =~= page_of(m.found, options.offset, options.limit));
    let mut i: usize = 0;
    while i < spans.len()
        invariant
            i <= spans@.len(),
            spans@.len() == segments(data@).len(),
            decoded_ok(data@, decoded@),
            forall|i: int|
                #![trigger spans@[i]]
                0 <= i < spans@.len() ==> spans@[i].0 <= spans@[i].1 <= data@.len() && spans@[i].0
                    == segments(data@)[i].0 && spans@[i].1 == segments(data@)[i].1,
            state.wf(),
            state.needle() == p,
            p == options.pattern@,
            filter == filter_of(*options),
            first == options.offset,
            end == options.offset + options.limit,
            replay_lines(data@, decoded@, format, p, filter, i as int) == Ok::<ReplayState, Fault>(
                m,
            ),
            m.mem == state.memory@,
            m.any == any,
            total == at_most(m.found.len() as int, u64::MAX as int),
            matches@ == page_of(m.found, options.offset, options.limit),
        decreases spans@.len() - i,
    {
        let span = spans[i];
        assert(spans@[i as int].0 <= spans@[i as int].1);
        let text = vstd::slice::slice_subrange(data, span.0, span.1);
        assert(text@ =~= line_text(data@, i as int));
        assert(decoded@[i as int] matches DecodedLine::Access(op) ==> op_ok(op));
        let mut batch: Vec<MemoryOccurrence> = Vec::new();
        match replay_one(
            &mut state,
            &mut any,
            text,
            &decoded[i],
            format,
            &filter,
            i,
            &mut batch,
            Ghost(m),
        ) {
            Ok(_) => {},
            Err(e) => {
                proof {
                    lemma_fault_stays(
                        data@,
                        decoded@,
                        format,
                        p,
                        filter,
                        i + 1,
                        spans@.len() as int,
                    );
                }
                return Err(e);
            },
        }
        let ghost next = replay_line(
            m,
            text@,
            decoded@[i as int],
            format,
            p,
            filter,
            i as int,
        )->Ok_0;
        assert(next.found =~= m.found + batch@);
        let mut k: usize = 0;
        assert(m.found + batch@.take(0) =~= m.found);
        while k < batch.len()
            invariant
                k <= batch@.len(),
                first == options.offset,
                end == options.offset + options.limit,
                total == at_most((m.found + batch@.take(k as int)).len() as int, u64::MAX as int),
                matches@ == page_of(
                    m.found + batch@.take(k as int),
                    options.offset,
                    options.limit,
                ),
            decreases batch@.len() - k,
        {
            let ghost so_far = m.found + batch@.take(k as int);
            let item: MemoryOccurrence = batch[k];
            assert(m.found + batch@.take(k + 1) =~= so_far.push(item));
            if total >= first && total < end {
                matches.push(item);
            }
            assert(matches@ =~= page_of(so_far.push(item), options.offset, options.limit));
            total = total.saturating_add(1);
            k += 1;
        }
        assert(batch@.take(batch@.len() as int) =~= batch@);
        proof {
            m = next;
        }
        i += 1;
    }
    if !any {
        return Err(parse_error(None, "trace contains no recognizable instruction line"));
    }
    if total > 0xFFFF_FFFF {
        return Err(invalid("too many memory search matches"));
    }
    Ok(CachePage { total: total as u32, matches, has_more: end < total })
}

/// The matches of a page with their bytes.
pub open spec fn is_result(r: MemorySearchResult, page: CachePage, o: MemorySearchOptions) -> bool {
    &&& r.total == page.total
    &&& r.offset == o.offset
    &&& r.limit == o.limit
    &&& r.has_more == page.has_more
    &&& r.matches@.len() == page.matches@.len()
    &&& forall|i: int|
        #![trigger r.matches@[i]]
        0 <= i < r.matches@.len() ==> {
            let hit = r.matches@[i];
            &&& hit.address == page.matches@[i].address
            &&& hit.seq == page.matches@[i].seq
            &&& hit.rw == page.matches@[i].rw
            &&& hit.size == o.pattern@.len()
            &&& hit.bytes@ == o.pattern@
        }
}

fn copy_bytes(bytes: &Vec<u8>) -> (r: Vec<u8>)
    ensures
        r@ == bytes@,
{
    let mut r: Vec<u8> = Vec::with_capacity(bytes.len());
    let mut i: usize = 0;
    while i < bytes.len()
        invariant
            i <= bytes@.len(),
            r@ =~= bytes@.take(i as int),
        decreases bytes@.len() - i,
    {
        r.push(bytes[i]);
        i += 1;
    }
    assert(r@ =~= bytes@);
    r
}

/// Gives the matches of a page their bytes.
pub fn paginate_page(page: CachePage, options: &MemorySearchOptions) -> (r: MemorySearchResult)
    requires
        options.pattern@.len() <= u32::MAX,
    ensures
        is_result(r, page, *options),
{
    let mut matches: Vec<MemorySearchMatch> = Vec::new();
    let mut i: usize = 0;
    while i < page.matches.len()
        invariant
            i <= page.matches@.len(),
            options.pattern@.len() <= u32::MAX,
            matches@.len() == i,
            forall|k: int|
                #![trigger matches@[k]]
                0 <= k < i ==> matches@[k].address == page.matches@[k].address && matches@[k].seq
                    == page.matches@[k].seq && matches@[k].rw == page.matches@[k].rw
                    && matches@[k].size == options.pattern@.len() && matches@[k].bytes@
                    == options.pattern@,
        decreases page.matches@.len() - i,
    {
        let item: MemoryOccurrence = page.matches[i];
        matches.push(
            MemorySearchMatch {
                address: item.address,
                seq: item.seq,
                size: options.pattern.len() as u32,
                bytes: copy_bytes(&options.pattern),
                rw: item.rw,
            },
        );
        i += 1;
    }
    MemorySearchResult {
        matches,
        total: page.total,
        offset: options.offset,
        limit: options.limit,
        has_more: page.has_more,
    }
}

/// Searches a trace for a pattern.
pub fn search_memory(
    data: &[u8],
    decoded: &Vec<DecodedLine>,
    format: TraceFormat,
    options: &MemorySearchOptions,
) -> (r: Result<MemorySearchResult, TraceError>)
    requires
        decoded_ok(data@, decoded@),
    ensures
        match options_fault(*options) {
            Some(text) => r matches Err(e) && is_invalid(e, text),
            None => match budget_fault(*options) {
                Some(text) => r matches Err(e) && is_invalid(e, text),
                None => match requested(data@, decoded@, format, *options) {
                    Err(fault) => r matches Err(e) && reports(e, fault),
                    Ok(found) => if found.len() > u32::MAX {
                        r matches Err(e) && is_invalid(e, too_many_matches_text())
                    } else {
                        r matches Ok(result) && exists|page: CachePage| #[trigger]
                            is_page(page, found, options.offset, options.limit) && is_result(
                                result,
                                page,
                                *options,
                            )
                    },
                },
            },
        },
{
    match validate_options(options) {
        Ok(_) => {},
        Err(e) => {
            return Err(e);
        },
    }
    match validate_public_response_budget(options) {
        Ok(_) => {},
        Err(e) => {
            return Err(e);
        },
    }
    match scan_memory_page(data, decoded, format, options) {
        Ok(page) => Ok(paginate_page(page, options)),
        Err(e) => Err(e),
    }
}

// ---------------------------------------------------------------------------
// Laws
// ---------------------------------------------------------------------------

/// Matches ascend by line, and by address within a line.
pub open spec fn keys_ascend(found: Seq<MemoryOccurrence>) -> bool {
    forall|i: int, j: int|
        #![trigger found[i], found[j]]
        0 <= i < j < found.len() ==> found[i].seq < found[j].seq || (found[i].seq == found[j].seq
            && found[i].address < found[j].address)
}

proof fn lemma_fresh_ascend(
    before: Bytes,
    after: Bytes,
    pattern: Seq<u8>,
    f: SearchFilter,
    seq: u32,
    rw: MemorySearchRw,
    low: int,
    high: int,
)
    requires
        0 <= low,
        high <= u64::MAX + 1,
    ensures
        keys_ascend(fresh_matches(before, after, pattern, f, seq, rw, low, high)),
        forall|i: int|
            #![trigger fresh_matches(before, after, pattern, f, seq, rw, low, high)[i]]
            0 <= i < fresh_matches(before, after, pattern, f, seq, rw, low, high).len() ==> {
                let hit = fresh_matches(before, after, pattern, f, seq, rw, low, high)[i];
                hit.seq == seq && hit.rw == rw && low <= hit.address < high
            },
    decreases high - low,
{
    if low < high {
        lemma_fresh_ascend(before, after, pattern, f, seq, rw, low, high - 1);
        let a = fresh_matches(before, after, pattern, f, seq, rw, low, high - 1);
        let b = fresh_matches(before, after, pattern, f, seq, rw, low, high);
        assert forall|i: int, j: int| #![trigger b[i], b[j]] 0 <= i < j < b.len() implies b[i].seq
            < b[j].seq || (b[i].seq == b[j].seq && b[i].address < b[j].address) by {
            assert(b[i] == a[i]);
            if j < a.len() {
                assert(b[j] == a[j]);
            }
        }
        assert forall|i: int| #![trigger b[i]] 0 <= i < b.len() implies b[i].seq == seq && b[i].rw
            == rw && low <= b[i].address < high by {
            if i < a.len() {
                assert(b[i] == a[i]);
            }
        }
    }
}

proof fn lemma_replay_ascends(
    data: Seq<u8>,
    decoded: Seq<DecodedLine>,
    format: TraceFormat,
    pattern: Seq<u8>,
    f: SearchFilter,
    n: int,
)
    requires
        replay_lines(data, decoded, format, pattern, f, n) is Ok,
        pattern.len() > 0,
    ensures
        keys_ascend(replay_lines(data, decoded, format, pattern, f, n)->Ok_0.found),
        forall|i: int|
            #![trigger replay_lines(data, decoded, format, pattern, f, n)->Ok_0.found[i]]
            0 <= i < replay_lines(data, decoded, format, pattern, f, n)->Ok_0.found.len()
                ==> replay_lines(data, decoded, format, pattern, f, n)->Ok_0.found[i].seq < n,
    decreases n,
{
    if n > 0 {
        lemma_replay_ascends(data, decoded, format, pattern, f, n - 1);
        let m = replay_lines(data, decoded, format, pattern, f, n - 1)->Ok_0;
        let next = replay_lines(data, decoded, format, pattern, f, n)->Ok_0;
        let more = line_matches(m.mem, decoded[n - 1], pattern, f, n - 1);
        if let DecodedLine::Access(op) = decoded[n - 1] {
            let values = expanded(op);
            lemma_fresh_ascend(
                m.mem,
                with_bytes(m.mem, op.abs, values, direction(op), values.len() as int),
                pattern,
                f,
                (n - 1) as u32,
                direction(op),
                low_end(op.abs, pattern),
                op.abs + values.len(),
            );
        }
        assert(next.found == m.found + more);
        assert forall|i: int, j: int|
            #![trigger next.found[i], next.found[j]]
            0 <= i < j < next.found.len() implies next.found[i].seq < next.found[j].seq || (
        next.found[i].seq == next.found[j].seq && next.found[i].address < next.found[j].address) by {
            if j < m.found.len() {
                assert(m.found[i] == next.found[i] && m.found[j] == next.found[j]);
            } else if i < m.found.len() {
                assert(m.found[i] == next.found[i]);
                assert(more[j - m.found.len()] == next.found[j]);
            } else {
                assert(more[i - m.found.len()] == next.found[i]);
                assert(more[j - m.found.len()] == next.found[j]);
            }
        }
        assert forall|i: int| #![trigger next.found[i]] 0 <= i < next.found.len() implies
            next.found[i].seq < n by {
            if i < m.found.len() {
                assert(m.found[i] == next.found[i]);
            } else {
                assert(more[i - m.found.len()] == next.found[i]);
            }
        }
    }
}

/// No match is reported twice: the matches of a search ascend strictly by line
/// and address.
pub proof fn law_matches_ascend(
    data: Seq<u8>,
    decoded: Seq<DecodedLine>,
    format: TraceFormat,
    o: MemorySearchOptions,
)
    requires
        requested(data, decoded, format, o) is Ok,
        o.pattern@.len() > 0,
    ensures
        keys_ascend(requested(data, decoded, format, o)->Ok_0),
{
    lemma_replay_ascends(
        data,
        decoded,
        format,
        o.pattern@,
        filter_of(o),
        segments(data).len() as int,
    );
}

} // verus!
