//! What a search finds, told by the accesses of the trace alone.

use crate::memory_search::expand::{expanded, ByteValue};
use crate::memory_search::request::{
    CachePage, MemoryOccurrence, MemorySearchOptions, MemorySearchResult, MemorySearchRw,
};
use crate::memory_search::scan::{
    direction, filter_of, is_page, is_result, line_matches, line_text, malformed_text, marked,
    not_utf8_text, nothing_recognized_text, overflow_text, replay_lines, requested, segments,
    segments_from, too_many_lines_text, DecodedLine, Fault,
};
use crate::memory_search::state::{
    byte_matches, fresh_matches, low_end, matches_at, wanted, with_bytes, Bytes,
    SearchFilter,
};
use crate::scanner::lines::{lemma_line_break_bounds, line_break, text_end, NEWLINE, RETURN};
use crate::types::TraceFormat;
use vstd::prelude::*;
use vstd::utf8::*;

verus! {

/// What a line tells of a byte: nothing, that it is no longer known, or its
/// value.
pub enum Told {
    Nothing,
    Lost,
    Value(u8),
}

pub open spec fn told(line: DecodedLine, at: u64) -> Told {
    match line {
        DecodedLine::Access(op) => {
            let shown = expanded(op);
            if op.abs <= at < op.abs + shown.len() {
                let byte = shown[at - op.abs];
                if byte.known {
                    Told::Value(byte.value)
                } else if op.is_write {
                    Told::Lost
                } else {
                    Told::Nothing
                }
            } else {
                Told::Nothing
            }
        },
        _ => Told::Nothing,
    }
}

/// A byte before line `n`: what the last line that tells of it says.
pub open spec fn byte_before(decoded: Seq<DecodedLine>, n: int, at: u64) -> Option<u8>
    decreases n,
{
    if n <= 0 {
        None
    } else {
        match told(decoded[n - 1], at) {
            Told::Value(v) => Some(v),
            Told::Lost => None,
            Told::Nothing => byte_before(decoded, n - 1, at),
        }
    }
}

/// The pattern stands at an address before line `n`.
pub open spec fn stands_before(
    decoded: Seq<DecodedLine>,
    n: int,
    start: u64,
    pattern: Seq<u8>,
) -> bool {
    forall|o: int|
        0 <= o < pattern.len() ==> #[trigger] byte_stands(decoded, n, start, pattern, o)
}

/// Byte `o` of the pattern stands at its place before line `n`.
pub open spec fn byte_stands(
    decoded: Seq<DecodedLine>,
    n: int,
    start: u64,
    pattern: Seq<u8>,
    o: int,
) -> bool {
    start + o <= u64::MAX && byte_before(decoded, n, (start + o) as u64) == Some(pattern[o])
}

/// The pattern comes to stand at an address at line `i`.
pub open spec fn appears(
    decoded: Seq<DecodedLine>,
    i: int,
    start: u64,
    pattern: Seq<u8>,
) -> bool {
    stands_before(decoded, i + 1, start, pattern) && !stands_before(decoded, i, start, pattern)
}

/// The request asks for matches of this address and line.
pub open spec fn asked_for(o: MemorySearchOptions, start: u64, line: int) -> bool {
    &&& o.seq_range matches Some((first, last)) ==> first <= line <= last
    &&& o.memory_range matches Some((first, end)) ==> first <= start && start + o.pattern@.len()
        <= end
}

proof fn lemma_with_bytes(
    mem: Bytes,
    abs: u64,
    values: Seq<ByteValue>,
    rw: MemorySearchRw,
    n: int,
    at: u64,
)
    requires
        0 <= n <= values.len(),
        abs + values.len() <= u64::MAX + 1,
    ensures
        ({
            let after = with_bytes(mem, abs, values, rw, n);
            if abs <= at < abs + n && values[at - abs].known {
                after.contains_key(at) && after[at] == values[at - abs].value
            } else if abs <= at < abs + n && rw == MemorySearchRw::Write {
                !after.contains_key(at)
            } else {
                after.contains_key(at) == mem.contains_key(at) && after[at] == mem[at]
            }
        }),
    decreases n,
{
    if n > 0 {
        lemma_with_bytes(mem, abs, values, rw, n - 1, at);
    }
}

proof fn lemma_memory(
    data: Seq<u8>,
    decoded: Seq<DecodedLine>,
    format: TraceFormat,
    pattern: Seq<u8>,
    f: SearchFilter,
    n: int,
    at: u64,
)
    requires
        replay_lines(data, decoded, format, pattern, f, n) is Ok,
    ensures
        ({
            let mem = replay_lines(data, decoded, format, pattern, f, n)->Ok_0.mem;
            byte_before(decoded, n, at) == (if mem.contains_key(at) {
                Some(mem[at])
            } else {
                None
            })
        }),
    decreases n,
{
    if n > 0 {
        lemma_memory(data, decoded, format, pattern, f, n - 1, at);
        let m = replay_lines(data, decoded, format, pattern, f, n - 1)->Ok_0;
        if let DecodedLine::Access(op) = decoded[n - 1] {
            let values = expanded(op);
            lemma_with_bytes(m.mem, op.abs, values, direction(op), values.len() as int, at);
        }
    }
}

proof fn lemma_stands(
    data: Seq<u8>,
    decoded: Seq<DecodedLine>,
    format: TraceFormat,
    pattern: Seq<u8>,
    f: SearchFilter,
    n: int,
    start: u64,
)
    requires
        replay_lines(data, decoded, format, pattern, f, n) is Ok,
    ensures
        stands_before(decoded, n, start, pattern) == matches_at(
            replay_lines(data, decoded, format, pattern, f, n)->Ok_0.mem,
            start,
            pattern,
        ),
{
    let mem = replay_lines(data, decoded, format, pattern, f, n)->Ok_0.mem;
    assert forall|o: int| 0 <= o < pattern.len() implies #[trigger] byte_stands(
        decoded,
        n,
        start,
        pattern,
        o,
    ) == byte_matches(mem, start, pattern, o) by {
        lemma_memory(data, decoded, format, pattern, f, n, (start + o) as u64);
    }
    if stands_before(decoded, n, start, pattern) {
        assert forall|o: int| 0 <= o < pattern.len() implies #[trigger] byte_matches(
            mem,
            start,
            pattern,
            o,
        ) by {
            assert(byte_stands(decoded, n, start, pattern, o));
        }
    }
    if matches_at(mem, start, pattern) {
        assert forall|o: int| 0 <= o < pattern.len() implies #[trigger] byte_stands(
            decoded,
            n,
            start,
            pattern,
            o,
        ) by {
            assert(byte_matches(mem, start, pattern, o));
        }
    }
}

/// An access leaves alone what lies beside it.
proof fn lemma_beside(
    mem: Bytes,
    abs: u64,
    values: Seq<ByteValue>,
    rw: MemorySearchRw,
    pattern: Seq<u8>,
    start: u64,
)
    requires
        abs + values.len() <= u64::MAX + 1,
        pattern.len() > 0,
        start < low_end(abs, pattern) || start >= abs + values.len(),
    ensures
        ({
            let after = with_bytes(mem, abs, values, rw, values.len() as int);
            matches_at(after, start, pattern) == matches_at(mem, start, pattern)
        }),
{
    let after = with_bytes(mem, abs, values, rw, values.len() as int);
    assert forall|o: int| 0 <= o < pattern.len() implies byte_matches(after, start, pattern, o)
        == byte_matches(mem, start, pattern, o) by {
        lemma_with_bytes(mem, abs, values, rw, values.len() as int, (start + o) as u64);
    }
    if matches_at(mem, start, pattern) {
        assert forall|o: int| 0 <= o < pattern.len() implies #[trigger] byte_matches(
            after,
            start,
            pattern,
            o,
        ) by {
            assert(byte_matches(mem, start, pattern, o));
        }
    }
    if matches_at(after, start, pattern) {
        assert forall|o: int| 0 <= o < pattern.len() implies #[trigger] byte_matches(
            mem,
            start,
            pattern,
            o,
        ) by {
            assert(byte_matches(after, start, pattern, o));
        }
    }
}

proof fn lemma_fresh_members(
    before: Bytes,
    after: Bytes,
    pattern: Seq<u8>,
    f: SearchFilter,
    seq: u32,
    rw: MemorySearchRw,
    low: int,
    high: int,
    x: MemoryOccurrence,
)
    requires
        0 <= low,
        high <= u64::MAX + 1,
    ensures
        fresh_matches(before, after, pattern, f, seq, rw, low, high).contains(x) <==> {
            &&& x.seq == seq
            &&& x.rw == rw
            &&& low <= x.address < high
            &&& matches_at(after, x.address, pattern)
            &&& !matches_at(before, x.address, pattern)
            &&& wanted(f, pattern.len(), x.address, seq)
        },
    decreases high - low,
{
    let all = fresh_matches(before, after, pattern, f, seq, rw, low, high);
    if low < high {
        lemma_fresh_members(before, after, pattern, f, seq, rw, low, high - 1, x);
        let earlier = fresh_matches(before, after, pattern, f, seq, rw, low, high - 1);
        if all.len() > earlier.len() {
            assert(all.drop_last() =~= earlier);
            assert(all[all.len() - 1] == all.last());
            if earlier.contains(x) {
                let k = choose|k: int| 0 <= k < earlier.len() && earlier[k] == x;
                assert(all[k] == x);
            }
            if all.contains(x) && x != all.last() {
                let k = choose|k: int| 0 <= k < all.len() && all[k] == x;
                assert(earlier[k] == x);
            }
        }
    }
}

proof fn lemma_found(
    data: Seq<u8>,
    decoded: Seq<DecodedLine>,
    format: TraceFormat,
    pattern: Seq<u8>,
    f: SearchFilter,
    n: int,
    x: MemoryOccurrence,
)
    requires
        replay_lines(data, decoded, format, pattern, f, n) is Ok,
        pattern.len() > 0,
    ensures
        replay_lines(data, decoded, format, pattern, f, n)->Ok_0.found.contains(x) <==> {
            &&& x.seq < n
            &&& decoded[x.seq as int] matches DecodedLine::Access(op) && x.rw == direction(op)
            &&& appears(decoded, x.seq as int, x.address, pattern)
            &&& wanted(f, pattern.len(), x.address, x.seq)
        },
    decreases n,
{
    if n > 0 {
        lemma_found(data, decoded, format, pattern, f, n - 1, x);
        lemma_stands(data, decoded, format, pattern, f, n - 1, x.address);
        lemma_stands(data, decoded, format, pattern, f, n, x.address);
        let m = replay_lines(data, decoded, format, pattern, f, n - 1)->Ok_0;
        let line = decoded[n - 1];
        let more = line_matches(m.mem, line, pattern, f, n - 1);
        let all = m.found + more;
        if m.found.contains(x) {
            let k = choose|k: int| 0 <= k < m.found.len() && m.found[k] == x;
            assert(all[k] == x);
        }
        if more.contains(x) {
            let k = choose|k: int| 0 <= k < more.len() && more[k] == x;
            assert(all[m.found.len() + k] == x);
        }
        if all.contains(x) && !m.found.contains(x) {
            let k = choose|k: int| 0 <= k < all.len() && all[k] == x;
            if k < m.found.len() {
                assert(m.found[k] == x);
            }
            assert(more[k - m.found.len()] == x);
        }
        if let DecodedLine::Access(op) = line {
            let values = expanded(op);
            let rw = direction(op);
            let low = low_end(op.abs, pattern);
            let after = with_bytes(m.mem, op.abs, values, rw, values.len() as int);
            lemma_fresh_members(
                m.mem,
                after,
                pattern,
                f,
                (n - 1) as u32,
                rw,
                low,
                op.abs + values.len(),
                x,
            );
            if x.address < low || x.address >= op.abs + values.len() {
                lemma_beside(m.mem, op.abs, values, rw, pattern, x.address);
            }
        }
    }
}

/// A search finds the pattern wherever in memory it comes to stand, at the line
/// at which it does, and nothing else. A match is that of the access at this
/// line, and is left out only where the request does not ask for it.
pub proof fn law_a_match_is_where_the_pattern_appears(
    data: Seq<u8>,
    decoded: Seq<DecodedLine>,
    format: TraceFormat,
    o: MemorySearchOptions,
    address: u64,
    line: u32,
)
    requires
        requested(data, decoded, format, o) is Ok,
        o.pattern@.len() > 0,
        line < segments(data).len(),
    ensures
        ({
            let found = requested(data, decoded, format, o)->Ok_0;
            let write = MemoryOccurrence { address, seq: line, rw: MemorySearchRw::Write };
            let read = MemoryOccurrence { address, seq: line, rw: MemorySearchRw::Read };
            &&& (found.contains(write) || found.contains(read)) <==> appears(
                decoded,
                line as int,
                address,
                o.pattern@,
            ) && asked_for(o, address, line as int)
            &&& found.contains(write) ==> decoded[line as int] is Access
                && decoded[line as int]->Access_0.is_write
            &&& found.contains(read) ==> decoded[line as int] is Access
                && !decoded[line as int]->Access_0.is_write
        }),
{
    let n = segments(data).len() as int;
    let write = MemoryOccurrence { address, seq: line, rw: MemorySearchRw::Write };
    let read = MemoryOccurrence { address, seq: line, rw: MemorySearchRw::Read };
    lemma_found(data, decoded, format, o.pattern@, filter_of(o), n, write);
    lemma_found(data, decoded, format, o.pattern@, filter_of(o), n, read);
    if appears(decoded, line as int, address, o.pattern@) {
        lemma_only_accesses_change(decoded, line as int, address, o.pattern@);
    }
}

/// Only an access can make a pattern appear.
proof fn lemma_only_accesses_change(
    decoded: Seq<DecodedLine>,
    i: int,
    start: u64,
    pattern: Seq<u8>,
)
    requires
        0 <= i,
        appears(decoded, i, start, pattern),
    ensures
        decoded[i] is Access,
{
    if !(decoded[i] is Access) {
        assert forall|o: int| 0 <= o < pattern.len() implies #[trigger] byte_stands(
            decoded,
            i,
            start,
            pattern,
            o,
        ) by {
            assert(byte_stands(decoded, i + 1, start, pattern, o));
        }
    }
}

/// No match lies beyond the lines of the trace.
pub proof fn law_matches_lie_in_the_trace(
    data: Seq<u8>,
    decoded: Seq<DecodedLine>,
    format: TraceFormat,
    o: MemorySearchOptions,
)
    requires
        requested(data, decoded, format, o) is Ok,
        o.pattern@.len() > 0,
    ensures
        forall|k: int|
            #![trigger requested(data, decoded, format, o)->Ok_0[k]]
            0 <= k < requested(data, decoded, format, o)->Ok_0.len() ==> requested(
                data,
                decoded,
                format,
                o,
            )->Ok_0[k].seq < segments(data).len(),
{
    let n = segments(data).len() as int;
    let found = requested(data, decoded, format, o)->Ok_0;
    assert forall|k: int| #![trigger found[k]] 0 <= k < found.len() implies found[k].seq < n by {
        assert(found.contains(found[k]));
        lemma_found(data, decoded, format, o.pattern@, filter_of(o), n, found[k]);
    }
}

// ---------------------------------------------------------------------------
// Faults
// ---------------------------------------------------------------------------

/// What is wrong with a line.
pub open spec fn line_fault(
    data: Seq<u8>,
    decoded: Seq<DecodedLine>,
    format: TraceFormat,
    i: int,
) -> Option<Fault> {
    if i > u32::MAX {
        Some((None, too_many_lines_text()))
    } else if !valid_utf8(line_text(data, i)) {
        Some((Some(i as u32), not_utf8_text()))
    } else {
        match decoded[i] {
            DecodedLine::Access(op) => if op.abs + expanded(op).len() > u64::MAX + 1 {
                Some((Some(i as u32), overflow_text()))
            } else {
                None
            },
            _ => if marked(line_text(data, i), format) {
                Some((Some(i as u32), malformed_text()))
            } else {
                None
            },
        }
    }
}

/// No line before `n` is at fault.
pub open spec fn no_fault(
    data: Seq<u8>,
    decoded: Seq<DecodedLine>,
    format: TraceFormat,
    n: int,
) -> bool {
    forall|i: int| 0 <= i < n ==> #[trigger] line_fault(data, decoded, format, i) is None
}

proof fn lemma_replay_ok(
    data: Seq<u8>,
    decoded: Seq<DecodedLine>,
    format: TraceFormat,
    pattern: Seq<u8>,
    f: SearchFilter,
    n: int,
)
    requires
        no_fault(data, decoded, format, n),
    ensures
        replay_lines(data, decoded, format, pattern, f, n) matches Ok(m) && (m.any <==> exists|i: int|
            0 <= i < n && !(#[trigger] decoded[i] is Other)),
    decreases n,
{
    if n > 0 {
        assert(line_fault(data, decoded, format, n - 1) is None);
        lemma_replay_ok(data, decoded, format, pattern, f, n - 1);
        let m = replay_lines(data, decoded, format, pattern, f, n - 1)->Ok_0;
        if m.any {
            let i = choose|i: int| 0 <= i < n - 1 && !(#[trigger] decoded[i] is Other);
            assert(!(decoded[i] is Other));
        }
    }
}

proof fn lemma_replay_stops(
    data: Seq<u8>,
    decoded: Seq<DecodedLine>,
    format: TraceFormat,
    pattern: Seq<u8>,
    f: SearchFilter,
    i: int,
    n: int,
)
    requires
        0 <= i < n,
        no_fault(data, decoded, format, i),
        line_fault(data, decoded, format, i) is Some,
    ensures
        replay_lines(data, decoded, format, pattern, f, n) matches Err(e) && Some(e)
            == line_fault(data, decoded, format, i),
    decreases n,
{
    if i < n - 1 {
        lemma_replay_stops(data, decoded, format, pattern, f, i, n - 1);
    } else {
        lemma_replay_ok(data, decoded, format, pattern, f, i);
    }
}

/// A search fails at the first line that is at fault, and succeeds if none is
/// and some line holds an instruction.
pub proof fn law_a_search_fails_at_the_first_fault(
    data: Seq<u8>,
    decoded: Seq<DecodedLine>,
    format: TraceFormat,
    o: MemorySearchOptions,
    i: int,
)
    ensures
        0 <= i < segments(data).len() && no_fault(data, decoded, format, i) && line_fault(
            data,
            decoded,
            format,
            i,
        ) is Some ==> (requested(data, decoded, format, o) matches Err(e) && Some(e)
            == line_fault(data, decoded, format, i)),
        no_fault(data, decoded, format, segments(data).len() as int) ==> {
            &&& (exists|k: int|
                0 <= k < segments(data).len() && !(#[trigger] decoded[k] is Other))
                ==> requested(data, decoded, format, o) is Ok
            &&& (forall|k: int|
                0 <= k < segments(data).len() ==> #[trigger] decoded[k] is Other) ==> requested(
                data,
                decoded,
                format,
                o,
            ) == Err::<Seq<MemoryOccurrence>, Fault>((None, nothing_recognized_text()))
        },
{
    let n = segments(data).len() as int;
    let f = filter_of(o);
    if 0 <= i < n && no_fault(data, decoded, format, i) && line_fault(
        data,
        decoded,
        format,
        i,
    ) is Some {
        lemma_replay_stops(data, decoded, format, o.pattern@, f, i, n);
    }
    if no_fault(data, decoded, format, n) {
        lemma_replay_ok(data, decoded, format, o.pattern@, f, n);
    }
}

// ---------------------------------------------------------------------------
// Lines and pages
// ---------------------------------------------------------------------------

proof fn lemma_segments(data: Seq<u8>, pos: int)
    requires
        0 <= pos <= data.len(),
    ensures
        ({
            let s = segments_from(data, pos);
            &&& s.len() > 0
            &&& s[0].0 == pos
            &&& forall|i: int|
                #![trigger s[i]]
                0 <= i < s.len() ==> is_line(data, s[i].0, s[i].1, i == s.len() - 1)
            &&& forall|i: int|
                #![trigger s[i]]
                0 < i < s.len() ==> s[i].0 > 0 && data[s[i].0 - 1] == NEWLINE && (s[i - 1].1
                    == s[i].0 - 1 || s[i - 1].1 == s[i].0 - 2 && data[s[i].0 - 2] == RETURN)
        }),
    decreases data.len() + 1 - pos,
{
    lemma_line_break_bounds(data, pos);
    let brk = line_break(data, pos);
    lemma_no_break(data, pos);
    let s = segments_from(data, pos);
    assert(is_line(data, pos, text_end(data, pos, brk), brk == data.len()));
    if brk < data.len() {
        lemma_segments(data, brk + 1);
        let rest = segments_from(data, brk + 1);
        assert forall|i: int| #![trigger s[i]] 0 <= i < s.len() implies is_line(
            data,
            s[i].0,
            s[i].1,
            i == s.len() - 1,
        ) by {
            if i > 0 {
                assert(s[i] == rest[i - 1]);
            }
        }
        assert forall|i: int| #![trigger s[i]] 0 < i < s.len() implies s[i].0 > 0 && data[s[i].0
            - 1] == NEWLINE && (s[i - 1].1 == s[i].0 - 1 || s[i - 1].1 == s[i].0 - 2 && data[s[i].0
            - 2] == RETURN) by {
            assert(s[i] == rest[i - 1]);
            if i > 1 {
                assert(s[i - 1] == rest[i - 2]);
            }
        }
    }
}

/// A stretch without a line feed, which ends at one or at the end of the data;
/// a carriage return before that is left out.
pub open spec fn is_line(data: Seq<u8>, start: int, end: int, last: bool) -> bool {
    &&& 0 <= start <= end <= data.len()
    &&& forall|k: int| #![trigger data[k]] start <= k < end ==> data[k] != NEWLINE
    &&& ({
        let brk = if end < data.len() && data[end] == RETURN && (end + 1 == data.len() || data[end
            + 1] == NEWLINE) {
            end + 1
        } else {
            end
        };
        if last {
            brk == data.len()
        } else {
            brk < data.len() && data[brk] == NEWLINE
        }
    })
}

proof fn lemma_no_break(data: Seq<u8>, pos: int)
    requires
        0 <= pos <= data.len(),
    ensures
        forall|k: int|
            #![trigger data[k]]
            pos <= k < line_break(data, pos) ==> data[k] != NEWLINE,
        line_break(data, pos) < data.len() ==> data[line_break(data, pos)] == NEWLINE,
        pos <= line_break(data, pos) <= data.len(),
    decreases data.len() - pos,
{
    if pos < data.len() && data[pos] != NEWLINE {
        lemma_no_break(data, pos + 1);
    }
}

/// The lines of a trace are the stretches between its line feeds, from the first
/// byte on, each following the one before.
pub proof fn law_lines_lie_between_line_feeds(data: Seq<u8>, i: int)
    requires
        0 <= i < segments(data).len(),
    ensures
        segments(data)[0].0 == 0,
        is_line(data, segments(data)[i].0, segments(data)[i].1, i == segments(data).len() - 1),
        i > 0 ==> data[segments(data)[i].0 - 1] == NEWLINE && (segments(data)[i - 1].1 == segments(
            data,
        )[i].0 - 1 || segments(data)[i - 1].1 == segments(data)[i].0 - 2 && data[segments(
            data,
        )[i].0 - 2] == RETURN),
{
    lemma_segments(data, 0);
    let s = segments(data)[i];
}

/// A result shows the matches from its offset on, as many as its limit allows,
/// and says how many there are in all and whether more follow.
pub proof fn law_a_result_shows_its_page(
    r: MemorySearchResult,
    page: CachePage,
    all: Seq<MemoryOccurrence>,
    o: MemorySearchOptions,
    i: int,
)
    requires
        is_page(page, all, o.offset, o.limit),
        is_result(r, page, o),
    ensures
        r.total == all.len(),
        r.offset == o.offset,
        r.limit == o.limit,
        r.has_more <==> o.offset + o.limit < all.len(),
        r.matches@.len() <= o.limit,
        0 <= i < o.limit && o.offset + i < all.len() <==> 0 <= i < r.matches@.len(),
        0 <= i < r.matches@.len() ==> {
            let hit = r.matches@[i];
            let item = all[o.offset + i];
            hit.address == item.address && hit.seq == item.seq && hit.rw == item.rw
                && hit.bytes@ == o.pattern@ && hit.size == o.pattern@.len()
        },
{
}

} // verus!
