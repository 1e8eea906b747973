//! What memory and registers are at a line, told by the accesses and lines
//! alone.

use crate::bytes::{hex_digit, le64};
use crate::engine::memory::{
    count_before, history_page, in_line_order, index_in_order, is_meta, is_snapshot, latest,
    shown_byte, shown_from, shows_access, shows_accesses, value_byte, MemHistoryMeta,
    MemHistoryRecord, MemorySnapshot,
};
use crate::engine::registers::{
    after_lines, hex_char_value, hex_value, values_at, with_values,
};
use crate::engine::session::LineFact;
use crate::query::mem_access::{accesses_at, MemAccessRecord, MemRw};
use crate::query::registers::{nearest_slot, RegCheckpoints};
use crate::text::{address_text, number_text, padding, wide_text};
use crate::types::{RegId, REG_COUNT};
use vstd::prelude::*;

verus! {

// ---------------------------------------------------------------------------
// Memory
// ---------------------------------------------------------------------------

/// Access `j` of those that start at an address is the last of them at or
/// before a line.
pub open spec fn last_access(
    m: Map<u64, Seq<MemAccessRecord>>,
    start: u64,
    j: int,
    seq: u32,
) -> bool {
    &&& m.contains_key(start)
    &&& 0 <= j < m[start].len()
    &&& m[start][j].seq <= seq
    &&& forall|k: int| #![trigger m[start][k]] j < k < m[start].len() ==> m[start][k].seq > seq
}

/// The last access at or before a line of those that start at an address, and
/// it covers a byte that lies at most seven bytes above.
pub open spec fn covers(
    m: Map<u64, Seq<MemAccessRecord>>,
    start: u64,
    j: int,
    seq: u32,
    at: u64,
) -> bool {
    &&& last_access(m, start, j, seq)
    &&& start <= at < start + m[start][j].size
    &&& at - start < 8
}

proof fn lemma_count(records: Seq<MemAccessRecord>, limit: int)
    requires
        in_line_order(records),
    ensures
        0 <= count_before(records, limit) <= records.len(),
        forall|i: int|
            #![trigger records[i]]
            0 <= i < records.len() ==> (records[i].seq < limit <==> i < count_before(
                records,
                limit,
            )),
    decreases records.len(),
{
    if records.len() > 0 {
        let rest = records.drop_last();
        let last = records.len() - 1;
        if records[last].seq < limit {
            assert forall|i: int| #![trigger records[i]] 0 <= i < records.len() implies records[i].seq
                < limit by {
                assert(records[i].seq <= records[last].seq);
            }
        } else {
            assert(in_line_order(rest)) by {
                assert forall|i: int, j: int|
                    #![trigger rest[i], rest[j]]
                    0 <= i <= j < rest.len() implies rest[i].seq <= rest[j].seq by {
                    assert(records[i].seq <= records[j].seq);
                }
            }
            lemma_count(rest, limit);
            assert forall|i: int| #![trigger records[i]] 0 <= i < records.len() implies (
            records[i].seq < limit <==> i < count_before(records, limit)) by {
                if i < last {
                    assert(rest[i] == records[i]);
                }
            }
        }
    }
}

proof fn lemma_latest(m: Map<u64, Seq<MemAccessRecord>>, start: u64, seq: u32)
    requires
        index_in_order(m),
    ensures
        match latest(accesses_at(m, start), seq) {
            Some(r) => exists|j: int|
                #![trigger m[start][j]]
                last_access(m, start, j, seq) && m[start][j] == r,
            None => forall|j: int| !#[trigger] last_access(m, start, j, seq),
        },
        forall|j: int|
            #[trigger] last_access(m, start, j, seq) ==> latest(accesses_at(m, start), seq)
                == Some(m[start][j]),
{
    if m.contains_key(start) {
        let records = m[start];
        lemma_count(records, seq + 1);
        let n = count_before(records, seq + 1);
        if n > 0 {
            assert(records[n - 1].seq <= seq);
            assert(last_access(m, start, n - 1, seq));
        }
        assert forall|j: int| #[trigger] last_access(m, start, j, seq) implies j == n - 1 by {
            assert(records[j].seq <= seq);
            if j < n - 1 {
                assert(records[n - 1].seq > seq);
            }
        }
    }
}

proof fn lemma_value_byte(data: u64, k: u64)
    requires
        k < 8,
    ensures
        value_byte(data, k) == le64(data)[k as int],
{
    assert(data >> 0u64 == data) by (bit_vector);
}

/// The byte is that of an access which covers it and is at least as late as any
/// other that does.
spec fn rightly_shown(
    m: Map<u64, Seq<MemAccessRecord>>,
    at: u64,
    seq: u32,
    n: int,
    best: (u32, u8),
    k: int,
    j: int,
) -> bool {
    let start = (at - k) as u64;
    &&& 0 <= k < n
    &&& k <= at
    &&& covers(m, start, j, seq, at)
    &&& best.0 == m[start][j].seq
    &&& best.1 == le64(m[start][j].data)[k]
    &&& forall|k2: int, j2: int|
        0 <= k2 < n && k2 <= at && #[trigger] covers(m, (at - k2) as u64, j2, seq, at)
            ==> m[(at - k2) as u64][j2].seq < best.0 || m[(at - k2) as u64][j2].seq == best.0 && k
            <= k2
}

proof fn lemma_shown(m: Map<u64, Seq<MemAccessRecord>>, at: u64, seq: u32, n: int)
    requires
        index_in_order(m),
        0 <= n <= 8,
    ensures
        match shown_byte(m, at, seq, n) {
            Some(best) => exists|k: int, j: int| #[trigger]
                rightly_shown(m, at, seq, n, best, k, j),
            None => forall|k: int, j: int|
                0 <= k < n && k <= at ==> !#[trigger] covers(m, (at - k) as u64, j, seq, at),
        },
    decreases n,
{
    if n > 0 {
        lemma_shown(m, at, seq, n - 1);
        let k = n - 1;
        if k <= at {
            let start = (at - k) as u64;
            lemma_latest(m, start, seq);
            lemma_value_byte(
                if latest(accesses_at(m, start), seq) is Some {
                    latest(accesses_at(m, start), seq)->0.data
                } else {
                    0
                },
                k as u64,
            );
            let closer = shown_byte(m, at, seq, n - 1);
            match shown_from(m, at, k as u64, seq) {
                Some(here) => {
                    let r = latest(accesses_at(m, start), seq)->0;
                    let j = choose|j: int|
                        #![trigger m[start][j]]
                        last_access(m, start, j, seq) && m[start][j] == r;
                    assert(covers(m, start, j, seq, at));
                    assert forall|j2: int| #[trigger] covers(m, start, j2, seq, at) implies
                        m[start][j2] == r by {
                        assert(last_access(m, start, j2, seq));
                    }
                    match closer {
                        Some(best) => {
                            let (k1, j1) = choose|k1: int, j1: int| #[trigger]
                                rightly_shown(m, at, seq, n - 1, best, k1, j1);
                            if here.0 > best.0 {
                                assert(rightly_shown(m, at, seq, n, here, k, j));
                            } else {
                                assert(rightly_shown(m, at, seq, n, best, k1, j1));
                            }
                        },
                        None => {
                            assert(rightly_shown(m, at, seq, n, here, k, j));
                        },
                    }
                },
                None => {
                    assert forall|j2: int| !#[trigger] covers(m, start, j2, seq, at) by {
                        if covers(m, start, j2, seq, at) {
                            assert(last_access(m, start, j2, seq));
                        }
                    }
                    if let Some(best) = closer {
                        let (k1, j1) = choose|k1: int, j1: int| #[trigger]
                            rightly_shown(m, at, seq, n - 1, best, k1, j1);
                        assert(rightly_shown(m, at, seq, n, best, k1, j1));
                    }
                },
            }
        } else if let Some(best) = shown_byte(m, at, seq, n - 1) {
            let (k1, j1) = choose|k1: int, j1: int| #[trigger]
                rightly_shown(m, at, seq, n - 1, best, k1, j1);
            assert(rightly_shown(m, at, seq, n, best, k1, j1));
        }
    }
}

/// The byte shown comes from access `j` at `start`, and no last access of any
/// other start that covers the byte is later.
pub open spec fn shown_rightly(
    m: Map<u64, Seq<MemAccessRecord>>,
    start: u64,
    j: int,
    seq: u32,
    at: u64,
    byte: u8,
) -> bool {
    &&& covers(m, start, j, seq, at)
    &&& byte == le64(m[start][j].data)[at - start]
    &&& forall|other: u64, k: int| #[trigger]
        covers(m, other, k, seq, at) ==> m[other][k].seq < m[start][j].seq || m[other][k].seq
            == m[start][j].seq && other <= start
}

/// A snapshot shows 16 bytes around the address or more. A byte is known exactly
/// if the last access at or before the line from some start up to seven bytes
/// below covers it, and then it is the byte of the latest such access.
pub proof fn law_a_snapshot_shows_the_latest_accesses(
    s: MemorySnapshot,
    m: Map<u64, Seq<MemAccessRecord>>,
    addr: u64,
    seq: u32,
    length: u32,
    base: u64,
    i: int,
)
    requires
        is_snapshot(s, m, addr, seq, length),
        index_in_order(m),
        base % 16 == 0,
        base <= addr < base + 16,
        0 <= i < s.bytes@.len(),
        base + i <= u64::MAX,
    ensures
        s.base_addr@ == address_text(base),
        s.bytes@.len() == s.known@.len() == s.length,
        s.length >= 16 && s.length >= length && (s.length == 16 || s.length == length),
        s.known@[i] <==> exists|start: u64, j: int| #[trigger]
            covers(m, start, j, seq, (base + i) as u64),
        s.known@[i] ==> exists|start: u64, j: int| #[trigger]
            shown_rightly(m, start, j, seq, (base + i) as u64, s.bytes@[i]),
        !s.known@[i] ==> s.bytes@[i] == 0,
{
    let at = (base + i) as u64;
    assert(base == addr - addr % 16);
    lemma_shown(m, at, seq, 8);
    match shown_byte(m, at, seq, 8) {
        Some(best) => {
            let (k, j) = choose|k: int, j: int| #[trigger]
                rightly_shown(m, at, seq, 8, best, k, j);
            let start = (at - k) as u64;
            assert forall|other: u64, k2: int| #[trigger]
                covers(m, other, k2, seq, at) implies m[other][k2].seq < m[start][j].seq
                || m[other][k2].seq == m[start][j].seq && other <= start by {
                assert(other == (at - (at - other)) as u64);
            }
            assert(shown_rightly(m, start, j, seq, at, s.bytes@[i]));
        },
        None => {
            assert forall|start: u64, j: int| !#[trigger] covers(m, start, j, seq, at) by {
                if covers(m, start, j, seq, at) {
                    assert(start == (at - (at - start)) as u64);
                }
            }
        },
    }
}

// ---------------------------------------------------------------------------
// Registers
// ---------------------------------------------------------------------------

/// The line shows the register, last with that value.
pub open spec fn shows_value(fact: LineFact, reg: RegId, value: u64) -> bool {
    exists|k: int|
        #![trigger fact.reg_values@[k]]
        0 <= k < fact.reg_values@.len() && fact.reg_values@[k] == (reg, value) && forall|j: int|
            #![trigger fact.reg_values@[j]]
            k < j < fact.reg_values@.len() ==> fact.reg_values@[j].0 != reg
}

/// The line does not show the register.
pub open spec fn silent(fact: LineFact, reg: RegId) -> bool {
    forall|k: int|
        #![trigger fact.reg_values@[k]]
        0 <= k < fact.reg_values@.len() ==> fact.reg_values@[k].0 != reg
}

/// No line from `first` to before `end` shows the register.
pub open spec fn all_silent(facts: Seq<LineFact>, first: int, end: int, reg: RegId) -> bool {
    forall|i: int|
        #![trigger facts[i]]
        first <= i < end && i < facts.len() ==> silent(facts[i], reg)
}

proof fn lemma_with_values(values: Seq<u64>, changes: Seq<(RegId, u64)>, reg: RegId, k: int)
    requires
        reg.0 < values.len(),
        -1 <= k < changes.len(),
        k >= 0 ==> changes[k].0 == reg,
        forall|j: int|
            #![trigger changes[j]]
            k < j < changes.len() ==> changes[j].0 != reg,
    ensures
        with_values(values, changes).len() == values.len(),
        with_values(values, changes)[reg.0 as int] == (if k >= 0 {
            changes[k].1
        } else {
            values[reg.0 as int]
        }),
    decreases changes.len(),
{
    if changes.len() > 0 {
        let rest = changes.drop_last();
        let n = changes.len() - 1;
        if k == n {
            lemma_with_values_len(values, rest);
        } else {
            assert forall|j: int| #![trigger rest[j]] k < j < rest.len() implies rest[j].0 != reg by {
                assert(changes[j].0 != reg);
            }
            lemma_with_values(values, rest, reg, k);
            assert(changes[n].0 != reg);
            let other = changes[n].0;
            assert(other.0 != reg.0);
        }
    }
}

proof fn lemma_with_values_len(values: Seq<u64>, changes: Seq<(RegId, u64)>)
    ensures
        with_values(values, changes).len() == values.len(),
    decreases changes.len(),
{
    if changes.len() > 0 {
        lemma_with_values_len(values, changes.drop_last());
    }
}

proof fn lemma_after_lines_len(values: Seq<u64>, lines: Vec<LineFact>, first: int, end: int)
    ensures
        after_lines(values, Some(lines), first, end).len() == values.len(),
    decreases end - first,
{
    if first < end {
        lemma_after_lines_len(values, lines, first, end - 1);
        let earlier = after_lines(values, Some(lines), first, end - 1);
        if ((end - 1) as u32) < lines@.len() {
            lemma_with_values_len(earlier, lines@[((end - 1) as u32) as int].reg_values@);
        }
    }
}

proof fn lemma_silent(
    values: Seq<u64>,
    lines: Vec<LineFact>,
    first: int,
    from: int,
    end: int,
    reg: RegId,
)
    requires
        0 <= first <= from <= end <= u32::MAX + 1,
        all_silent(lines@, from, end, reg),
        reg.0 < values.len(),
    ensures
        after_lines(values, Some(lines), first, end)[reg.0 as int] == after_lines(
            values,
            Some(lines),
            first,
            from,
        )[reg.0 as int],
    decreases end - from,
{
    if from < end {
        lemma_silent(values, lines, first, from, end - 1, reg);
        let earlier = after_lines(values, Some(lines), first, end - 1);
        lemma_after_lines_len(values, lines, first, end - 1);
        if end - 1 < lines@.len() {
            let changes = lines@[end - 1].reg_values@;
            assert(silent(lines@[end - 1], reg));
            lemma_with_values(earlier, changes, reg, -1);
        }
    }
}

/// The value of a register at a line is the one that the last line which shows
/// it gives, of the lines from the snapshot on; only if none of them shows it,
/// the value of the snapshot.
pub proof fn law_registers_are_those_last_shown(
    c: RegCheckpoints,
    lines: Vec<LineFact>,
    seq: u32,
    slot: int,
    reg: RegId,
    i: int,
    value: u64,
)
    requires
        c.interval > 0,
        reg.valid(),
        0 <= slot < c@.len(),
        slot * c.interval <= seq,
        slot + 1 == c@.len() || (slot + 1) * c.interval > seq,
        forall|k: int| #![trigger c@[k]] 0 <= k < c@.len() ==> c@[k].len() == REG_COUNT,
    ensures
        ({
            let shown = values_at(c, Some(lines), seq)[reg.0 as int];
            &&& slot * c.interval <= i <= seq && i < lines@.len() && shows_value(
                lines@[i],
                reg,
                value,
            ) && all_silent(lines@, i + 1, seq + 1, reg) ==> shown == value
            &&& all_silent(lines@, slot * c.interval, seq + 1, reg) ==> shown
                == c@[slot][reg.0 as int]
        }),
{
    let first = slot * c.interval;
    lemma_slot(c@.len() as int, c.interval, seq, slot);
    assert(first >= 0) by (nonlinear_arith)
        requires
            first == slot * c.interval,
            slot >= 0,
            c.interval > 0,
    ;
    let values = c@[slot];
    assert(values.len() == REG_COUNT);
    if all_silent(lines@, first, seq + 1, reg) {
        lemma_silent(values, lines, first, first, seq + 1, reg);
    }
    if first <= i <= seq && i < lines@.len() && shows_value(lines@[i], reg, value) && all_silent(
        lines@,
        i + 1,
        seq + 1,
        reg,
    ) {
        lemma_silent(values, lines, first, i + 1, seq + 1, reg);
        let changes = lines@[i].reg_values@;
        let k = choose|k: int|
            #![trigger changes[k]]
            0 <= k < changes.len() && changes[k] == (reg, value) && forall|j: int|
                #![trigger changes[j]]
                k < j < changes.len() ==> changes[j].0 != reg;
        let earlier = after_lines(values, Some(lines), first, i);
        lemma_after_lines_len(values, lines, first, i);
        lemma_with_values(earlier, changes, reg, k);
        assert(after_lines(values, Some(lines), first, i + 1) == with_values(earlier, changes));
    }
}

proof fn lemma_slot(count: int, interval: u32, seq: u32, slot: int)
    requires
        interval > 0,
        0 <= slot < count,
        slot * interval <= seq,
        slot + 1 == count || (slot + 1) * interval > seq,
    ensures
        nearest_slot(count, interval, seq) == slot,
{
    let q = seq as int / interval as int;
    assert(q >= slot) by (nonlinear_arith)
        requires
            interval > 0,
            slot * interval <= seq,
            q == seq as int / interval as int,
    ;
    if slot + 1 < count {
        assert(q <= slot) by (nonlinear_arith)
            requires
                interval > 0,
                (slot + 1) * interval > seq,
                q == seq as int / interval as int,
        ;
    }
}

// ---------------------------------------------------------------------------
// Histories
// ---------------------------------------------------------------------------

/// The centre of a history is the first access at or after the line, or the last
/// access if there is none.
pub proof fn law_the_centre_is_the_first_access_from_the_line_on(
    d: MemHistoryMeta,
    records: Seq<MemAccessRecord>,
    seq: u32,
    lines: Option<Vec<LineFact>>,
    i: int,
)
    requires
        is_meta(d, records, seq, lines),
        in_line_order(records),
        records.len() > 0,
    ensures
        d.total == records.len(),
        d.center_index < records.len(),
        0 <= i < d.center_index ==> records[i].seq < seq,
        records[d.center_index as int].seq >= seq || d.center_index == records.len() - 1,
{
    lemma_count(records, seq as int);
}

/// A history is sampled if it has more than 300 accesses, and then 300 of them
/// are shown, evenly spread from the first on.
pub proof fn law_samples_are_spread_evenly(
    d: MemHistoryMeta,
    records: Seq<MemAccessRecord>,
    seq: u32,
    lines: Option<Vec<LineFact>>,
    i: int,
    at: int,
)
    requires
        is_meta(d, records, seq, lines),
        0 <= i < 300,
        at * 300 <= i * records.len() < (at + 1) * 300,
    ensures
        records.len() <= 300 ==> d.samples@.len() == 0,
        records.len() > 300 ==> d.samples@.len() == 300 && 0 <= at < records.len()
            && d.samples@[i].seq == records[at].seq && d.samples@[i].size == records[at].size
            && d.samples@[i].data@ == address_text(records[at].data) && d.samples@[i].rw@ == (
        if records[at].rw == MemRw::Write {
            "W"@
        } else {
            "R"@
        }),
{
    if records.len() > 300 {
        let n = records.len() as int;
        let x = i * n;
        assert(0 <= x < 300 * n) by (nonlinear_arith)
            requires
                0 <= i < 300,
                n > 0,
                x == i * n,
        ;
        assert(at == x / 300);
        assert(d.samples@[i].seq == d.samples@[i].seq);
    }
}

/// A stretch of a history shows the accesses from its start on, one after the
/// other, as many as are asked for and there are.
pub proof fn law_a_stretch_shows_the_accesses_in_order(
    d: Seq<MemHistoryRecord>,
    records: Seq<MemAccessRecord>,
    start: usize,
    limit: usize,
    lines: Option<Vec<LineFact>>,
    i: int,
)
    requires
        shows_accesses(d, history_page(records, start, limit), lines),
    ensures
        0 <= i < d.len() <==> 0 <= i < limit && start + i < records.len(),
        0 <= i < d.len() ==> {
            let r = records[start + i];
            d[i].seq == r.seq && d[i].size == r.size && d[i].data@ == address_text(r.data)
                && d[i].rw@ == (if r.rw == MemRw::Write {
                "W"@
            } else {
                "R"@
            })
        },
{
    if 0 <= i < d.len() {
        assert(shows_access(d[i], history_page(records, start, limit)[i], lines));
    }
}

// ---------------------------------------------------------------------------
// Numbers
// ---------------------------------------------------------------------------

proof fn lemma_number_reads_back(v: nat)
    ensures
        hex_value(number_text(v, 16)) == v,
        number_text(v, 16).len() > 0,
        forall|i: int|
            #![trigger number_text(v, 16)[i]]
            0 <= i < number_text(v, 16).len() ==> ('0' <= number_text(v, 16)[i] <= '9') || ('a'
                <= number_text(v, 16)[i] <= 'f'),
    decreases v,
{
    let s = number_text(v, 16);
    let last = (v % 16) as u8;
    assert(hex_char_value(hex_digit(last)) == v % 16);
    if v < 16 {
        assert(s =~= seq![hex_digit(v as u8)]);
        assert(s.drop_last() =~= Seq::empty());
        assert(hex_value(Seq::empty()) == 0);
    } else {
        lemma_number_reads_back(v / 16);
        assert(s.drop_last() =~= number_text(v / 16, 16));
        assert forall|i: int| #![trigger s[i]] 0 <= i < s.len() implies ('0' <= s[i] <= '9') || ('a'
            <= s[i] <= 'f') by {
            if i < s.len() - 1 {
                assert(s[i] == number_text(v / 16, 16)[i]);
            }
        }
    }
}

proof fn lemma_zeros_add_nothing(n: nat, s: Seq<char>)
    ensures
        hex_value(Seq::new(n, |i: int| '0') + s) == hex_value(s),
    decreases s.len(), n,
{
    let zeros = Seq::new(n, |i: int| '0');
    if s.len() > 0 {
        lemma_zeros_add_nothing(n, s.drop_last());
        assert((zeros + s).drop_last() =~= zeros + s.drop_last());
        assert((zeros + s).last() == s.last());
    } else {
        assert(zeros + s =~= zeros);
        if n > 0 {
            let fewer = Seq::new((n - 1) as nat, |i: int| '0');
            lemma_zeros_add_nothing((n - 1) as nat, s);
            assert(fewer + s =~= fewer);
            assert(zeros.drop_last() =~= fewer);
        }
    }
}

/// A number written out in hexadecimal reads back as that number, with zeros in
/// front or without, and only small letters are used.
pub proof fn law_addresses_read_back(v: u64)
    ensures
        address_text(v).len() > 2,
        address_text(v).take(2) == "0x"@,
        hex_value(address_text(v).skip(2)) == v,
        v > 0 ==> address_text(v)[2] != '0',
        wide_text(v).len() >= 18,
        wide_text(v).take(2) == "0x"@,
        hex_value(wide_text(v).skip(2)) == v,
{
    let digits = number_text(v as nat, 16);
    reveal_strlit("0x");
    lemma_number_reads_back(v as nat);
    assert(address_text(v).take(2) =~= "0x"@);
    assert(address_text(v).skip(2) =~= digits);
    let pad = padding(digits.len());
    assert(wide_text(v).take(2) =~= "0x"@);
    assert(wide_text(v).skip(2) =~= pad + digits);
    assert(pad =~= Seq::new(pad.len(), |i: int| '0'));
    lemma_zeros_add_nothing(pad.len(), digits);
    lemma_no_leading_zero(v as nat);
    if v > 0 {
        assert(address_text(v)[2] == digits[0]);
    }
}

proof fn lemma_no_leading_zero(v: nat)
    ensures
        number_text(v, 16).len() > 0,
        v > 0 ==> number_text(v, 16)[0] != '0',
    decreases v,
{
    if v >= 16 {
        lemma_no_leading_zero(v / 16);
    }
}

} // verus!
