//! What queries answer, told by the lines and records they look at.

use crate::engine::activation::{bypasses_at, confirmed_in, owner_record, role};
use crate::engine::call_tree::existing;
use crate::engine::dep_tree::{
    defines, is_chain, last_definition, next_definition, reads, reads_in, scan_high, scan_low,
    writes, DefUseChain, MAX_SCAN_RANGE,
};
use crate::engine::memory::row_start;
use crate::engine::session::{LineFact, TraceSession};
use crate::engine::strings::{
    accesses_to, has_line, is_shown, one_per_line, selected, shows_one_of, shows_xref, shows_xrefs,
    StringXRef,
};
use crate::foreign;
use crate::query::activation::{
    called_at, children_of, first_child, owner_below, resumed_at, ActivationTree, ActivationView,
};
use crate::query::call_tree::NodeView;
use crate::query::mem_access::{accesses_at, MemAccessRecord};
use crate::query::strings::StringRecord;
use crate::text::stands_at;
use crate::types::{RegId, TraceFormat};
use vstd::prelude::*;

verus! {

// ---------------------------------------------------------------------------
// Definitions and uses
// ---------------------------------------------------------------------------

/// The instruction of the line uses the register.
pub open spec fn uses_reg(lines: Seq<LineFact>, reg: RegId, line: int) -> bool {
    0 <= line < lines.len() && (lines[line].effects matches Some(e) && exists|k: int|
        0 <= k < e.uses@.len() && #[trigger] e.uses@[k] == reg)
}

/// The instruction of the line writes the register.
pub open spec fn writes_reg(lines: Seq<LineFact>, reg: RegId, line: int) -> bool {
    0 <= line < lines.len() && (lines[line].effects matches Some(e) && exists|k: int|
        0 <= k < e.defs@.len() && #[trigger] e.defs@[k] == reg)
}

/// The register has a new value after the line: its instruction writes it, or
/// the line reports what a call returned in it.
pub open spec fn sets_reg(
    lines: Seq<LineFact>,
    format: TraceFormat,
    reg: RegId,
    line: int,
) -> bool {
    ||| writes_reg(lines, reg, line)
    ||| 0 <= line < lines.len() && lines[line].effects is None && lines[line].reports_return
        && format is Gumtrace && reg == RegId(0)
}

/// Nothing strictly between the lines sets the register.
pub open spec fn not_set_between(
    lines: Seq<LineFact>,
    format: TraceFormat,
    reg: RegId,
    a: int,
    b: int,
) -> bool {
    forall|x: int| a < x < b ==> !#[trigger] sets_reg(lines, format, reg, x)
}

proof fn lemma_same_facts(s: TraceSession, lines: Vec<LineFact>, reg: RegId, line: int)
    requires
        s.lines == Some(lines),
        0 <= line <= u32::MAX,
    ensures
        reads(s.lines, reg, line) == uses_reg(lines@, reg, line),
        writes(s.lines, reg, line) == writes_reg(lines@, reg, line),
        defines(s.lines, s.format, reg, line) == sets_reg(lines@, s.format, reg, line),
{
}

proof fn lemma_last(s: TraceSession, lines: Vec<LineFact>, reg: RegId, low: int, high: int, d: u32)
    requires
        s.lines == Some(lines),
        0 <= low,
        high <= u32::MAX,
    ensures
        last_definition(s.lines, s.format, reg, low, high) == Some(d) <==> low <= d < high
            && sets_reg(lines@, s.format, reg, d as int) && not_set_between(
            lines@,
            s.format,
            reg,
            d as int,
            high,
        ),
    decreases high - low,
{
    if low < high {
        lemma_last(s, lines, reg, low, high - 1, d);
        lemma_same_facts(s, lines, reg, high - 1);
        if d < high - 1 && not_set_between(lines@, s.format, reg, d as int, high) {
            assert(!sets_reg(lines@, s.format, reg, high - 1));
        }
    }
}

proof fn lemma_next(s: TraceSession, lines: Vec<LineFact>, reg: RegId, low: int, high: int)
    requires
        s.lines == Some(lines),
        0 <= low,
        high <= u32::MAX,
    ensures
        match next_definition(s.lines, s.format, reg, low, high) {
            Some(d) => low <= d < high && sets_reg(lines@, s.format, reg, d as int)
                && not_set_between(lines@, s.format, reg, low - 1, d as int),
            None => not_set_between(lines@, s.format, reg, low - 1, high),
        },
    decreases high - low,
{
    if low < high {
        lemma_same_facts(s, lines, reg, low);
        if !defines(s.lines, s.format, reg, low) {
            lemma_next(s, lines, reg, low + 1, high);
        }
    }
}

proof fn lemma_reads(s: TraceSession, lines: Vec<LineFact>, reg: RegId, low: int, high: int, u: u32)
    requires
        s.lines == Some(lines),
        0 <= low,
        high <= u32::MAX + 1,
    ensures
        ({
            let list = reads_in(s.lines, reg, low, high);
            &&& list.contains(u) <==> low <= u < high && uses_reg(lines@, reg, u as int)
            &&& forall|i: int| #![trigger list[i]] 0 <= i < list.len() ==> list[i] < high
            &&& forall|i: int, j: int|
                #![trigger list[i], list[j]]
                0 <= i < j < list.len() ==> list[i] < list[j]
        }),
    decreases high - low,
{
    if low < high {
        lemma_reads(s, lines, reg, low, high - 1, u);
        lemma_same_facts(s, lines, reg, high - 1);
        let earlier = reads_in(s.lines, reg, low, high - 1);
        let all = reads_in(s.lines, reg, low, high);
        if earlier.contains(u) {
            let w = choose|w: int| 0 <= w < earlier.len() && earlier[w] == u;
            assert(all[w] == u);
        }
        if reads(s.lines, reg, high - 1) {
            assert(all[all.len() - 1] == (high - 1) as u32);
        }
        if all.contains(u) && !earlier.contains(u) {
            let w = choose|w: int| 0 <= w < all.len() && all[w] == u;
            if w < earlier.len() {
                assert(earlier[w] == u);
            }
        }
    }
}

/// A line that uses a register is led back to the latest line before it that
/// set the register, as far as the search goes; a line that does not use it is
/// led nowhere.
pub proof fn law_a_use_comes_from_the_latest_definition(
    s: TraceSession,
    lines: Vec<LineFact>,
    seq: u32,
    reg: RegId,
    c: DefUseChain,
    d: u32,
)
    requires
        s.lines == Some(lines),
        is_chain(c, s, seq, reg),
    ensures
        c.def_seq == Some(d) <==> {
            &&& uses_reg(lines@, reg, seq as int)
            &&& d < seq
            &&& seq - d <= MAX_SCAN_RANGE
            &&& sets_reg(lines@, s.format, reg, d as int)
            &&& not_set_between(lines@, s.format, reg, d as int, seq as int)
        },
{
    lemma_same_facts(s, lines, reg, seq as int);
    lemma_last(s, lines, reg, scan_low(seq), seq as int, d);
}

/// A line that writes a register lists, in order, the lines that use the value:
/// those up to the next line that sets it, as far as the search goes.
pub proof fn law_a_definition_reaches_its_uses(
    s: TraceSession,
    lines: Vec<LineFact>,
    seq: u32,
    reg: RegId,
    c: DefUseChain,
    u: u32,
)
    requires
        s.lines == Some(lines),
        is_chain(c, s, seq, reg),
    ensures
        c.use_seqs@.contains(u) <==> {
            &&& writes_reg(lines@, reg, seq as int)
            &&& seq < u < s.total_lines
            &&& u - seq < MAX_SCAN_RANGE
            &&& uses_reg(lines@, reg, u as int)
            &&& not_set_between(lines@, s.format, reg, seq as int, u as int)
        },
        forall|i: int, j: int|
            #![trigger c.use_seqs@[i], c.use_seqs@[j]]
            0 <= i < j < c.use_seqs@.len() ==> c.use_seqs@[i] < c.use_seqs@[j],
        c.redefined_seq == Some(u) <==> {
            &&& writes_reg(lines@, reg, seq as int)
            &&& seq < u < s.total_lines
            &&& u - seq < MAX_SCAN_RANGE
            &&& sets_reg(lines@, s.format, reg, u as int)
            &&& not_set_between(lines@, s.format, reg, seq as int, u as int)
        },
{
    let high = scan_high(seq, s.total_lines);
    lemma_same_facts(s, lines, reg, seq as int);
    lemma_next(s, lines, reg, seq + 1, high);
    let next = next_definition(s.lines, s.format, reg, seq + 1, high);
    match next {
        Some(n) => {
            lemma_reads(s, lines, reg, seq + 1, n + 1, u);
            if u > n && not_set_between(lines@, s.format, reg, seq as int, u as int) {
                assert(!sets_reg(lines@, s.format, reg, n as int));
            }
            if u < n && sets_reg(lines@, s.format, reg, u as int) && seq < u {
                assert(false);
            }
        },
        None => {
            lemma_reads(s, lines, reg, seq + 1, high, u);
            if seq < u < high {
                assert(!sets_reg(lines@, s.format, reg, u as int));
            }
        },
    }
}

// ---------------------------------------------------------------------------
// Strings
// ---------------------------------------------------------------------------

/// The chosen strings are those that are long enough and hold what is searched
/// for, whatever the case of its letters, in the order of the list.
pub proof fn law_chosen_strings_hold_what_is_searched(
    strings: Seq<StringRecord>,
    min_len: u32,
    search: Option<Seq<char>>,
    n: int,
    i: int,
)
    requires
        0 <= n <= strings.len(),
    ensures
        ({
            let chosen = selected(strings, min_len, search, n);
            &&& chosen.contains(i) <==> {
                &&& 0 <= i < n
                &&& strings[i].byte_len >= min_len
                &&& search matches Some(query) ==> exists|at: int|
                    stands_at(foreign::lowercase_text(strings[i].content@), query, at)
            }
            &&& forall|a: int| #![trigger chosen[a]] 0 <= a < chosen.len() ==> 0 <= chosen[a] < n
            &&& forall|a: int, b: int|
                #![trigger chosen[a], chosen[b]]
                0 <= a < b < chosen.len() ==> chosen[a] < chosen[b]
        }),
    decreases n,
{
    if n > 0 {
        law_chosen_strings_hold_what_is_searched(strings, min_len, search, n - 1, i);
        let earlier = selected(strings, min_len, search, n - 1);
        let all = selected(strings, min_len, search, n);
        if earlier.contains(i) {
            let w = choose|w: int| 0 <= w < earlier.len() && earlier[w] == i;
            assert(all[w] == i);
        }
        if all.len() > earlier.len() {
            assert(all[all.len() - 1] == n - 1);
        }
        if all.contains(i) && !earlier.contains(i) {
            let w = choose|w: int| 0 <= w < all.len() && all[w] == i;
            if w < earlier.len() {
                assert(earlier[w] == i);
            }
        }
    }
}

/// The access is the first of its line in the list.
pub open spec fn first_of_line(s: Seq<MemAccessRecord>, i: int) -> bool {
    &&& 0 <= i < s.len()
    &&& forall|j: int| #![trigger s[j]] 0 <= j < i ==> s[j].seq != s[i].seq
}

proof fn lemma_firsts(s: Seq<MemAccessRecord>, r: MemAccessRecord)
    ensures
        one_per_line(s).contains(r) <==> exists|i: int| #[trigger] first_of_line(s, i) && s[i] == r,
        forall|line: u32| #[trigger] has_line(one_per_line(s), line) == has_line(s, line),
    decreases s.len(),
{
    if s.len() > 0 {
        let rest = s.drop_last();
        let last = s.last();
        let n = s.len() - 1;
        lemma_firsts(rest, r);
        let earlier = one_per_line(rest);
        let all = one_per_line(s);
        assert forall|i: int| 0 <= i < n implies #[trigger] first_of_line(s, i) == first_of_line(
            rest,
            i,
        ) by {
            if first_of_line(rest, i) {
                assert forall|j: int| #![trigger s[j]] 0 <= j < i implies s[j].seq != s[i].seq by {
                    assert(rest[j] == s[j]);
                }
            }
            if first_of_line(s, i) {
                assert forall|j: int| #![trigger rest[j]] 0 <= j < i implies rest[j].seq
                    != rest[i].seq by {
                    assert(rest[j] == s[j]);
                }
            }
        }
        assert(first_of_line(s, n) == !has_line(rest, last.seq)) by {
            if has_line(rest, last.seq) {
                let j = choose|j: int|
                    #![trigger rest[j]]
                    0 <= j < rest.len() && rest[j].seq == last.seq;
                assert(s[j] == rest[j]);
            } else {
                assert forall|j: int| #![trigger s[j]] 0 <= j < n implies s[j].seq != s[n].seq by {
                    assert(rest[j] == s[j]);
                }
            }
        }
        assert(has_line(earlier, last.seq) == has_line(rest, last.seq));
        if earlier.contains(r) {
            let w = choose|w: int| 0 <= w < earlier.len() && earlier[w] == r;
            assert(all[w] == r);
            let i = choose|i: int| #[trigger] first_of_line(rest, i) && rest[i] == r;
            assert(first_of_line(s, i) && s[i] == r);
        }
        if first_of_line(s, n) {
            assert(all[all.len() - 1] == last);
        }
        if all.contains(r) && !earlier.contains(r) {
            let w = choose|w: int| 0 <= w < all.len() && all[w] == r;
            if w < earlier.len() {
                assert(earlier[w] == r);
            }
            assert(first_of_line(s, n) && s[n] == r);
        }
        if exists|i: int| #[trigger] first_of_line(s, i) && s[i] == r {
            let i = choose|i: int| #[trigger] first_of_line(s, i) && s[i] == r;
            if i < n {
                assert(first_of_line(rest, i) && rest[i] == r);
            }
        }
        assert forall|line: u32| #[trigger] has_line(all, line) == has_line(s, line) by {
            assert(has_line(earlier, line) == has_line(rest, line));
            if has_line(all, line) {
                let k = choose|k: int| #![trigger all[k]] 0 <= k < all.len() && all[k].seq == line;
                if k < earlier.len() {
                    assert(earlier[k] == all[k]);
                    assert(has_line(earlier, line));
                    let j = choose|j: int|
                        #![trigger rest[j]]
                        0 <= j < rest.len() && rest[j].seq == line;
                    assert(s[j] == rest[j]);
                } else {
                    assert(s[n].seq == line);
                }
            }
            if has_line(s, line) {
                let j = choose|j: int| #![trigger s[j]] 0 <= j < s.len() && s[j].seq == line;
                if j < n {
                    assert(rest[j] == s[j]);
                    assert(has_line(rest, line));
                    let k = choose|k: int|
                        #![trigger earlier[k]]
                        0 <= k < earlier.len() && earlier[k].seq == line;
                    assert(all[k] == earlier[k]);
                } else if has_line(earlier, last.seq) {
                    let k = choose|k: int|
                        #![trigger earlier[k]]
                        0 <= k < earlier.len() && earlier[k].seq == line;
                    assert(all[k] == earlier[k]);
                } else {
                    assert(all[all.len() - 1].seq == line);
                }
            }
        }
    }
}

/// One of the accesses to a byte of the string is of the line.
pub open spec fn touches(
    m: Map<u64, Seq<MemAccessRecord>>,
    addr: u64,
    n: int,
    line: u32,
) -> bool {
    exists|o: int|
        0 <= o < n && #[trigger] has_line(accesses_at(m, (addr + o) as u64), line)
}

proof fn lemma_touches(m: Map<u64, Seq<MemAccessRecord>>, addr: u64, n: int, line: u32)
    requires
        0 <= n,
    ensures
        has_line(accesses_to(m, addr, n), line) == touches(m, addr, n, line),
    decreases n,
{
    if n > 0 {
        lemma_touches(m, addr, n - 1, line);
        let a = accesses_to(m, addr, n - 1);
        let b = accesses_at(m, (addr + n - 1) as u64);
        let all = accesses_to(m, addr, n);
        if has_line(a, line) {
            let k = choose|k: int| #![trigger a[k]] 0 <= k < a.len() && a[k].seq == line;
            assert(all[k] == a[k]);
            let o = choose|o: int|
                0 <= o < n - 1 && #[trigger] has_line(accesses_at(m, (addr + o) as u64), line);
            assert(has_line(accesses_at(m, (addr + o) as u64), line));
        }
        if has_line(b, line) {
            let k = choose|k: int| #![trigger b[k]] 0 <= k < b.len() && b[k].seq == line;
            assert(all[a.len() + k] == b[k]);
            assert(has_line(accesses_at(m, (addr + (n - 1)) as u64), line));
        }
        if has_line(all, line) {
            let k = choose|k: int| #![trigger all[k]] 0 <= k < all.len() && all[k].seq == line;
            if k < a.len() {
                assert(a[k] == all[k]);
            } else {
                assert(b[k - a.len()] == all[k]);
            }
        }
        if touches(m, addr, n, line) {
            let o = choose|o: int|
                0 <= o < n && #[trigger] has_line(accesses_at(m, (addr + o) as u64), line);
            if o == n - 1 {
                assert(has_line(b, line));
            }
        }
    }
}

/// The references to a string have one entry for each line that accesses one of
/// its bytes, and none for another line.
pub proof fn law_references_are_the_lines_that_touch_the_string(
    x: Seq<StringXRef>,
    m: Map<u64, Seq<MemAccessRecord>>,
    addr: u64,
    n: int,
    lines: Option<Vec<LineFact>>,
    line: u32,
)
    requires
        0 <= n,
        shows_xrefs(x, accesses_to(m, addr, n), lines),
    ensures
        (exists|i: int| #![trigger x[i]] 0 <= i < x.len() && x[i].seq == line) <==> touches(
            m,
            addr,
            n,
            line,
        ),
        forall|i: int, j: int|
            #![trigger x[i], x[j]]
            0 <= i < x.len() && 0 <= j < x.len() && x[i].seq == x[j].seq ==> i == j,
{
    let all = accesses_to(m, addr, n);
    let firsts = one_per_line(all);
    lemma_touches(m, addr, n, line);
    lemma_firsts(all, arbitrary());
    assert(has_line(firsts, line) == has_line(all, line));
    if exists|i: int| #![trigger x[i]] 0 <= i < x.len() && x[i].seq == line {
        let i = choose|i: int| #![trigger x[i]] 0 <= i < x.len() && x[i].seq == line;
        assert(shows_one_of(x[i], firsts, lines));
        let k = choose|k: int|
            #![trigger firsts[k]]
            0 <= k < firsts.len() && shows_xref(x[i], firsts[k], lines);
        assert(firsts[k].seq == line);
    }
    if has_line(firsts, line) {
        let k = choose|k: int| #![trigger firsts[k]] 0 <= k < firsts.len() && firsts[k].seq == line;
        assert(is_shown(firsts[k], x, lines));
    }
    assert forall|i: int, j: int|
        #![trigger x[i], x[j]]
        0 <= i < x.len() && 0 <= j < x.len() && x[i].seq == x[j].seq implies i == j by {
        if i < j {
            assert(x[i].seq < x[j].seq);
        }
        if j < i {
            assert(x[j].seq < x[i].seq);
        }
    }
}

/// The entry of a line shows the line's first access to the lowest byte that it
/// accesses.
pub proof fn law_a_reference_shows_the_first_access_of_its_line(
    x: Seq<StringXRef>,
    m: Map<u64, Seq<MemAccessRecord>>,
    addr: u64,
    n: int,
    lines: Option<Vec<LineFact>>,
    i: int,
    o: int,
    k: int,
)
    requires
        0 <= o < n,
        shows_xrefs(x, accesses_to(m, addr, n), lines),
        0 <= i < x.len(),
        !touches(m, addr, o, x[i].seq),
        first_of_line(accesses_at(m, (addr + o) as u64), k),
        accesses_at(m, (addr + o) as u64)[k].seq == x[i].seq,
    ensures
        shows_xref(x[i], accesses_at(m, (addr + o) as u64)[k], lines),
{
    let all = accesses_to(m, addr, n);
    let firsts = one_per_line(all);
    let r = accesses_at(m, (addr + o) as u64)[k];
    let at = accesses_to(m, addr, o).len() + k;
    lemma_place(m, addr, n, o, k);
    lemma_touches(m, addr, o, r.seq);
    lemma_prefix(m, addr, o, n);
    let low = accesses_to(m, addr, o);
    assert(first_of_line(all, at)) by {
        assert forall|j: int| #![trigger all[j]] 0 <= j < at implies all[j].seq != all[at].seq by {
            if j < low.len() {
                assert(low[j] == all[j]);
                if low[j].seq == r.seq {
                    assert(has_line(low, r.seq));
                }
            } else {
                lemma_place(m, addr, n, o, j - low.len());
                assert(accesses_at(m, (addr + o) as u64)[j - low.len()] == all[j]);
            }
        }
    }
    lemma_firsts(all, r);
    assert(firsts.contains(r));
    let f = choose|f: int| 0 <= f < firsts.len() && firsts[f] == r;
    assert(is_shown(firsts[f], x, lines));
    let j = choose|j: int| #![trigger x[j]] 0 <= j < x.len() && shows_xref(x[j], r, lines);
    if j < i {
        assert(x[j].seq < x[i].seq);
    }
    if i < j {
        assert(x[i].seq < x[j].seq);
    }
}

proof fn lemma_prefix(m: Map<u64, Seq<MemAccessRecord>>, addr: u64, o: int, n: int)
    requires
        0 <= o <= n,
    ensures
        accesses_to(m, addr, o).len() <= accesses_to(m, addr, n).len(),
        forall|j: int|
            #![trigger accesses_to(m, addr, n)[j]]
            0 <= j < accesses_to(m, addr, o).len() ==> accesses_to(m, addr, n)[j] == accesses_to(
                m,
                addr,
                o,
            )[j],
    decreases n,
{
    if o < n {
        lemma_prefix(m, addr, o, n - 1);
        let a = accesses_to(m, addr, n - 1);
        let all = accesses_to(m, addr, n);
        assert forall|j: int|
            #![trigger all[j]]
            0 <= j < accesses_to(m, addr, o).len() implies all[j] == accesses_to(m, addr, o)[j] by {
            assert(all[j] == a[j]);
        }
    }
}

proof fn lemma_place(m: Map<u64, Seq<MemAccessRecord>>, addr: u64, n: int, o: int, k: int)
    requires
        0 <= o < n,
        0 <= k < accesses_at(m, (addr + o) as u64).len(),
    ensures
        accesses_to(m, addr, o).len() + k < accesses_to(m, addr, n).len(),
        accesses_to(m, addr, n)[accesses_to(m, addr, o).len() + k] == accesses_at(
            m,
            (addr + o) as u64,
        )[k],
{
    lemma_prefix(m, addr, o + 1, n);
    let next = accesses_to(m, addr, o + 1);
    let low = accesses_to(m, addr, o);
    assert(next[low.len() + k] == accesses_at(m, (addr + o) as u64)[k]);
    assert(accesses_to(m, addr, n)[low.len() + k] == next[low.len() + k]);
}

// ---------------------------------------------------------------------------
// Trees
// ---------------------------------------------------------------------------

/// The nodes found for a list of ids are those that exist, in the order of the
/// list.
pub proof fn law_existing_nodes_are_found(nodes: Seq<NodeView>, ids: Seq<u32>, k: int)
    requires
        0 <= k < ids.len(),
    ensures
        ids[k] < nodes.len() ==> existing(nodes, ids).contains(nodes[ids[k] as int]),
        (forall|i: int| #![trigger ids[i]] 0 <= i < ids.len() ==> ids[i] < nodes.len()) ==> existing(
            nodes,
            ids,
        ).len() == ids.len() && existing(nodes, ids)[k] == nodes[ids[k] as int],
        existing(nodes, ids).len() <= ids.len(),
    decreases ids.len(),
{
    let rest = ids.drop_last();
    let n = ids.len() - 1;
    let before = existing(nodes, rest);
    let all = existing(nodes, ids);
    if forall|i: int| #![trigger ids[i]] 0 <= i < ids.len() ==> ids[i] < nodes.len() {
        assert forall|i: int| #![trigger rest[i]] 0 <= i < rest.len() implies rest[i]
            < nodes.len() by {
            assert(rest[i] == ids[i]);
        }
        assert(ids[n] < nodes.len());
    }
    if k < n {
        law_existing_nodes_are_found(nodes, rest, k);
        if ids[k] < nodes.len() {
            let x = nodes[ids[k] as int];
            let w = choose|w: int| 0 <= w < before.len() && before[w] == x;
            assert(all[w] == x);
        }
    } else {
        if n > 0 {
            law_existing_nodes_are_found(nodes, rest, 0);
        }
        if ids[k] < nodes.len() {
            assert(all[all.len() - 1] == nodes[ids[k] as int]);
        }
    }
}

/// The number of confirmed activations counts those below the root that were
/// resolved.
pub proof fn law_confirmed_activations_are_counted(s: Seq<ActivationView>, n: int)
    requires
        1 <= n <= s.len(),
    ensures
        confirmed_in(s, n) == s.subrange(1, n).filter(
            |a: ActivationView| a.unresolved_reason is None,
        ).len(),
    decreases n,
{
    let p = |a: ActivationView| a.unresolved_reason is None;
    reveal(Seq::filter);
    if n == 1 {
        assert(s.subrange(1, n) =~= Seq::empty());
    } else {
        law_confirmed_activations_are_counted(s, n - 1);
        assert(s.subrange(1, n).drop_last() =~= s.subrange(1, n - 1));
        assert(s.subrange(1, n).last() == s[n - 1]);
    }
}

proof fn lemma_first_child(
    s: Seq<ActivationView>,
    children: Seq<u32>,
    hit: spec_fn(ActivationView) -> bool,
    k: int,
)
    requires
        0 <= k <= children.len(),
    ensures
        match first_child(s, children, hit, k) {
            Some(id) => exists|c: int|
                k <= c < children.len() && #[trigger] children[c] == id && id < s.len() && hit(
                    s[id as int],
                ),
            None => forall|c: int|
                #![trigger children[c]]
                k <= c < children.len() && children[c] < s.len() ==> !hit(s[children[c] as int]),
        },
    decreases children.len() - k,
{
    if k < children.len() && !(children[k] < s.len() && hit(s[children[k] as int])) {
        lemma_first_child(s, children, hit, k + 1);
        if let Some(id) = first_child(s, children, hit, k + 1) {
            let c = choose|c: int|
                k + 1 <= c < children.len() && #[trigger] children[c] == id && id < s.len() && hit(
                    s[id as int],
                );
            assert(children[c] == id);
        }
    } else if k < children.len() {
        assert(children[k] == children[k]);
    }
}

/// The child of the line's owner, one of those in the list.
pub open spec fn has_child(tree: ActivationTree, seq: u32, id: u32) -> bool {
    let s = tree.activation_seq();
    id < s.len() && children_of(s, owner_record(tree, seq)).contains(id)
}

/// The instruction that calls an activation is told apart as its call, the one
/// at which the caller goes on as its resume, and each names the activation.
pub proof fn law_calls_and_resumes_name_their_activation(tree: ActivationTree, seq: u32)
    ensures
        ({
            let s = tree.activation_seq();
            let (position, callee, detail) = role(tree, seq);
            &&& position == "call"@ ==> match callee {
                Some(id) => has_child(tree, seq, id) && s[id as int].call_seq == seq,
                None => bypasses_at(tree, seq),
            }
            &&& position == "resume"@ ==> (callee matches Some(id) && has_child(tree, seq, id)
                && s[id as int].resume_seq == seq && s[id as int].unresolved_reason is None)
            &&& (exists|id: u32| #[trigger] has_child(tree, seq, id) && s[id as int].call_seq == seq)
                ==> position == "call"@ && callee is Some
            &&& bypasses_at(tree, seq) ==> position == "call"@
            &&& callee is Some ==> position == "call"@ || position == "resume"@
        }),
{
    let s = tree.activation_seq();
    let children = children_of(s, owner_record(tree, seq));
    lemma_first_child(s, children, called_at(seq), 0);
    lemma_first_child(s, children, resumed_at(seq), 0);
    reveal_strlit("call");
    reveal_strlit("resume");
    reveal_strlit("root");
    reveal_strlit("entry");
    reveal_strlit("exit");
    reveal_strlit("body");
    assert("root"@[0] == 'r' && "root"@.len() == 4);
    assert("call"@.len() == 4 && "call"@[0] == 'c');
    assert("entry"@.len() == 5 && "exit"@[0] == 'e' && "body"@[0] == 'b');
    assert("resume"@.len() == 6);
    if exists|id: u32| #[trigger] has_child(tree, seq, id) && s[id as int].call_seq == seq {
        let id = choose|id: u32| #[trigger]
            has_child(tree, seq, id) && s[id as int].call_seq == seq;
        let c = choose|c: int| 0 <= c < children.len() && children[c] == id;
        assert(called_at(seq)(s[children[c] as int]));
    }
}

/// The activation was resumed, and the line is one from its entry to its exit.
pub open spec fn runs_at(a: ActivationView, seq: u32) -> bool {
    a.unresolved_reason is None && a.entry_seq <= seq && seq <= a.exit_seq
}

/// A line belongs to the last activation, the root apart, that was resumed and
/// runs from its entry to its exit over the line.
pub proof fn law_a_line_belongs_to_the_activation_that_runs(
    s: Seq<ActivationView>,
    seq: u32,
    n: int,
    i: int,
)
    requires
        0 <= n <= s.len(),
    ensures
        owner_below(s, seq, n) == Some(i) <==> {
            &&& 0 < i < n
            &&& runs_at(s[i], seq)
            &&& forall|j: int| #![trigger s[j]] i < j < n ==> !runs_at(s[j], seq)
        },
    decreases n,
{
    if n > 1 {
        law_a_line_belongs_to_the_activation_that_runs(s, seq, n - 1, i);
        if i < n - 1 && runs_at(s[n - 1], seq) {
            assert(!(forall|j: int| #![trigger s[j]] i < j < n ==> !runs_at(s[j], seq)));
        }
    }
}

/// A memory view starts at the last multiple of 16 that is not above the
/// address.
pub proof fn law_memory_views_start_at_a_row(addr: u64)
    ensures
        row_start(addr) % 16 == 0,
        row_start(addr) <= addr < row_start(addr) + 16,
{
}

} // verus!
