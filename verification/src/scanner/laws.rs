//! Properties of the scan as a whole.

use crate::scanner::last_def;
use crate::scanner::model;
use crate::scanner::model::{
    ScanModel, ScanOptions, CONTROL_DEP_BIT, LINE_MASK, PAIR_HALF2_BIT, PAIR_SHARED_BIT,
};
use crate::seqs;
use crate::types::{Insn, InsnClass, RegId};
use vstd::prelude::*;

verus! {

/// The reference is to a line before `line`; `control` tells whether it may be
/// a control dependency.
pub open spec fn points_back(dep: u32, line: int, control: bool) -> bool {
    (dep & LINE_MASK) < line && (!control ==> dep & CONTROL_DEP_BIT == 0)
}

/// Every reference of the list points back.
pub open spec fn all_point_back(list: Seq<u32>, line: int, control: bool) -> bool {
    forall|i: int| #![trigger list[i]] 0 <= i < list.len() ==> points_back(list[i], line, control)
}

/// What the scan remembers refers to lines that it has seen.
pub open spec fn refs_ok(m: ScanModel) -> bool {
    let n = m.rows.len() as int;
    &&& m.slots.len() == crate::types::REG_COUNT
    &&& forall|r: int|
        #![trigger m.slots[r]]
        0 <= r < m.slots.len() && m.slots[r] != last_def::NO_DEF ==> points_back(
            m.slots[r],
            n,
            false,
        )
    &&& forall|a: u64| #[trigger] m.mem.contains_key(a) ==> points_back(m.mem[a].0, n, false)
    &&& m.last_cond matches Some(cb) ==> cb < n
}

proof fn lemma_tags(line: u32)
    requires
        line <= LINE_MASK,
    ensures
        line & LINE_MASK == line,
        (line | PAIR_HALF2_BIT) & LINE_MASK == line,
        (line | PAIR_SHARED_BIT) & LINE_MASK == line,
        (line | CONTROL_DEP_BIT) & LINE_MASK == line,
        line & CONTROL_DEP_BIT == 0,
        (line | PAIR_HALF2_BIT) & CONTROL_DEP_BIT == 0,
        (line | PAIR_SHARED_BIT) & CONTROL_DEP_BIT == 0,
{
    assert(line & 0x1FFF_FFFF == line && (line | 0x8000_0000) & 0x1FFF_FFFF == line && (line
        | 0x4000_0000) & 0x1FFF_FFFF == line && (line | 0x2000_0000) & 0x1FFF_FFFF == line && line
        & 0x2000_0000 == 0 && (line | 0x8000_0000) & 0x2000_0000 == 0 && (line | 0x4000_0000)
        & 0x2000_0000 == 0) by (bit_vector)
        requires
            line <= 0x1FFF_FFFFu32,
    ;
}

proof fn lemma_bytes_back(mem: model::MemDefs, abs: u64, from: int, to: int, line: int)
    requires
        forall|a: u64| #[trigger] mem.contains_key(a) ==> points_back(mem[a].0, line, false),
    ensures
        all_point_back(model::byte_defs(mem, abs, from, to), line, false),
    decreases to - from,
{
    if from < to {
        lemma_bytes_back(mem, abs, from, to - 1, line);
        let addr = (abs + to - 1) as u64;
        if mem.contains_key(addr) {
            assert(points_back(mem[addr].0, line, false));
        }
    }
}

proof fn lemma_regs_back(slots: Seq<u32>, regs: Seq<RegId>, line: int)
    requires
        slots.len() == crate::types::REG_COUNT,
        forall|i: int| #![trigger regs[i]] 0 <= i < regs.len() ==> regs[i].valid(),
        forall|r: int|
            #![trigger slots[r]]
            0 <= r < slots.len() && slots[r] != last_def::NO_DEF ==> points_back(
                slots[r],
                line,
                false,
            ),
    ensures
        all_point_back(model::reg_defs(slots, regs), line, false),
    decreases regs.len(),
{
    if regs.len() > 0 {
        lemma_regs_back(slots, regs.drop_last(), line);
        assert(regs[regs.len() - 1].valid());
    }
}

proof fn lemma_dedup_back(list: Seq<u32>, line: int, control: bool)
    requires
        all_point_back(list, line, control),
    ensures
        all_point_back(seqs::dedup(list), line, control),
{
    let d = seqs::dedup(list);
    assert forall|i: int| #![trigger d[i]] 0 <= i < d.len() implies points_back(
        d[i],
        line,
        control,
    ) by {
        assert(d.contains(d[i]));
        seqs::lemma_dedup_contains(list, d[i]);
        let k = choose|k: int| 0 <= k < list.len() && list[k] == d[i];
        assert(points_back(list[k], line, control));
    }
}

proof fn lemma_sources_back(m: ScanModel, insn: Insn, opts: ScanOptions)
    requires
        refs_ok(m),
        model::insn_ok(insn),
        m.rows.len() <= LINE_MASK,
    ensures
        all_point_back(
            model::line_sources(m, insn, opts),
            m.rows.len() as int,
            !opts.data_only,
        ),
{
    let n = m.rows.len() as int;
    if model::loads(insn) {
        lemma_bytes_back(m.mem, insn.line.mem_op->0.abs, 0, model::insn_width(insn), n);
    }
    lemma_regs_back(m.slots, insn.uses@, n);
    if let Some(cb) = m.last_cond {
        lemma_tags(cb);
    }
}

proof fn lemma_define_back(slots: Seq<u32>, regs: Seq<RegId>, value: u32, n: int)
    requires
        slots.len() == crate::types::REG_COUNT,
        forall|i: int| #![trigger regs[i]] 0 <= i < regs.len() ==> regs[i].valid(),
        points_back(value, n + 1, false),
        forall|r: int|
            #![trigger slots[r]]
            0 <= r < slots.len() && slots[r] != last_def::NO_DEF ==> points_back(
                slots[r],
                n + 1,
                false,
            ),
    ensures
        model::define_regs(slots, regs, value).len() == crate::types::REG_COUNT,
        forall|r: int|
            #![trigger model::define_regs(slots, regs, value)[r]]
            0 <= r < slots.len() && model::define_regs(slots, regs, value)[r] != last_def::NO_DEF
                ==> points_back(model::define_regs(slots, regs, value)[r], n + 1, false),
    decreases regs.len(),
{
    if regs.len() > 0 {
        lemma_define_back(slots, regs.drop_last(), value, n);
        assert(regs[regs.len() - 1].valid());
    }
}

/// One line keeps what the scan remembers in order.
proof fn lemma_step_refs(m: ScanModel, insn: Insn, opts: ScanOptions)
    requires
        refs_ok(m),
        model::insn_ok(insn),
        m.rows.len() <= LINE_MASK,
        model::scan_step(m, Some(insn), opts) is Ok,
    ensures
        refs_ok(model::scan_step(m, Some(insn), opts)->Ok_0),
{
    let n = m.rows.len() as int;
    let i = n as u32;
    lemma_tags(i);
    let next = model::scan_step(m, Some(insn), opts)->Ok_0;
    if model::in_range(opts, i) {
        assert forall|r: int|
            #![trigger m.slots[r]]
            0 <= r < m.slots.len() && m.slots[r] != last_def::NO_DEF implies points_back(
            m.slots[r],
            n + 1,
            false,
        ) by {}
        if insn.class == InsnClass::LoadPair {
            let data = model::data_defs(insn);
            let mid = (data.len() / 2) as int;
            assert forall|k: int| #![trigger data[k]] 0 <= k < data.len() implies data[k].valid() by {
                assert(insn.defs@[k].valid());
            }
            let first = model::define_regs(m.slots, data.take(mid), i);
            lemma_define_back(m.slots, data.take(mid), i, n);
            lemma_define_back(first, data.skip(mid), i | PAIR_HALF2_BIT, n);
            if model::has_base_writeback(insn) {
                assert(insn.defs@[insn.defs@.len() - 1].valid());
            }
        } else if insn.class == InsnClass::StorePair {
            lemma_define_back(m.slots, insn.defs@, i | PAIR_SHARED_BIT, n);
        } else {
            lemma_define_back(m.slots, insn.defs@, i, n);
        }
        assert forall|a: u64| #[trigger] next.mem.contains_key(a) implies points_back(
            next.mem[a].0,
            n + 1,
            false,
        ) by {
            if m.mem.contains_key(a) {
                assert(points_back(m.mem[a].0, n, false));
            }
        }
    } else {
        assert forall|a: u64| #[trigger] next.mem.contains_key(a) implies points_back(
            next.mem[a].0,
            n + 1,
            false,
        ) by {
            assert(points_back(m.mem[a].0, n, false));
        }
    }
}

/// The scan never points forward: in a trace whose line numbers leave the tag
/// bits free, every dependency of a line is an earlier line, no line is listed
/// twice, and with `data_only` no control dependency is listed.
pub proof fn law_dependencies_point_back(
    lines: Seq<Option<Insn>>,
    opts: ScanOptions,
    n: int,
    i: int,
)
    requires
        0 <= i < n <= lines.len(),
        lines.len() <= LINE_MASK,
        forall|k: int|
            #![trigger lines[k]]
            0 <= k < lines.len() ==> (lines[k] matches Some(insn) ==> model::insn_ok(insn)),
        model::scan_lines(lines, opts, n) is Ok,
    ensures
        model::scan_lines(lines, opts, n)->Ok_0.rows.len() == n,
        model::scan_lines(lines, opts, n)->Ok_0.rows[i].no_duplicates(),
        all_point_back(
            model::scan_lines(lines, opts, n)->Ok_0.rows[i],
            i,
            !opts.data_only,
        ),
{
    lemma_scan_refs(lines, opts, n);
}

proof fn lemma_scan_refs(lines: Seq<Option<Insn>>, opts: ScanOptions, n: int)
    requires
        0 <= n <= lines.len(),
        lines.len() <= LINE_MASK,
        forall|k: int|
            #![trigger lines[k]]
            0 <= k < lines.len() ==> (lines[k] matches Some(insn) ==> model::insn_ok(insn)),
        model::scan_lines(lines, opts, n) is Ok,
    ensures
        refs_ok(model::scan_lines(lines, opts, n)->Ok_0),
        model::scan_lines(lines, opts, n)->Ok_0.rows.len() == n,
        forall|i: int|
            #![trigger model::scan_lines(lines, opts, n)->Ok_0.rows[i]]
            0 <= i < n ==> model::scan_lines(lines, opts, n)->Ok_0.rows[i].no_duplicates()
                && all_point_back(
                model::scan_lines(lines, opts, n)->Ok_0.rows[i],
                i,
                !opts.data_only,
            ),
    decreases n,
{
    if n > 0 {
        lemma_scan_refs(lines, opts, n - 1);
        let m = model::scan_lines(lines, opts, n - 1)->Ok_0;
        let next = model::scan_lines(lines, opts, n)->Ok_0;
        assert(lines[n - 1] matches Some(insn) ==> model::insn_ok(insn));
        match lines[n - 1] {
            Some(insn) => {
                lemma_step_refs(m, insn, opts);
                if model::in_range(opts, (n - 1) as u32) {
                    let sources = model::line_sources(m, insn, opts);
                    lemma_sources_back(m, insn, opts);
                    lemma_dedup_back(sources, n - 1, !opts.data_only);
                    seqs::lemma_dedup_no_duplicates(sources);
                }
            },
            None => {
                assert forall|a: u64| #[trigger] next.mem.contains_key(a) implies points_back(
                    next.mem[a].0,
                    n,
                    false,
                ) by {
                    assert(points_back(m.mem[a].0, n - 1, false));
                }
            },
        }
        assert forall|i: int| #![trigger next.rows[i]] 0 <= i < n implies next.rows[i].no_duplicates()
            && all_point_back(next.rows[i], i, !opts.data_only) by {
            if i < n - 1 {
                assert(next.rows[i] == m.rows[i]);
            }
        }
    }
}

/// What a pruned row lists, the unpruned row lists too.
proof fn lemma_pruned_row(m: ScanModel, insn: Insn, opts: ScanOptions, dep: u32)
    requires
        !opts.no_prune,
        model::line_row(m, insn, opts).contains(dep),
    ensures
        model::line_row(m, insn, ScanOptions { no_prune: true, ..opts }).contains(dep),
{
    let full = ScanOptions { no_prune: true, ..opts };
    let a = model::line_sources(m, insn, opts);
    let b = model::line_sources(m, insn, full);
    seqs::lemma_dedup_contains(a, dep);
    seqs::lemma_dedup_contains(b, dep);
    let k = choose|k: int| 0 <= k < a.len() && a[k] == dep;
    let loads = model::load_sources(m, insn);
    let regs = model::reg_defs(m.slots, insn.uses@);
    if !model::is_pair(insn.class) {
        if k < loads.len() {
            assert(b[regs.len() + k] == dep);
        } else if model::insn_pass_through(m, insn, opts) {
            assert(b[regs.len() + k] == dep);
        } else if k < loads.len() + regs.len() {
            assert(b[k - loads.len()] == dep);
        } else {
            assert(b[k] == dep);
        }
    }
}

/// Both scans know the same of registers, memory and branches.
spec fn same_knowledge(a: ScanModel, b: ScanModel) -> bool {
    &&& a.slots == b.slots
    &&& a.mem == b.mem
    &&& a.last_cond == b.last_cond
}

proof fn lemma_pruning(lines: Seq<Option<Insn>>, opts: ScanOptions, n: int)
    requires
        0 <= n <= lines.len(),
        !opts.no_prune,
        model::scan_lines(lines, opts, n) is Ok,
        model::scan_lines(lines, ScanOptions { no_prune: true, ..opts }, n) is Ok,
    ensures
        ({
            let a = model::scan_lines(lines, opts, n)->Ok_0;
            let b = model::scan_lines(lines, ScanOptions { no_prune: true, ..opts }, n)->Ok_0;
            &&& same_knowledge(a, b)
            &&& a.rows.len() == n
            &&& b.rows.len() == n
            &&& forall|i: int, dep: u32|
                #![trigger a.rows[i].contains(dep)]
                0 <= i < n && a.rows[i].contains(dep) ==> b.rows[i].contains(dep)
        }),
    decreases n,
{
    if n > 0 {
        let full = ScanOptions { no_prune: true, ..opts };
        lemma_pruning(lines, opts, n - 1);
        let a = model::scan_lines(lines, opts, n - 1)->Ok_0;
        let b = model::scan_lines(lines, full, n - 1)->Ok_0;
        let next_a = model::scan_lines(lines, opts, n)->Ok_0;
        let next_b = model::scan_lines(lines, full, n)->Ok_0;
        assert forall|i: int, dep: u32|
            #![trigger next_a.rows[i].contains(dep)]
            0 <= i < n && next_a.rows[i].contains(dep) implies next_b.rows[i].contains(dep) by {
            if i < n - 1 {
                assert(next_a.rows[i] == a.rows[i]);
                assert(next_b.rows[i] == b.rows[i]);
                assert(a.rows[i].contains(dep));
            } else {
                match lines[n - 1] {
                    Some(insn) if model::in_range(opts, (n - 1) as u32) => {
                        lemma_pruned_row(a, insn, opts, dep);
                        lemma_row_by_knowledge(a, b, insn, full);
                    },
                    _ => {},
                }
            }
        }
    }
}

/// A row depends only on what is known of registers, memory and branches.
proof fn lemma_row_by_knowledge(a: ScanModel, b: ScanModel, insn: Insn, opts: ScanOptions)
    requires
        same_knowledge(a, b),
    ensures
        model::line_row(a, insn, opts) == model::line_row(b, insn, opts),
{
}

/// Pruning only drops: in scans of the same trace, what the pruned row of a
/// line lists, its unpruned row lists too.
pub proof fn law_pruning_only_drops(
    lines: Seq<Option<Insn>>,
    opts: ScanOptions,
    i: int,
    dep: u32,
)
    requires
        0 <= i < lines.len(),
        !opts.no_prune,
        model::scan_lines(lines, opts, lines.len() as int) is Ok,
        model::scan_lines(lines, ScanOptions { no_prune: true, ..opts }, lines.len() as int) is Ok,
        model::scan_lines(lines, opts, lines.len() as int)->Ok_0.rows[i].contains(dep),
    ensures
        model::scan_lines(
            lines,
            ScanOptions { no_prune: true, ..opts },
            lines.len() as int,
        )->Ok_0.rows[i].contains(dep),
{
    lemma_pruning(lines, opts, lines.len() as int);
}

proof fn lemma_rows_outside(lines: Seq<Option<Insn>>, opts: ScanOptions, n: int)
    requires
        0 <= n <= lines.len() <= u32::MAX,
        model::scan_lines(lines, opts, n) is Ok,
    ensures
        model::scan_lines(lines, opts, n)->Ok_0.rows.len() == n,
        forall|i: int|
            #![trigger model::scan_lines(lines, opts, n)->Ok_0.rows[i]]
            0 <= i < n && !model::in_range(opts, i as u32) ==> model::scan_lines(
                lines,
                opts,
                n,
            )->Ok_0.rows[i].len() == 0,
    decreases n,
{
    if n > 0 {
        lemma_rows_outside(lines, opts, n - 1);
        let m = model::scan_lines(lines, opts, n - 1)->Ok_0;
        let next = model::scan_lines(lines, opts, n)->Ok_0;
        assert forall|i: int|
            #![trigger next.rows[i]]
            0 <= i < n && !model::in_range(opts, i as u32) implies next.rows[i].len() == 0 by {
            if i < n - 1 {
                assert(next.rows[i] == m.rows[i]);
            }
        }
    }
}

/// A scan of a range says nothing of other lines: the rows outside are empty.
pub proof fn law_rows_outside_the_range_are_empty(
    lines: Seq<Option<Insn>>,
    opts: ScanOptions,
    i: int,
)
    requires
        0 <= i < lines.len() <= u32::MAX,
        i < opts.start_seq || (opts.end_seq matches Some(end) && i > end),
        model::scan_lines(lines, opts, lines.len() as int) is Ok,
    ensures
        model::scan_lines(lines, opts, lines.len() as int)->Ok_0.rows[i].len() == 0,
{
    lemma_rows_outside(lines, opts, lines.len() as int);
}

} // verus!
