//! The forward scan.

use crate::foreign;
use crate::foreign::DepList;
use crate::scanner::deps::DepsStorage;
use crate::scanner::last_def::{MemLastDef, RegLastDef};
use crate::scanner::model;
use crate::scanner::model::{CONTROL_DEP_BIT, PAIR_HALF2_BIT, PAIR_SHARED_BIT};
use crate::seqs;
use crate::types::{Insn, InsnClass, LineTarget, MemOp, ParsedLine, RegId};
use rustc_hash::FxHashMap;
use vstd::prelude::*;

verus! {

/// The dependencies of a pair instruction, split by half.
pub struct PairSplitDeps {
    /// What both halves depend on: base register and control.
    pub shared: DepList,
    /// First memory half, or first source register.
    pub half1_deps: DepList,
    /// Second memory half, or second source register.
    pub half2_deps: DepList,
}

impl View for PairSplitDeps {
    type V = model::PairView;

    open spec fn view(&self) -> model::PairView {
        model::PairView {
            shared: self.shared@,
            half1: self.half1_deps@,
            half2: self.half2_deps@,
        }
    }
}

impl Default for PairSplitDeps {
    fn default() -> (r: Self)
        ensures
            r@ == (model::PairView {
                shared: Seq::empty(),
                half1: Seq::empty(),
                half2: Seq::empty(),
            }),
    {
        PairSplitDeps {
            shared: DepList::new(),
            half1_deps: DepList::new(),
            half2_deps: DepList::new(),
        }
    }
}

/// Adds a value to a list unless it is there.
pub fn push_unique(deps: &mut DepList, val: u32)
    ensures
        final(deps)@ == seqs::add_unique(old(deps)@, val),
{
    if !deps.contains(&val) {
        deps.push(val);
    }
}

/// Total width of a memory access in bytes, at most 255.
///
/// - pairs: twice the element
/// - vector accesses: one element per data register
/// - others: one element
pub fn mem_access_width(class: InsnClass, elem_width: u8, line: &ParsedLine) -> (width: u8)
    ensures
        width == model::access_width(class, elem_width, *line),
{
    match class {
        InsnClass::LoadPair | InsnClass::StorePair => {
            let doubled: u16 = elem_width as u16 * 2;
            if doubled > 255 {
                255
            } else {
                doubled as u8
            }
        },
        InsnClass::SimdLoad | InsnClass::SimdStore => {
            let regs: u16 = data_reg_count(line);
            let count: u16 = if regs == 0 {
                1
            } else {
                regs
            };
            assert(elem_width * count <= 255 * 255) by (nonlinear_arith)
                requires
                    elem_width <= 255,
                    count <= 255,
            ;
            let total: u16 = elem_width as u16 * count;
            if total > 255 {
                255
            } else {
                total as u8
            }
        },
        _ => elem_width,
    }
}

/// Number of register operands before the base register.
fn data_reg_count(line: &ParsedLine) -> (n: u16)
    ensures
        n == model::data_regs(*line),
        n <= 255,
{
    match line.base_reg {
        None => 1,
        Some(base) => {
            let mut count: usize = 0;
            let mut i: usize = 0;
            let ghost ops = line.operands@;
            while i < line.operands.len() && line.operands[i].as_reg() != Some(base)
                invariant
                    i <= ops.len(),
                    ops == line.operands@,
                    count <= i,
                    count == model::reg_operands(ops, i as int),
                    model::base_position(ops, base, i as int) == i,
                decreases ops.len() - i,
            {
                if line.operands[i].as_reg().is_some() {
                    count += 1;
                }
                i += 1;
            }
            proof {
                lemma_base_position_stays(ops, base, i as int, ops.len() as int);
            }
            (count % 256) as u16
        },
    }
}

proof fn lemma_base_position_stays(
    ops: Seq<crate::types::Operand>,
    base: RegId,
    i: int,
    n: int,
)
    requires
        0 <= i <= n,
        model::base_position(ops, base, i) == i,
        i < n ==> ops[i].spec_as_reg() == Some(base),
    ensures
        model::base_position(ops, base, n) == i,
    decreases n,
{
    if i < n {
        lemma_base_position_stays_prefix(ops, base, i, n);
    }
}

proof fn lemma_base_position_stays_prefix(
    ops: Seq<crate::types::Operand>,
    base: RegId,
    i: int,
    n: int,
)
    requires
        0 <= i < n,
        model::base_position(ops, base, i) == i,
        ops[i].spec_as_reg() == Some(base),
    ensures
        model::base_position(ops, base, n) == i,
    decreases n,
{
    if n > i + 1 {
        lemma_base_position_stays_prefix(ops, base, i, n - 1);
    }
}

/// Adds the lines of the last stores to the bytes `abs + from .. abs + to`.
pub(crate) fn add_byte_defs(list: &mut DepList, mem: &FxHashMap<u64, (u32, u64)>, abs: u64, from: u64, to: u64)
    requires
        from <= to <= 510,
        abs + to <= u64::MAX + 1,
    ensures
        final(list)@ == seqs::extend_unique(
            old(list)@,
            model::byte_defs(mem@, abs, from as int, to as int),
        ),
{
    let ghost start = list@;
    let mut offset: u64 = from;
    while offset < to
        invariant
                from <= offset <= to <= 510,
            abs + to <= u64::MAX + 1,
            list@ == seqs::extend_unique(
                start,
                model::byte_defs(mem@, abs, from as int, offset as int),
            ),
        decreases to - offset,
    {
        if let Some(found) = foreign::fx_get(mem, &(abs + offset)) {
            let raw: u32 = found.0;
            proof {
                seqs::lemma_extend_push(
                    start,
                    model::byte_defs(mem@, abs, from as int, offset as int),
                    raw,
                );
            }
            push_unique(list, raw);
        }
        offset += 1;
    }
}

/// Adds the last definition of a register.
pub(crate) fn add_reg_def(list: &mut DepList, regs: &RegLastDef, reg: Option<RegId>)
    requires
        reg matches Some(r) ==> r.valid(),
    ensures
        final(list)@ == seqs::extend_unique(
            old(list)@,
            model::opt_reg_def(regs.slots(), reg),
        ),
{
    if let Some(r) = reg {
        if let Some(line) = regs.get(&r) {
            proof {
                seqs::lemma_extend_push(list@, Seq::empty(), *line);
                assert(Seq::<u32>::empty().push(*line) =~= seq![*line]);
            }
            push_unique(list, *line);
        }
    }
}

/// Adds the control dependency.
pub(crate) fn add_control_def(list: &mut DepList, last_cond: Option<u32>, data_only: bool)
    ensures
        final(list)@ == seqs::extend_unique(
            old(list)@,
            model::control_def(last_cond, data_only),
        ),
{
    if !data_only {
        if let Some(cb) = last_cond {
            proof {
                seqs::lemma_extend_push(list@, Seq::empty(), cb | CONTROL_DEP_BIT);
                assert(Seq::<u32>::empty().push(cb | CONTROL_DEP_BIT) =~= seq![
                    cb | CONTROL_DEP_BIT,
                ]);
            }
            push_unique(list, cb | CONTROL_DEP_BIT);
        }
    }
}

/// The first operand register at a position.
fn operand_reg(line: &ParsedLine, i: usize) -> (r: Option<RegId>)
    ensures
        r == model::operand_reg(line.operands@, i as int),
{
    if i < line.operands.len() {
        line.operands[i].as_reg()
    } else {
        None
    }
}

/// The dependencies of a pair instruction by half.
pub(crate) fn split_pair(
    insn: &Insn,
    op: &MemOp,
    regs: &RegLastDef,
    mem: &FxHashMap<u64, (u32, u64)>,
    last_cond: Option<u32>,
    data_only: bool,
    Ghost(m): Ghost<model::ScanModel>,
    Ghost(opts): Ghost<model::ScanOptions>,
) -> (split: PairSplitDeps)
    requires
        model::insn_ok(*insn),
        insn.line.mem_op == Some(*op),
        model::is_pair(insn.class),
        m.slots == regs.slots(),
        m.mem == mem@,
        m.last_cond == last_cond,
        opts.data_only == data_only,
    ensures
        split@ == model::pair_view(m, *insn, opts),
{
    let mut split = PairSplitDeps::default();
    let ew: u64 = op.elem_width as u64;
    if let InsnClass::LoadPair = insn.class {
        add_byte_defs(&mut split.half1_deps, mem, op.abs, 0, ew);
        add_byte_defs(&mut split.half2_deps, mem, op.abs, ew, 2 * ew);
    } else {
        let first = operand_reg(&insn.line, 0);
        let second = operand_reg(&insn.line, 1);
        add_reg_def(&mut split.half1_deps, regs, first);
        add_reg_def(&mut split.half2_deps, regs, second);
    }
    add_reg_def(&mut split.shared, regs, insn.line.base_reg);
    add_control_def(&mut split.shared, last_cond, data_only);
    proof {
        let view = model::pair_view(m, *insn, opts);
        let base = model::opt_reg_def(m.slots, insn.line.base_reg);
        seqs::lemma_extend_empty(base);
        seqs::lemma_dedup_concat(base, model::control_def(last_cond, data_only));
        seqs::lemma_extend_empty(model::byte_defs(mem@, op.abs, 0, ew as int));
        seqs::lemma_extend_empty(model::byte_defs(mem@, op.abs, ew as int, 2 * ew as int));
        let a = model::opt_reg_def(m.slots, model::operand_reg(insn.line.operands@, 0));
        let b = model::opt_reg_def(m.slots, model::operand_reg(insn.line.operands@, 1));
        seqs::lemma_extend_empty(a);
        seqs::lemma_extend_empty(b);
        lemma_dedup_short(a);
        lemma_dedup_short(b);
        assert(split@.half1 =~= view.half1);
        assert(split@.half2 =~= view.half2);
        assert(split@.shared =~= view.shared);
    }
    split
}

proof fn lemma_dedup_short(s: Seq<u32>)
    requires
        s.len() <= 1,
    ensures
        seqs::dedup(s) == s,
{
    reveal_with_fuel(seqs::dedup, 3);
    if s.len() == 1 {
        assert(s.drop_last() =~= Seq::empty());
        assert(seqs::dedup(s) =~= s);
    }
}

// ---------------------------------------------------------------------------
// The open row
// ---------------------------------------------------------------------------

/// The single store has an open row, and `base` is its content.
pub open spec fn open_row(deps: DepsStorage, rows: Seq<Seq<u32>>, row: Seq<u32>) -> bool {
    &&& deps is Single
    &&& deps.wf()
    &&& deps.store()@ == rows.push(row)
}

fn row_push(deps: &mut DepsStorage, val: u32, Ghost(rows): Ghost<Seq<Seq<u32>>>, Ghost(row): Ghost<Seq<u32>>)
    requires
        open_row(*old(deps), rows, row),
    ensures
        open_row(*final(deps), rows, seqs::add_unique(row, val)),
        final(deps).store().data@.len() - old(deps).store().data@.len() == seqs::add_unique(
            row,
            val,
        ).len() - row.len(),
{
    assert(rows.push(row).last() == row);
    if let DepsStorage::Single(cd) = deps {
        cd.push_unique(val);
    }
    assert(deps.store()@ =~= rows.push(seqs::add_unique(row, val)));
}

/// Adds the lines of the last stores to the first `width` bytes.
pub(crate) fn row_add_bytes(
    deps: &mut DepsStorage,
    mem: &MemLastDef,
    abs: u64,
    width: u64,
    Ghost(rows): Ghost<Seq<Seq<u32>>>,
    Ghost(row): Ghost<Seq<u32>>,
)
    requires
        open_row(*old(deps), rows, row),
        mem.wf(),
        width <= 255,
        abs + width <= u64::MAX + 1,
    ensures
        open_row(
            *final(deps),
            rows,
            seqs::extend_unique(row, model::byte_defs(mem@, abs, 0, width as int)),
        ),
        final(deps).store().data@.len() - old(deps).store().data@.len() == seqs::extend_unique(
            row,
            model::byte_defs(mem@, abs, 0, width as int),
        ).len() - row.len(),
{
    let ghost edges = deps.store().data@.len() as int;
    let mut offset: u64 = 0;
    while offset < width
        invariant
            mem.wf(),
            offset <= width <= 255,
            abs + width <= u64::MAX + 1,
            open_row(
                *deps,
                rows,
                seqs::extend_unique(row, model::byte_defs(mem@, abs, 0, offset as int)),
            ),
            deps.store().data@.len() - edges == seqs::extend_unique(
                row,
                model::byte_defs(mem@, abs, 0, offset as int),
            ).len() - row.len(),
        decreases width - offset,
    {
        if let Some((def_line, _)) = mem.get(&(abs + offset)) {
            let ghost so_far = model::byte_defs(mem@, abs, 0, offset as int);
            proof {
                seqs::lemma_extend_push(row, so_far, def_line);
            }
            row_push(deps, def_line, Ghost(rows), Ghost(seqs::extend_unique(row, so_far)));
        }
        offset += 1;
    }
}

/// Adds the last definitions of registers.
pub(crate) fn row_add_regs(
    deps: &mut DepsStorage,
    regs: &RegLastDef,
    uses: &Vec<RegId>,
    Ghost(rows): Ghost<Seq<Seq<u32>>>,
    Ghost(row): Ghost<Seq<u32>>,
)
    requires
        open_row(*old(deps), rows, row),
        forall|i: int| #![trigger uses@[i]] 0 <= i < uses@.len() ==> uses@[i].valid(),
    ensures
        open_row(
            *final(deps),
            rows,
            seqs::extend_unique(row, model::reg_defs(regs.slots(), uses@)),
        ),
        final(deps).store().data@.len() - old(deps).store().data@.len() == seqs::extend_unique(
            row,
            model::reg_defs(regs.slots(), uses@),
        ).len() - row.len(),
{
    let ghost edges = deps.store().data@.len() as int;
    let mut i: usize = 0;
    assert(uses@.take(0) =~= Seq::empty());
    while i < uses.len()
        invariant
            i <= uses@.len(),
            forall|i: int| #![trigger uses@[i]] 0 <= i < uses@.len() ==> uses@[i].valid(),
            open_row(
                *deps,
                rows,
                seqs::extend_unique(row, model::reg_defs(regs.slots(), uses@.take(i as int))),
            ),
            deps.store().data@.len() - edges == seqs::extend_unique(
                row,
                model::reg_defs(regs.slots(), uses@.take(i as int)),
            ).len() - row.len(),
        decreases uses@.len() - i,
    {
        let ghost so_far = model::reg_defs(regs.slots(), uses@.take(i as int));
        assert(uses@.take(i + 1).drop_last() =~= uses@.take(i as int));
        let reg: RegId = uses[i];
        if let Some(def_line) = regs.get(&reg) {
            proof {
                seqs::lemma_extend_push(row, so_far, *def_line);
            }
            row_push(deps, *def_line, Ghost(rows), Ghost(seqs::extend_unique(row, so_far)));
        }
        i += 1;
    }
    assert(uses@.take(uses@.len() as int) =~= uses@);
}

/// Adds the control dependency.
pub(crate) fn row_add_control(
    deps: &mut DepsStorage,
    last_cond: Option<u32>,
    data_only: bool,
    Ghost(rows): Ghost<Seq<Seq<u32>>>,
    Ghost(row): Ghost<Seq<u32>>,
)
    requires
        open_row(*old(deps), rows, row),
    ensures
        open_row(
            *final(deps),
            rows,
            seqs::extend_unique(row, model::control_def(last_cond, data_only)),
        ),
        final(deps).store().data@.len() - old(deps).store().data@.len() == seqs::extend_unique(
            row,
            model::control_def(last_cond, data_only),
        ).len() - row.len(),
{
    if !data_only {
        if let Some(cb) = last_cond {
            proof {
                seqs::lemma_extend_push(row, Seq::empty(), cb | CONTROL_DEP_BIT);
                assert(Seq::<u32>::empty().push(cb | CONTROL_DEP_BIT) =~= seq![
                    cb | CONTROL_DEP_BIT,
                ]);
            }
            row_push(deps, cb | CONTROL_DEP_BIT, Ghost(rows), Ghost(row));
        }
    }
}

/// Whether every byte has a store, and whether the access hands on the value
/// of a single store.
pub(crate) fn load_facts(mem: &FxHashMap<u64, (u32, u64)>, abs: u64, width: u64, value: Option<u64>) -> (r: (bool, bool))
    requires
        width <= 255,
        abs + width <= u64::MAX + 1,
    ensures
        r.0 == model::all_stored(mem@, abs, width as int),
        r.1 == model::pass_through(mem@, abs, width as int, value),
{
    let mut all_stored: bool = true;
    let mut same: bool = true;
    let mut first: Option<(u32, u64)> = None;
    let mut offset: u64 = 0;
    while offset < width
        invariant
            offset <= width <= 255,
            abs + width <= u64::MAX + 1,
            all_stored == model::all_stored(mem@, abs, offset as int),
            first is Some ==> exists|o: int|
                0 <= o < offset && mem@.contains_key(#[trigger] model::byte_at(abs, o))
                    && first == Some(mem@[model::byte_at(abs, o)]),
            first is None ==> forall|o: int|
                0 <= o < offset ==> !mem@.contains_key(#[trigger] model::byte_at(abs, o)),
            all_stored && offset > 0 ==> first == Some(mem@[abs]),
            all_stored ==> same == (forall|o: int|
                0 <= o < offset ==> mem@[#[trigger] model::byte_at(abs, o)].0 == mem@[abs].0),
        decreases width - offset,
    {
        assert(model::byte_at(abs, offset as int) == abs + offset);
        match foreign::fx_get(mem, &(abs + offset)) {
            Some(found) => {
                let entry = *found;
                match first {
                    None => {
                        first = Some(entry);
                    },
                    Some(f) => {
                        if f.0 != entry.0 {
                            same = false;
                        }
                    },
                }
            },
            None => {
                all_stored = false;
            },
        }
        offset += 1;
    }
    let hands_on: bool = match (first, value) {
        (Some(f), Some(v)) => all_stored && same && f.1 == v,
        _ => false,
    };
    (all_stored, hands_on)
}

// ---------------------------------------------------------------------------
// State updates
// ---------------------------------------------------------------------------

/// Defines the registers `regs[from..to]` at `line`.
fn define_regs(slots: &mut RegLastDef, regs: &Vec<RegId>, from: usize, to: usize, line: u32)
    requires
        from <= to <= regs@.len(),
        forall|i: int| #![trigger regs@[i]] 0 <= i < regs@.len() ==> regs@[i].valid(),
    ensures
        final(slots).slots() == model::define_regs(
            old(slots).slots(),
            regs@.subrange(from as int, to as int),
            line,
        ),
{
    let ghost start = slots.slots();
    let mut i: usize = from;
    assert(regs@.subrange(from as int, from as int) =~= Seq::empty());
    while i < to
        invariant
            from <= i <= to <= regs@.len(),
            forall|i: int| #![trigger regs@[i]] 0 <= i < regs@.len() ==> regs@[i].valid(),
            slots.slots() == model::define_regs(
                start,
                regs@.subrange(from as int, i as int),
                line,
            ),
        decreases to - i,
    {
        assert(regs@.subrange(from as int, i + 1).drop_last() =~= regs@.subrange(
            from as int,
            i as int,
        ));
        slots.insert(regs[i], line);
        i += 1;
    }
}

pub(crate) fn update_regs(slots: &mut RegLastDef, insn: &Insn, line: u32)
    requires
        model::insn_ok(*insn),
    ensures
        final(slots).slots() == model::slots_after(old(slots).slots(), *insn, line),
{
    let n: usize = insn.defs.len();
    match insn.class {
        InsnClass::LoadPair => {
            let base_writeback: bool = insn.line.writeback && insn.line.base_reg.is_some();
            let data_len: usize = if base_writeback {
                n - 1
            } else {
                n
            };
            let mid: usize = data_len / 2;
            proof {
                let data = model::data_defs(*insn);
                assert(data.take(mid as int) =~= insn.defs@.subrange(0, mid as int));
                assert(data.skip(mid as int) =~= insn.defs@.subrange(mid as int, data_len as int));
            }
            define_regs(slots, &insn.defs, 0, mid, line);
            define_regs(slots, &insn.defs, mid, data_len, line | PAIR_HALF2_BIT);
            if base_writeback {
                slots.insert(insn.defs[n - 1], line | PAIR_SHARED_BIT);
            }
        },
        InsnClass::StorePair => {
            assert(insn.defs@.subrange(0, n as int) =~= insn.defs@);
            define_regs(slots, &insn.defs, 0, n, line | PAIR_SHARED_BIT);
        },
        _ => {
            assert(insn.defs@.subrange(0, n as int) =~= insn.defs@);
            define_regs(slots, &insn.defs, 0, n, line);
        },
    }
}

/// Records a store to the bytes `abs + from .. abs + to`.
fn store_bytes(mem: &mut MemLastDef, abs: u64, from: u64, to: u64, entry: (u32, u64))
    requires
        *old(mem) is Hashed,
        from <= to <= 510,
        abs + to <= u64::MAX + 1,
    ensures
        *final(mem) is Hashed,
        final(mem)@ == model::store_bytes(old(mem)@, abs, from as int, to as int, entry),
{
    let ghost start = mem@;
    let mut offset: u64 = from;
    assert(model::store_bytes(start, abs, from as int, from as int, entry) =~= start);
    while offset < to
        invariant
            *mem is Hashed,
            from <= offset <= to <= 510,
            abs + to <= u64::MAX + 1,
            mem@ =~= model::store_bytes(start, abs, from as int, offset as int, entry),
        decreases to - offset,
    {
        mem.insert(abs + offset, entry);
        offset += 1;
    }
}

pub(crate) fn update_mem(mem: &mut MemLastDef, insn: &Insn, line: u32)
    requires
        *old(mem) is Hashed,
        model::insn_ok(*insn),
    ensures
        *final(mem) is Hashed,
        final(mem)@ == model::mem_after(old(mem)@, *insn, line),
{
    if let Some(op) = &insn.line.mem_op {
        if op.is_write {
            let value: u64 = match op.value {
                Some(v) => v,
                None => 0,
            };
            let ew: u64 = op.elem_width as u64;
            if let InsnClass::StorePair = insn.class {
                store_bytes(mem, op.abs, 0, ew, (line, value));
                store_bytes(mem, op.abs, ew, 2 * ew, (line | PAIR_HALF2_BIT, 0));
            } else {
                let width: u8 = mem_access_width(insn.class, op.elem_width, &insn.line);
                store_bytes(mem, op.abs, 0, width as u64, (line, value));
            }
        }
    }
}

/// A mnemonic that no instruction class covers.
pub struct UnknownMnemonic {
    pub name: String,
    /// First line with it.
    pub first_line: u32,
    /// Number of lines with it.
    pub count: u32,
}

/// No name occurs twice.
pub open spec fn names_unique(list: Seq<UnknownMnemonic>) -> bool {
    forall|i: int, j: int|
        #![trigger list[i], list[j]]
        0 <= i < j < list.len() ==> list[i].name@ != list[j].name@
}

/// The list as a map from name to first line and count.
pub open spec fn unknown_map(list: Seq<UnknownMnemonic>) -> Map<Seq<char>, (u32, u32)>
    decreases list.len(),
{
    if list.len() == 0 {
        Map::empty()
    } else {
        unknown_map(list.drop_last()).insert(
            list.last().name@,
            (list.last().first_line, list.last().count),
        )
    }
}

proof fn lemma_unknown_map(list: Seq<UnknownMnemonic>)
    requires
        names_unique(list),
    ensures
        forall|name: Seq<char>| #[trigger]
            unknown_map(list).contains_key(name) ==> exists|i: int|
                #![trigger list[i]]
                0 <= i < list.len() && list[i].name@ == name,
        forall|i: int|
            #![trigger list[i]]
            0 <= i < list.len() ==> unknown_map(list).contains_key(list[i].name@) && unknown_map(
                list,
            )[list[i].name@] == (list[i].first_line, list[i].count),
    decreases list.len(),
{
    if list.len() > 0 {
        let p = list.drop_last();
        assert(names_unique(p)) by {
            assert forall|i: int, j: int| #![trigger p[i], p[j]] 0 <= i < j < p.len() implies
                p[i].name@ != p[j].name@ by {
                assert(list[i].name@ != list[j].name@);
            }
        }
        lemma_unknown_map(p);
        assert forall|name: Seq<char>| #[trigger] unknown_map(list).contains_key(name) implies
            exists|i: int| #![trigger list[i]] 0 <= i < list.len() && list[i].name@ == name by {
            if name == list.last().name@ {
                assert(list[list.len() - 1].name@ == name);
            } else {
                assert(unknown_map(p).contains_key(name));
                let i = choose|i: int| #![trigger p[i]] 0 <= i < p.len() && p[i].name@ == name;
                assert(list[i].name@ == name);
            }
        }
        assert forall|i: int| #![trigger list[i]] 0 <= i < list.len() implies unknown_map(
            list,
        ).contains_key(list[i].name@) && unknown_map(list)[list[i].name@] == (
            list[i].first_line,
            list[i].count,
        ) by {
            if i < p.len() {
                assert(p[i] == list[i]);
                assert(list[i].name@ != list[list.len() - 1].name@);
            }
        }
    }
}

proof fn lemma_unknown_update(list: Seq<UnknownMnemonic>, k: int, entry: UnknownMnemonic)
    requires
        names_unique(list),
        0 <= k < list.len(),
        entry.name@ == list[k].name@,
    ensures
        names_unique(list.update(k, entry)),
        unknown_map(list.update(k, entry)) == unknown_map(list).insert(
            entry.name@,
            (entry.first_line, entry.count),
        ),
{
    let next = list.update(k, entry);
    assert(names_unique(next)) by {
        assert forall|i: int, j: int| #![trigger next[i], next[j]] 0 <= i < j < next.len() implies
            next[i].name@ != next[j].name@ by {
            assert(list[i].name@ != list[j].name@);
        }
    }
    lemma_unknown_map(list);
    lemma_unknown_map(next);
    let want = unknown_map(list).insert(entry.name@, (entry.first_line, entry.count));
    assert forall|name: Seq<char>| #[trigger] unknown_map(next).contains_key(name) implies
        want.contains_key(name) && want[name] == unknown_map(next)[name] by {
        let i = choose|i: int| #![trigger next[i]] 0 <= i < next.len() && next[i].name@ == name;
        assert(list[i].name@ == name);
        if i != k {
            assert(list[i].name@ != list[k].name@) by {
                if i < k {
                    assert(list[i].name@ != list[k].name@);
                } else {
                    assert(list[k].name@ != list[i].name@);
                }
            }
        }
    }
    assert forall|name: Seq<char>| #[trigger] want.contains_key(name) implies unknown_map(
        next,
    ).contains_key(name) by {
        if name == entry.name@ {
            assert(next[k].name@ == name);
        } else {
            let i = choose|i: int| #![trigger list[i]] 0 <= i < list.len() && list[i].name@ == name;
            assert(next[i].name@ == name);
        }
    }
    assert(unknown_map(next) =~= want);
}

/// Every count is at most `limit`.
pub open spec fn counts_at_most(list: Seq<UnknownMnemonic>, limit: int) -> bool {
    forall|i: int| #![trigger list[i]] 0 <= i < list.len() ==> list[i].count <= limit
}

/// Counts the mnemonic of a line that no class covers.
pub(crate) fn note_unknown(list: &mut Vec<UnknownMnemonic>, insn: &Insn, line: u32)
    requires
        names_unique(old(list)@),
        counts_at_most(old(list)@, line as int),
        line < u32::MAX,
    ensures
        names_unique(final(list)@),
        counts_at_most(final(list)@, line + 1),
        unknown_map(final(list)@) == model::note_unknown(unknown_map(old(list)@), *insn, line),
{
    let unknown: bool = match insn.class {
        InsnClass::Nop => !insn.known_nop,
        _ => false,
    };
    if !unknown {
        return ;
    }
    let ghost start = list@;
    proof {
        lemma_unknown_map(start);
    }
    let mut i: usize = 0;
    while i < list.len()
        invariant
            i <= list@.len(),
            list@ == start,
            *list == *old(list),
            names_unique(start),
            counts_at_most(start, line as int),
            line < u32::MAX,
            forall|k: int| #![trigger start[k]] 0 <= k < i ==> start[k].name@ != insn.line.mnemonic@,
            insn.class == InsnClass::Nop && !insn.known_nop,
            forall|k: int|
                #![trigger start[k]]
                0 <= k < start.len() ==> unknown_map(start).contains_key(start[k].name@)
                    && unknown_map(start)[start[k].name@] == (start[k].first_line, start[k].count),
        decreases list@.len() - i,
    {
        if list[i].name == insn.line.mnemonic {
            let ghost k = i as int;
            assert(start[k].count <= line);
            let entry = UnknownMnemonic {
                name: insn.line.mnemonic.clone(),
                first_line: list[i].first_line,
                count: list[i].count + 1,
            };
            proof {
                lemma_unknown_update(start, k, entry);
            }
            list[i] = entry;
            assert(list@ =~= start.update(k, entry));
            return ;
        }
        i += 1;
    }
    let entry = UnknownMnemonic { name: insn.line.mnemonic.clone(), first_line: line, count: 1 };
    list.push(entry);
    proof {
        assert(list@.drop_last() =~= start);
        assert forall|a: int, b: int| #![trigger list@[a], list@[b]] 0 <= a < b < list@.len() implies
            list@[a].name@ != list@[b].name@ by {
            assert(start[a].name@ != insn.line.mnemonic@);
            if b < start.len() {
                assert(start[a].name@ != start[b].name@);
            }
        }
    }
}

/// A slice target and the line it was resolved to.
pub type ResolvedTarget = (u32, LineTarget, u32);

/// The entries as a map; later entries win.
pub open spec fn resolved_map(list: Seq<ResolvedTarget>) -> Map<(u32, LineTarget), u32>
    decreases list.len(),
{
    if list.len() == 0 {
        Map::empty()
    } else {
        resolved_map(list.drop_last()).insert((list.last().0, list.last().1), list.last().2)
    }
}

/// The line that a target of a line was resolved to.
pub fn resolved_target(list: &Vec<ResolvedTarget>, line: u32, target: LineTarget) -> (r: Option<u32>)
    ensures
        r == (if resolved_map(list@).contains_key((line, target)) {
            Some(resolved_map(list@)[(line, target)])
        } else {
            None
        }),
{
    let mut i: usize = list.len();
    assert(list@.take(i as int) =~= list@);
    while i > 0
        invariant
            i <= list@.len(),
            resolved_map(list@).contains_key((line, target)) == resolved_map(
                list@.take(i as int),
            ).contains_key((line, target)),
            resolved_map(list@).contains_key((line, target)) ==> resolved_map(list@)[(line, target)]
                == resolved_map(list@.take(i as int))[(line, target)],
        decreases i,
    {
        i -= 1;
        let entry = list[i];
        assert(list@.take(i + 1).drop_last() =~= list@.take(i as int));
        if entry.0 == line && entry.1 == target {
            return Some(entry.2);
        }
    }
    None
}

} // verus!
