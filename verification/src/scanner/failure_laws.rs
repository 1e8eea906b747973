//! When a scan fails.

use crate::scanner::meaning::{
    def_at, law_scan_remembers_the_latest, scanned, store_at, trace_ok, writes,
};
use crate::scanner::model;
use crate::scanner::model::{ScanError, ScanModel, ScanOptions};
use crate::types::{Insn, InsnClass, LineTarget, RegId};
use vstd::prelude::*;

verus! {

/// The places asked for at a line.
pub open spec fn asked_at(opts: ScanOptions, i: int) -> Seq<LineTarget> {
    if opts.targets.contains_key(i as u32) {
        opts.targets[i as u32]
    } else {
        Seq::empty()
    }
}

/// The place has a definition at line `i` or before.
pub open spec fn has_definition(
    lines: Seq<Option<Insn>>,
    opts: ScanOptions,
    i: int,
    insn: Insn,
    target: LineTarget,
) -> bool {
    match target {
        LineTarget::Reg(reg) => insn.defs@.contains(reg) || def_at(lines, opts, i, reg) is Some,
        LineTarget::Mem(addr) => writes(insn, addr) || store_at(lines, opts, i, addr) is Some,
    }
}

/// The error that says so of a place without a definition.
pub open spec fn tells_missing(e: ScanError, line: u32, target: LineTarget) -> bool {
    match target {
        LineTarget::Reg(reg) => e == (ScanError::NoRegDef { line, reg }),
        LineTarget::Mem(addr) => e == (ScanError::NoStore { line, addr }),
    }
}

/// The first of the places without a definition.
pub open spec fn first_missing(
    lines: Seq<Option<Insn>>,
    opts: ScanOptions,
    i: int,
    insn: Insn,
    targets: Seq<LineTarget>,
    k: int,
) -> bool {
    &&& 0 <= k < targets.len()
    &&& !has_definition(lines, opts, i, insn, targets[k])
    &&& forall|j: int|
        #![trigger targets[j]]
        0 <= j < k ==> has_definition(lines, opts, i, insn, targets[j])
}

proof fn lemma_target(
    lines: Seq<Option<Insn>>,
    opts: ScanOptions,
    i: int,
    insn: Insn,
    target: LineTarget,
)
    requires
        trace_ok(lines),
        0 <= i < lines.len(),
        model::scan_lines(lines, opts, i) is Ok,
        scanned(lines, opts, i) == Some(insn),
        model::target_ok(target),
        !(insn.class == InsnClass::StorePair && insn.line.mem_op->0.elem_width > 127),
    ensures
        model::target_line(
            model::scan_lines(lines, opts, i)->Ok_0,
            insn,
            i as u32,
            target,
        ) is Some == has_definition(lines, opts, i, insn, target),
{
    match target {
        LineTarget::Reg(reg) => {
            law_scan_remembers_the_latest(lines, opts, i, 0, reg);
        },
        LineTarget::Mem(addr) => {
            law_scan_remembers_the_latest(lines, opts, i, addr, RegId(0));
        },
    }
}

proof fn lemma_targets(
    lines: Seq<Option<Insn>>,
    opts: ScanOptions,
    i: int,
    insn: Insn,
    targets: Seq<LineTarget>,
)
    requires
        trace_ok(lines),
        0 <= i < lines.len(),
        model::scan_lines(lines, opts, i) is Ok,
        scanned(lines, opts, i) == Some(insn),
        forall|k: int|
            #![trigger targets[k]]
            0 <= k < targets.len() ==> model::target_ok(targets[k]),
        !(insn.class == InsnClass::StorePair && insn.line.mem_op->0.elem_width > 127),
    ensures
        match model::resolve_targets(
            model::scan_lines(lines, opts, i)->Ok_0,
            insn,
            i as u32,
            targets,
        ) {
            Ok(_) => forall|k: int|
                #![trigger targets[k]]
                0 <= k < targets.len() ==> has_definition(lines, opts, i, insn, targets[k]),
            Err(e) => exists|k: int| #[trigger]
                first_missing(lines, opts, i, insn, targets, k) && tells_missing(
                    e,
                    i as u32,
                    targets[k],
                ),
        },
    decreases targets.len(),
{
    if targets.len() > 0 {
        let rest = targets.drop_last();
        let n = targets.len() - 1;
        let m = model::scan_lines(lines, opts, i)->Ok_0;
        assert forall|k: int| #![trigger rest[k]] 0 <= k < rest.len() implies model::target_ok(
            rest[k],
        ) by {
            assert(rest[k] == targets[k]);
        }
        lemma_targets(lines, opts, i, insn, rest);
        assert(model::target_ok(targets[n]));
        lemma_target(lines, opts, i, insn, targets[n]);
        match model::resolve_targets(m, insn, i as u32, rest) {
            Ok(_) => {
                assert forall|k: int| #![trigger targets[k]] 0 <= k < n implies has_definition(
                    lines,
                    opts,
                    i,
                    insn,
                    targets[k],
                ) by {
                    assert(rest[k] == targets[k]);
                }
                if !has_definition(lines, opts, i, insn, targets[n]) {
                    assert(first_missing(lines, opts, i, insn, targets, n));
                }
            },
            Err(e) => {
                let k = choose|k: int| #[trigger]
                    first_missing(lines, opts, i, insn, rest, k) && tells_missing(
                        e,
                        i as u32,
                        rest[k],
                    );
                assert(rest[k] == targets[k]);
                assert(first_missing(lines, opts, i, insn, targets, k)) by {
                    assert forall|j: int| #![trigger targets[j]] 0 <= j < k implies has_definition(
                        lines,
                        opts,
                        i,
                        insn,
                        targets[j],
                    ) by {
                        assert(rest[j] == targets[j]);
                    }
                }
            },
        }
    }
}

/// A scan fails at a line exactly if the line is scanned and one of the places
/// asked for there has no definition up to it, or if there are too many edges to
/// count; it tells the first such place.
pub proof fn law_a_scan_fails_at_a_place_without_definition(
    lines: Seq<Option<Insn>>,
    opts: ScanOptions,
    i: int,
)
    requires
        trace_ok(lines),
        model::options_ok(opts),
        0 <= i < lines.len(),
        model::scan_lines(lines, opts, i) is Ok,
        !(lines[i] matches Some(insn) && insn.class == InsnClass::StorePair
            && insn.line.mem_op->0.elem_width > 127),
    ensures
        ({
            let m = model::scan_lines(lines, opts, i)->Ok_0;
            let targets = asked_at(opts, i);
            match model::scan_lines(lines, opts, i + 1) {
                Ok(_) => m.edges <= u32::MAX && (scanned(lines, opts, i) matches Some(insn)
                    ==> forall|k: int|
                    #![trigger targets[k]]
                    0 <= k < targets.len() ==> has_definition(lines, opts, i, insn, targets[k])),
                Err(e) => if m.edges > u32::MAX {
                    e == (ScanError::TooManyEdges { line: i as u32 })
                } else {
                    scanned(lines, opts, i) matches Some(insn) && exists|k: int| #[trigger]
                        first_missing(lines, opts, i, insn, targets, k) && tells_missing(
                            e,
                            i as u32,
                            targets[k],
                        )
                },
            }
        }),
{
    let m = model::scan_lines(lines, opts, i)->Ok_0;
    lemma_rows(lines, opts, i);
    let targets = asked_at(opts, i);
    assert(targets == model::line_targets(opts, i as u32));
    if let Some(insn) = scanned(lines, opts, i) {
        assert forall|k: int| #![trigger targets[k]] 0 <= k < targets.len() implies model::target_ok(
            targets[k],
        ) by {
            if opts.targets.contains_key(i as u32) {
                assert(model::target_ok(opts.targets[i as u32][k]));
            }
        }
        lemma_targets(lines, opts, i, insn, targets);
        assert(model::in_range(opts, i as u32));
        assert(model::scan_lines(lines, opts, i + 1) == model::scan_step(m, Some(insn), opts));
        assert(m.rows.len() as u32 == i as u32);
        match model::resolve_targets(m, insn, i as u32, targets) {
            Ok(_) => {
                assert(m.edges <= u32::MAX ==> model::scan_lines(lines, opts, i + 1) is Ok);
            },
            Err(e) => {
                assert(m.edges <= u32::MAX ==> model::scan_lines(lines, opts, i + 1)
                    == Err::<ScanModel, ScanError>(e));
            },
        }
    } else {
        assert(model::scan_lines(lines, opts, i + 1) == model::scan_step(m, lines[i], opts));
    }
}

/// The edges that are counted are those of the rows so far, one row a line.
pub proof fn law_edges_are_those_of_the_rows(lines: Seq<Option<Insn>>, opts: ScanOptions, n: int)
    requires
        0 < n <= lines.len() <= u32::MAX,
        model::scan_lines(lines, opts, n) is Ok,
    ensures
        model::scan_lines(lines, opts, n - 1) is Ok,
        ({
            let m = model::scan_lines(lines, opts, n)->Ok_0;
            let before = model::scan_lines(lines, opts, n - 1)->Ok_0;
            &&& m.rows.len() == n
            &&& m.rows.drop_last() == before.rows
            &&& m.edges == before.edges + m.rows[n - 1].len()
        }),
{
    lemma_rows(lines, opts, n - 1);
    let m = model::scan_lines(lines, opts, n)->Ok_0;
    let before = model::scan_lines(lines, opts, n - 1)->Ok_0;
    assert(m.rows.drop_last() =~= before.rows);
}

proof fn lemma_rows(lines: Seq<Option<Insn>>, opts: ScanOptions, n: int)
    requires
        0 <= n <= lines.len() <= u32::MAX,
        model::scan_lines(lines, opts, n) is Ok,
    ensures
        model::scan_lines(lines, opts, n)->Ok_0.rows.len() == n,
    decreases n,
{
    if n > 0 {
        lemma_rows(lines, opts, n - 1);
    }
}

} // verus!
