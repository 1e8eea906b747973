//! Periodic snapshots of all register values.

use crate::types::REG_COUNT;
use vstd::prelude::*;

verus! {

/// Stands for a register value that the trace has not shown.
pub const UNKNOWN_VALUE: u64 = 0xFFFF_FFFF_FFFF_FFFF;

/// The register values at one line.
#[derive(Clone, Copy)]
pub struct RegSnapshot(pub [u64; REG_COUNT]);

/// Snapshots taken every `interval` lines, the first one before line 0.
pub struct RegCheckpoints {
    pub interval: u32,
    pub snapshots: Vec<RegSnapshot>,
}

/// The values of all snapshots.
pub open spec fn snapshot_views(snapshots: Seq<RegSnapshot>) -> Seq<Seq<u64>> {
    snapshots.map_values(|s: RegSnapshot| s.0@)
}

impl View for RegCheckpoints {
    type V = Seq<Seq<u64>>;

    open spec fn view(&self) -> Seq<Seq<u64>> {
        snapshot_views(self.snapshots@)
    }
}

impl RegCheckpoints {
    pub fn new(interval: u32) -> (r: Self)
        ensures
            r.interval == interval,
            r@ == Seq::<Seq<u64>>::empty(),
    {
        let r = RegCheckpoints { interval, snapshots: Vec::new() };
        assert(r@ =~= Seq::<Seq<u64>>::empty());
        r
    }

    pub fn save_checkpoint(&mut self, values: &[u64; REG_COUNT])
        ensures
            final(self)@ == old(self)@.push(values@),
            final(self).interval == old(self).interval,
    {
        let ghost before = self@;
        self.snapshots.push(RegSnapshot(*values));
        assert(self@ =~= before.push(values@));
    }

    /// The latest snapshot at or before a line, with the line it belongs to.
    pub fn nearest_before(&self, seq: u32) -> (r: Option<(u32, &[u64; REG_COUNT])>)
        requires
            self.interval > 0,
        ensures
            match r {
                None => self@.len() == 0,
                Some((line, values)) => {
                    let slot = nearest_slot(self@.len() as int, self.interval, seq);
                    &&& self@.len() > 0
                    &&& line == slot * self.interval
                    &&& line <= seq
                    &&& values@ == self@[slot]
                },
            },
    {
        if self.snapshots.len() == 0 {
            return None;
        }
        let wanted: usize = (seq / self.interval) as usize;
        let slot: usize = if wanted < self.snapshots.len() {
            wanted
        } else {
            self.snapshots.len() - 1
        };
        assert(slot * self.interval <= seq) by (nonlinear_arith)
            requires
                self.interval > 0,
                slot <= (seq as int) / (self.interval as int),
        ;
        let line: u32 = slot as u32 * self.interval;
        Some((line, &self.snapshots[slot].0))
    }
}

/// Position of the latest snapshot at or before a line.
pub open spec fn nearest_slot(count: int, interval: u32, seq: u32) -> int {
    let wanted = seq as int / interval as int;
    if wanted < count {
        wanted
    } else {
        count - 1
    }
}

} // verus!
