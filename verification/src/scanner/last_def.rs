//! Last definition of each register and of each memory byte.

use crate::foreign;
use crate::types::{RegId, REG_COUNT};
use rustc_hash::FxHashMap;
use vstd::prelude::*;

verus! {

/// Marks a register without a definition.
pub const NO_DEF: u32 = 0xFFFF_FFFF;

/// Last line that defined each register.
///
/// The table holds one slot per register; [`NO_DEF`] stands for "never
/// defined", so a register defined at that very number counts as undefined.
#[derive(Clone)]
pub struct RegLastDef([u32; REG_COUNT]);

impl RegLastDef {
    /// The raw slots.
    pub closed spec fn slots(self) -> Seq<u32> {
        self.0@
    }

    /// The last definition of a register, if there is one.
    pub open spec fn def(self, reg: RegId) -> Option<u32> {
        slot_def(self.slots(), reg)
    }

    pub broadcast proof fn lemma_slots_len(self)
        ensures
            #[trigger] self.slots().len() == REG_COUNT,
    {
    }

    pub fn new() -> (r: Self)
        ensures
            r.slots() == Seq::new(REG_COUNT as nat, |i: int| NO_DEF),
    {
        let slots: [u32; REG_COUNT] = [0xFFFF_FFFF;98];
        assert(slots@ =~= Seq::new(REG_COUNT as nat, |i: int| NO_DEF));
        RegLastDef(slots)
    }

    pub fn get(&self, reg: &RegId) -> (r: Option<&u32>)
        requires
            reg.valid(),
        ensures
            match r {
                Some(line) => self.def(*reg) == Some(*line),
                None => self.def(*reg) is None,
            },
    {
        let index: usize = reg.0 as usize;
        let val = &self.0[index];
        if *val != NO_DEF {
            Some(val)
        } else {
            None
        }
    }

    pub fn insert(&mut self, reg: RegId, line: u32)
        requires
            reg.valid(),
        ensures
            final(self).slots() == old(self).slots().update(reg.0 as int, line),
    {
        let index: usize = reg.0 as usize;
        self.0[index] = line;
    }

    /// The raw slots, [`NO_DEF`] where a register has no definition.
    pub fn inner(&self) -> (r: &[u32; REG_COUNT])
        ensures
            r@ == self.slots(),
    {
        &self.0
    }

    /// The raw slots, to be written to.
    pub fn inner_mut(&mut self) -> (r: &mut [u32; REG_COUNT])
        ensures
            r@ == old(self).slots(),
            final(self).slots() == final(r)@,
    {
        &mut self.0
    }

    /// Takes over every definition that `later` has.
    pub fn overlay(&mut self, later: &RegLastDef)
        ensures
            final(self).slots() == overlay_slots(old(self).slots(), later.slots()),
    {
        let ghost start = self.0@;
        let mut i: usize = 0;
        while i < REG_COUNT
            invariant
                i <= REG_COUNT,
                start.len() == REG_COUNT,
                self.0@ =~= overlay_slots(start, later.0@).take(i as int) + start.skip(i as int),
            decreases REG_COUNT - i,
        {
            let value: u32 = later.0[i];
            if value != NO_DEF {
                self.0[i] = value;
            }
            i += 1;
        }
    }
}

impl Default for RegLastDef {
    fn default() -> (r: Self)
        ensures
            r.slots() == Seq::new(REG_COUNT as nat, |i: int| NO_DEF),
    {
        Self::new()
    }
}

/// The definition that a slot table holds for a register.
pub open spec fn slot_def(slots: Seq<u32>, reg: RegId) -> Option<u32> {
    if slots[reg.0 as int] != NO_DEF {
        Some(slots[reg.0 as int])
    } else {
        None
    }
}

/// `base` with every slot of `later` that holds a definition.
pub open spec fn overlay_slots(base: Seq<u32>, later: Seq<u32>) -> Seq<u32> {
    Seq::new(
        base.len(),
        |i: int|
            if later[i] != NO_DEF {
                later[i]
            } else {
                base[i]
            },
    )
}

/// Last store to each memory byte: the line, and the value it stored.
///
/// A hash map while lines are being added, a sorted array afterwards.
pub enum MemLastDef {
    Hashed(FxHashMap<u64, (u32, u64)>),
    Sorted(Vec<(u64, u32, u64)>),
}

/// Addresses strictly ascend.
pub open spec fn sorted_entries(v: Seq<(u64, u32, u64)>) -> bool {
    forall|i: int, j: int| #![trigger v[i], v[j]] 0 <= i < j < v.len() ==> v[i].0 < v[j].0
}

/// The map that a sorted array stands for.
pub open spec fn entries_map(v: Seq<(u64, u32, u64)>) -> Map<u64, (u32, u64)> {
    Map::new(
        |addr: u64| exists|i: int| #![trigger v[i]] 0 <= i < v.len() && v[i].0 == addr,
        |addr: u64|
            {
                let i = choose|i: int| #![trigger v[i]] 0 <= i < v.len() && v[i].0 == addr;
                (v[i].1, v[i].2)
            },
    )
}

pub proof fn lemma_entry_at(v: Seq<(u64, u32, u64)>, i: int)
    requires
        sorted_entries(v),
        0 <= i < v.len(),
    ensures
        entries_map(v).contains_key(v[i].0),
        entries_map(v)[v[i].0] == (v[i].1, v[i].2),
{
    let c = choose|c: int| #![trigger v[c]] 0 <= c < v.len() && v[c].0 == v[i].0;
    if c < i {
        assert(v[c].0 < v[i].0);
    } else if i < c {
        assert(v[i].0 < v[c].0);
    }
}

impl View for MemLastDef {
    type V = Map<u64, (u32, u64)>;

    open spec fn view(&self) -> Map<u64, (u32, u64)> {
        match self {
            MemLastDef::Hashed(m) => m@,
            MemLastDef::Sorted(v) => entries_map(v@),
        }
    }
}

impl MemLastDef {
    /// A sorted array has its addresses in strictly ascending order.
    pub open spec fn wf(self) -> bool {
        match self {
            MemLastDef::Hashed(_) => true,
            MemLastDef::Sorted(v) => sorted_entries(v@),
        }
    }

    pub fn new() -> (r: Self)
        ensures
            r is Hashed,
            r@ == Map::<u64, (u32, u64)>::empty(),
            r.wf(),
    {
        MemLastDef::Hashed(FxHashMap::default())
    }

    /// The last store to a byte: its line and the stored value.
    pub fn get(&self, addr: &u64) -> (r: Option<(u32, u64)>)
        requires
            self.wf(),
        ensures
            r == (if self@.contains_key(*addr) {
                Some(self@[*addr])
            } else {
                None
            }),
    {
        match self {
            MemLastDef::Hashed(m) => match foreign::fx_get(m, addr) {
                Some(entry) => Some(*entry),
                None => None,
            },
            MemLastDef::Sorted(v) => {
                let mut lo: usize = 0;
                let mut hi: usize = v.len();
                while lo < hi
                    invariant
                        sorted_entries(v@),
                        lo <= hi <= v@.len(),
                        forall|i: int| 0 <= i < lo ==> v@[i].0 < *addr,
                        forall|i: int| hi <= i < v@.len() ==> *addr < v@[i].0,
                        self == MemLastDef::Sorted(*v),
                    decreases hi - lo,
                {
                    let mid: usize = lo + (hi - lo) / 2;
                    let entry = v[mid];
                    if entry.0 == *addr {
                        proof {
                            lemma_entry_at(v@, mid as int);
                        }
                        return Some((entry.1, entry.2));
                    }
                    if entry.0 < *addr {
                        lo = mid + 1;
                    } else {
                        hi = mid;
                    }
                }
                None
            },
        }
    }

    /// The hash map of the growing form.
    pub fn hashed(&self) -> (m: &FxHashMap<u64, (u32, u64)>)
        requires
            *self is Hashed,
        ensures
            m@ == self@,
    {
        match self {
            MemLastDef::Hashed(m) => m,
            MemLastDef::Sorted(_) => {
                assert(false);
                vstd::pervasive::unreached()
            },
        }
    }

    /// Records a store; only before [`MemLastDef::compact`].
    pub fn insert(&mut self, addr: u64, value: (u32, u64))
        requires
            *old(self) is Hashed,
        ensures
            *final(self) is Hashed,
            final(self)@ == old(self)@.insert(addr, value),
    {
        match self {
            MemLastDef::Hashed(m) => {
                foreign::fx_insert(m, addr, value);
            },
            MemLastDef::Sorted(_) => {},
        }
    }

    /// Number of bytes with a known last store.
    pub fn len(&self) -> (n: usize)
        requires
            self.wf(),
        ensures
            n == self@.len(),
    {
        match self {
            MemLastDef::Hashed(m) => foreign::fx_len(m),
            MemLastDef::Sorted(v) => {
                proof {
                    lemma_entries_len(v@);
                }
                v.len()
            },
        }
    }

    pub fn is_empty(&self) -> (b: bool)
        requires
            self.wf(),
        ensures
            b == (self@.len() == 0),
    {
        self.len() == 0
    }

    /// Turns the hash map into a sorted array; what [`MemLastDef::get`] answers
    /// stays the same.
    pub fn compact(&mut self)
        requires
            old(self).wf(),
        ensures
            *final(self) is Sorted,
            final(self).wf(),
            final(self)@ == old(self)@,
            *old(self) is Sorted ==> *final(self) == *old(self),
    {
        if let MemLastDef::Hashed(m) = self {
            let sorted = sorted_from_map(m);
            *self = MemLastDef::Sorted(sorted);
        }
    }
}

/// Empties a hash map into a sorted array.
pub(crate) fn sorted_from_map(m: &mut FxHashMap<u64, (u32, u64)>) -> (sorted: Vec<(u64, u32, u64)>)
    ensures
        sorted_entries(sorted@),
        entries_map(sorted@) == old(m)@,
{
    let ghost map = m@;
    let mut pairs = foreign::fx_drain(m);
    let ghost unsorted = pairs@;
    foreign::sort_by_first(&mut pairs);
    proof {
        foreign::lemma_sorted_lists(unsorted, pairs@, map);
    }
    let mut sorted: Vec<(u64, u32, u64)> = Vec::with_capacity(pairs.len());
    let mut i: usize = 0;
    while i < pairs.len()
        invariant
            i <= pairs@.len(),
            sorted@.len() == i,
            forall|k: int|
                #![trigger sorted@[k]]
                #![trigger pairs@[k]]
                0 <= k < i ==> sorted@[k] == (pairs@[k].0, pairs@[k].1.0, pairs@[k].1.1),
        decreases pairs@.len() - i,
    {
        let pair = pairs[i];
        sorted.push((pair.0, pair.1.0, pair.1.1));
        i += 1;
    }
    proof {
        let v = sorted@;
        assert(sorted_entries(v)) by {
            assert forall|a: int, b: int| #![trigger v[a], v[b]] 0 <= a < b < v.len() implies v[a].0
                < v[b].0 by {
                assert(pairs@[a].0 < pairs@[b].0);
            }
        }
        assert(entries_map(v) =~= map) by {
            assert forall|k: u64| #[trigger] map.contains_key(k) implies entries_map(
                v,
            ).contains_key(k) && entries_map(v)[k] == map[k] by {
                let i = choose|i: int|
                    #![trigger pairs@[i]]
                    0 <= i < pairs@.len() && pairs@[i].0 == k;
                assert(v[i].0 == k);
                lemma_entry_at(v, i);
            }
            assert forall|k: u64| #[trigger] entries_map(v).contains_key(k) implies map.contains_key(
                k,
            ) by {
                let i = choose|i: int| #![trigger v[i]] 0 <= i < v.len() && v[i].0 == k;
                assert(map.contains_key(pairs@[i].0));
            }
        }
    }
    sorted
}

/// A sorted array has as many addresses as entries.
pub proof fn lemma_entries_len(v: Seq<(u64, u32, u64)>)
    requires
        sorted_entries(v),
    ensures
        entries_map(v).dom().finite(),
        entries_map(v).len() == v.len(),
    decreases v.len(),
{
    if v.len() == 0 {
        assert(entries_map(v).dom() =~= Set::empty());
    } else {
        let p = v.drop_last();
        lemma_entries_len(p);
        assert(entries_map(v).dom() =~= entries_map(p).dom().insert(v.last().0)) by {
            assert forall|a: u64| #[trigger] entries_map(v).contains_key(a) implies entries_map(
                p,
            ).dom().insert(v.last().0).contains(a) by {
                let i = choose|i: int| #![trigger v[i]] 0 <= i < v.len() && v[i].0 == a;
                if i < p.len() {
                    assert(p[i].0 == a);
                }
            }
            assert forall|a: u64|
                entries_map(p).dom().insert(v.last().0).contains(a) implies #[trigger] entries_map(
                v,
            ).contains_key(a) by {
                if entries_map(p).contains_key(a) {
                    let i = choose|i: int| #![trigger p[i]] 0 <= i < p.len() && p[i].0 == a;
                    assert(v[i].0 == a);
                } else {
                    assert(v[v.len() - 1].0 == a);
                }
            }
        }
        assert(!entries_map(p).contains_key(v.last().0)) by {
            if entries_map(p).contains_key(v.last().0) {
                let i = choose|i: int|
                    #![trigger p[i]]
                    0 <= i < p.len() && p[i].0 == v.last().0;
                assert(v[i].0 < v[v.len() - 1].0);
            }
        }
    }
}

impl Default for MemLastDef {
    fn default() -> (r: Self)
        ensures
            r is Hashed,
            r@ == Map::<u64, (u32, u64)>::empty(),
    {
        Self::new()
    }
}

} // verus!
