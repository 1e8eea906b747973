//! Memory accesses by address.

use crate::foreign;
use rustc_hash::FxHashMap;
use vstd::prelude::*;

verus! {

#[derive(Debug, Clone, Copy, PartialEq, Eq, Structural)]
pub enum MemRw {
    Read,
    Write,
}

/// One access.
#[derive(Debug, Clone, Copy, PartialEq, Eq, Structural)]
pub struct MemAccessRecord {
    pub seq: u32,
    pub insn_addr: u64,
    pub rw: MemRw,
    pub data: u64,
    pub size: u8,
}

/// The accesses to each address in the order in which they were added.
pub struct MemAccessIndex {
    by_addr: FxHashMap<u64, Vec<MemAccessRecord>>,
}

pub open spec fn list_views(m: Map<u64, Vec<MemAccessRecord>>) -> Map<u64, Seq<MemAccessRecord>> {
    m.map_values(|v: Vec<MemAccessRecord>| v@)
}

/// The accesses to an address, none if it was never touched.
pub open spec fn accesses_at(m: Map<u64, Seq<MemAccessRecord>>, addr: u64) -> Seq<MemAccessRecord> {
    if m.contains_key(addr) {
        m[addr]
    } else {
        Seq::empty()
    }
}

/// `a` followed by `b`, address by address.
pub open spec fn joined(
    a: Map<u64, Seq<MemAccessRecord>>,
    b: Map<u64, Seq<MemAccessRecord>>,
) -> Map<u64, Seq<MemAccessRecord>> {
    Map::new(
        |addr: u64| a.contains_key(addr) || b.contains_key(addr),
        |addr: u64| accesses_at(a, addr) + accesses_at(b, addr),
    )
}

impl View for MemAccessIndex {
    type V = Map<u64, Seq<MemAccessRecord>>;

    closed spec fn view(&self) -> Map<u64, Seq<MemAccessRecord>> {
        list_views(self.by_addr@)
    }
}

impl MemAccessIndex {
    pub fn new() -> (r: Self)
        ensures
            r@ == Map::<u64, Seq<MemAccessRecord>>::empty(),
    {
        let r = MemAccessIndex { by_addr: FxHashMap::default() };
        assert(r@ =~= Map::<u64, Seq<MemAccessRecord>>::empty());
        r
    }

    /// Appends an access to an address.
    pub fn add(&mut self, addr: u64, record: MemAccessRecord)
        ensures
            final(self)@ == old(self)@.insert(addr, accesses_at(old(self)@, addr).push(record)),
    {
        let ghost before = self@;
        let mut list: Vec<MemAccessRecord> = match foreign::fx_remove(&mut self.by_addr, &addr) {
            Some(list) => list,
            None => Vec::new(),
        };
        assert(list@ =~= accesses_at(before, addr));
        list.push(record);
        foreign::fx_insert(&mut self.by_addr, addr, list);
        assert(self@ =~= before.insert(addr, accesses_at(before, addr).push(record)));
    }

    /// The accesses to an address, oldest first.
    pub fn get(&self, addr: u64) -> (r: Option<&Vec<MemAccessRecord>>)
        ensures
            match r {
                Some(list) => self@.contains_key(addr) && list@ == self@[addr],
                None => !self@.contains_key(addr),
            },
    {
        foreign::fx_get(&self.by_addr, &addr)
    }

    /// Number of addresses with an access.
    pub fn total_addresses(&self) -> (n: usize)
        ensures
            n == self@.dom().len(),
    {
        assert(self@.dom() =~= self.by_addr@.dom());
        foreign::fx_len(&self.by_addr)
    }

    /// The addresses with an access, each once.
    pub fn addresses(&self) -> (keys: Vec<u64>)
        ensures
            foreign::lists_keys(keys@, self@),
    {
        let keys = foreign::fx_keys(&self.by_addr);
        assert(self@.dom() =~= self.by_addr@.dom());
        assert forall|k: u64| #[trigger] self@.contains_key(k) == self.by_addr@.contains_key(k) by {}
        keys
    }

    /// Number of accesses over all addresses.
    pub fn total_records(&self) -> (n: usize)
        requires
            record_total(self@) <= usize::MAX,
        ensures
            n == record_total(self@),
    {
        let keys = foreign::fx_keys(&self.by_addr);
        proof {
            assert(self@.dom() =~= self.by_addr@.dom());
            assert(keys@.to_set() =~= self@.dom()) by {
                assert forall|k: u64| self@.dom().contains(k) implies keys@.to_set().contains(k) by {
                    let i = choose|i: int| #![trigger keys@[i]] 0 <= i < keys@.len() && keys@[i] == k;
                    assert(keys@.contains(keys@[i]));
                }
            }
            vstd::seq_lib::seq_to_set_is_finite(keys@);
        }
        let mut total: usize = 0;
        let ghost mut left = self@;
        let mut i: usize = 0;
        while i < keys.len()
            invariant
                i <= keys@.len(),
                foreign::lists_keys(keys@, self.by_addr@),
                left.dom().finite(),
                left.submap_of(self@),
                forall|k: u64| #[trigger]
                    left.contains_key(k) <==> self@.contains_key(k) && forall|j: int|
                        #![trigger keys@[j]]
                        0 <= j < i ==> keys@[j] != k,
                total + record_total(left) == record_total(self@),
                record_total(self@) <= usize::MAX,
            decreases keys@.len() - i,
        {
            let key: u64 = keys[i];
            assert(left.contains_key(key)) by {
                assert(self.by_addr@.contains_key(keys@[i as int]));
                assert(self@.contains_key(key));
            }
            proof {
                lemma_record_total(left, key);
                left = left.remove(key);
            }
            if let Some(list) = foreign::fx_get(&self.by_addr, &key) {
                total += list.len();
            }
            i += 1;
        }
        assert(left.dom() =~= Set::empty()) by {
            assert forall|k: u64| !#[trigger] left.dom().contains(k) by {
                if left.contains_key(k) {
                    assert(self.by_addr@.contains_key(k));
                    let j = choose|j: int| #![trigger keys@[j]] 0 <= j < keys@.len() && keys@[j] == k;
                    assert(keys@[j] != k);
                }
            }
        }
        total
    }

    /// Appends all accesses of another index.
    pub fn append(&mut self, other: MemAccessIndex)
        ensures
            final(self)@ == joined(old(self)@, other@),
    {
        let ghost start = self@;
        let ghost more = other@;
        let mut map = other.by_addr;
        let ghost raw = map@;
        let mut entries = foreign::fx_drain(&mut map);
        let ghost listed = entries@;
        let mut i: usize = 0;
        while i < entries.len()
            invariant
                i <= entries@.len(),
                entries@ == listed,
                foreign::lists_map(listed, raw),
                more == list_views(raw),
                forall|addr: u64| #[trigger]
                    self@.contains_key(addr) <==> start.contains_key(addr) || taken(
                        listed,
                        i as int,
                        addr,
                    ),
                forall|addr: u64| #[trigger]
                    self@.contains_key(addr) ==> self@[addr] == if taken(listed, i as int, addr) {
                        accesses_at(start, addr) + more[addr]
                    } else {
                        start[addr]
                    },
            decreases entries@.len() - i,
        {
            let ghost before = self@;
            let addr: u64 = entries[i].0;
            let mut list: Vec<MemAccessRecord> = match foreign::fx_remove(&mut self.by_addr, &addr) {
                Some(list) => list,
                None => Vec::new(),
            };
            assert(list@ =~= accesses_at(before, addr));
            extend_records(&mut list, &entries[i].1);
            foreign::fx_insert(&mut self.by_addr, addr, list);
            proof {
                assert(!taken(listed, i as int, addr)) by {
                    if taken(listed, i as int, addr) {
                        let k = choose|k: int|
                            #![trigger listed[k]]
                            0 <= k < i && listed[k].0 == addr;
                        assert(listed[k].0 != listed[i as int].0);
                    }
                }
                assert(raw.contains_key(listed[i as int].0));
                assert(accesses_at(before, addr) =~= accesses_at(start, addr));
                assert(self@ =~= before.insert(addr, accesses_at(start, addr) + more[addr]));
                assert forall|a: u64| taken(listed, i + 1, a) == (taken(listed, i as int, a) || a
                    == addr) by {
                    if taken(listed, i + 1, a) && a != addr {
                        let k = choose|k: int|
                            #![trigger listed[k]]
                            0 <= k < i + 1 && listed[k].0 == a;
                        assert(k < i);
                    }
                    if a == addr {
                        assert(listed[i as int].0 == a);
                    }
                }
            }
            i += 1;
        }
        proof {
            assert forall|a: u64| taken(listed, listed.len() as int, a) == more.contains_key(a) by {
                if more.contains_key(a) {
                    assert(raw.contains_key(a));
                }
                if taken(listed, listed.len() as int, a) {
                    let k = choose|k: int|
                        #![trigger listed[k]]
                        0 <= k < listed.len() && listed[k].0 == a;
                    assert(raw.contains_key(listed[k].0));
                }
            }
            let want = joined(start, more);
            assert forall|a: u64| #[trigger] want.contains_key(a) implies self@.contains_key(a)
                && self@[a] == want[a] by {
                assert(taken(listed, listed.len() as int, a) == more.contains_key(a));
                if !more.contains_key(a) {
                    assert(accesses_at(start, a) + accesses_at(more, a) =~= start[a]);
                }
            }
            assert(self@ =~= want);
        }
    }
}

/// Number of accesses over all addresses.
pub open spec fn record_total(m: Map<u64, Seq<MemAccessRecord>>) -> int
    decreases m.dom().len(),
{
    if m.dom().finite() && m.dom().len() > 0 {
        let a = m.dom().choose();
        m[a].len() + record_total(m.remove(a))
    } else {
        0
    }
}

/// Any address can be counted first.
pub proof fn lemma_record_total(m: Map<u64, Seq<MemAccessRecord>>, k: u64)
    requires
        m.dom().finite(),
        m.contains_key(k),
    ensures
        record_total(m) == m[k].len() + record_total(m.remove(k)),
        0 <= record_total(m.remove(k)),
    decreases m.dom().len(),
{
    let a = m.dom().choose();
    lemma_record_nonneg(m.remove(k));
    assert(m.dom().contains(a));
    if a != k {
        lemma_record_total(m.remove(a), k);
        lemma_record_total(m.remove(k), a);
        assert(m.remove(a).remove(k) =~= m.remove(k).remove(a));
    }
}

proof fn lemma_record_nonneg(m: Map<u64, Seq<MemAccessRecord>>)
    ensures
        0 <= record_total(m),
    decreases m.dom().len(),
{
    if m.dom().finite() && m.dom().len() > 0 {
        lemma_record_nonneg(m.remove(m.dom().choose()));
    }
}

/// The address is among the first `n` entries.
spec fn taken(listed: Seq<(u64, Vec<MemAccessRecord>)>, n: int, addr: u64) -> bool {
    exists|k: int| #![trigger listed[k]] 0 <= k < n && listed[k].0 == addr
}

fn extend_records(list: &mut Vec<MemAccessRecord>, more: &Vec<MemAccessRecord>)
    ensures
        final(list)@ == old(list)@ + more@,
{
    let ghost start = list@;
    let mut i: usize = 0;
    while i < more.len()
        invariant
            i <= more@.len(),
            list@ =~= start + more@.take(i as int),
        decreases more@.len() - i,
    {
        list.push(more[i]);
        i += 1;
    }
    assert(more@.take(more@.len() as int) =~= more@);
}

impl Default for MemAccessIndex {
    fn default() -> (r: Self)
        ensures
            r@ == Map::<u64, Seq<MemAccessRecord>>::empty(),
    {
        Self::new()
    }
}

} // verus!
