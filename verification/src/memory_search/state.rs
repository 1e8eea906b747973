//! The memory during a replay, and where the pattern stands in it.

use crate::error::{is_parse_error, parse_error, TraceError};
use crate::foreign;
use crate::memory_search::expand::{byte64, ByteValue};
use crate::memory_search::request::{MemoryOccurrence, MemorySearchRw};
use std::collections::{BTreeSet, HashMap, HashSet};
use vstd::prelude::*;

verus! {

/// Length of the prefix by which places worth a look are found.
pub const ANCHOR_SIZE: usize = 8;

/// The bytes that are known.
pub type Bytes = Map<u64, u8>;

/// The pattern stands at an address.
pub open spec fn matches_at(mem: Bytes, address: u64, pattern: Seq<u8>) -> bool {
    forall|o: int| 0 <= o < pattern.len() ==> #[trigger] byte_matches(mem, address, pattern, o)
}

/// Byte `o` of the pattern stands at its place.
pub open spec fn byte_matches(mem: Bytes, address: u64, pattern: Seq<u8>, o: int) -> bool {
    &&& address + o <= u64::MAX
    &&& mem.contains_key((address + o) as u64)
    &&& mem[(address + o) as u64] == pattern[o]
}

/// Memory after one byte of an access. A read that does not show a byte says
/// nothing about it; a write that does not show it makes it unknown.
pub open spec fn with_byte(mem: Bytes, address: u64, byte: ByteValue, rw: MemorySearchRw) -> Bytes {
    if byte.known {
        mem.insert(address, byte.value)
    } else if rw == MemorySearchRw::Write {
        mem.remove(address)
    } else {
        mem
    }
}

/// Memory after the first `n` bytes of an access.
pub open spec fn with_bytes(
    mem: Bytes,
    address: u64,
    values: Seq<ByteValue>,
    rw: MemorySearchRw,
    n: int,
) -> Bytes
    decreases n,
{
    if n <= 0 {
        mem
    } else {
        with_byte(
            with_bytes(mem, address, values, rw, n - 1),
            (address + n - 1) as u64,
            values[n - 1],
            rw,
        )
    }
}

/// What restricts a search.
pub struct SearchFilter {
    pub seq_range: Option<(u32, u32)>,
    pub memory_range: Option<(u64, u64)>,
}

/// A match at `start` and line `seq` is wanted.
pub open spec fn wanted(f: SearchFilter, len: nat, start: u64, seq: u32) -> bool {
    &&& f.seq_range matches Some((first, last)) ==> first <= seq <= last
    &&& f.memory_range matches Some((first, last)) ==> first <= start && start + len <= last
}

/// The matches that an access brings about at the addresses `low..high`.
pub open spec fn fresh_matches(
    before: Bytes,
    after: Bytes,
    pattern: Seq<u8>,
    f: SearchFilter,
    seq: u32,
    rw: MemorySearchRw,
    low: int,
    high: int,
) -> Seq<MemoryOccurrence>
    decreases high - low,
{
    if high <= low {
        Seq::empty()
    } else {
        let earlier = fresh_matches(before, after, pattern, f, seq, rw, low, high - 1);
        let start = (high - 1) as u64;
        if matches_at(after, start, pattern) && !matches_at(before, start, pattern) && wanted(
            f,
            pattern.len(),
            start,
            seq,
        ) {
            earlier.push(MemoryOccurrence { address: start, seq, rw })
        } else {
            earlier
        }
    }
}

/// First address at which a match can overlap an access.
pub open spec fn low_end(address: u64, pattern: Seq<u8>) -> int {
    if address >= pattern.len() - 1 {
        address - (pattern.len() - 1)
    } else {
        0
    }
}

/// The matches that an access brings about.
pub open spec fn event_matches(
    mem: Bytes,
    pattern: Seq<u8>,
    f: SearchFilter,
    address: u64,
    values: Seq<ByteValue>,
    seq: u32,
    rw: MemorySearchRw,
) -> Seq<MemoryOccurrence> {
    fresh_matches(
        mem,
        with_bytes(mem, address, values, rw, values.len() as int),
        pattern,
        f,
        seq,
        rw,
        low_end(address, pattern),
        address + values.len(),
    )
}

// ---------------------------------------------------------------------------
// Sparse memory
// ---------------------------------------------------------------------------

/// Memory of which only some bytes are known.
pub struct SparseMemory {
    bytes: HashMap<u64, ByteValue>,
}

impl View for SparseMemory {
    type V = Bytes;

    closed spec fn view(&self) -> Bytes {
        self.bytes@.map_values(|b: ByteValue| b.value)
    }
}

impl SparseMemory {
    /// Only known bytes are kept.
    pub closed spec fn wf(self) -> bool {
        forall|a: u64| #[trigger] self.bytes@.contains_key(a) ==> self.bytes@[a].known
    }

    pub fn new() -> (m: Self)
        ensures
            m.wf(),
            m@ == Map::<u64, u8>::empty(),
    {
        let m = SparseMemory { bytes: HashMap::new() };
        assert(m@ =~= Map::<u64, u8>::empty());
        m
    }

    /// The byte at an address.
    pub fn get(&self, address: u64) -> (b: ByteValue)
        requires
            self.wf(),
        ensures
            b.known == self@.contains_key(address),
            b.known ==> b.value == self@[address],
    {
        match self.bytes.get(&address) {
            Some(b) => {
                assert(self.bytes@.contains_key(address));
                *b
            },
            None => ByteValue::unknown(),
        }
    }

    /// Sets a byte, or makes it unknown.
    pub fn set(&mut self, address: u64, value: ByteValue)
        requires
            old(self).wf(),
        ensures
            final(self).wf(),
            final(self)@ == with_byte(old(self)@, address, value, MemorySearchRw::Write),
    {
        let ghost before = self@;
        if value.known {
            self.bytes.insert(address, value);
        } else {
            self.bytes.remove(&address);
        }
        assert(self@ =~= with_byte(before, address, value, MemorySearchRw::Write));
    }

    /// Whether the pattern stands at an address.
    pub fn matches(&self, address: u64, pattern: &[u8]) -> (b: bool)
        requires
            self.wf(),
        ensures
            b == matches_at(self@, address, pattern@),
    {
        let mut o: usize = 0;
        while o < pattern.len()
            invariant
                self.wf(),
                o <= pattern@.len(),
                forall|k: int| 0 <= k < o ==> #[trigger] byte_matches(self@, address, pattern@, k),
            decreases pattern@.len() - o,
        {
            match address.checked_add(o as u64) {
                Some(at) => {
                    let byte = self.get(at);
                    if !byte.known || byte.value != pattern[o] {
                        assert(!byte_matches(self@, address, pattern@, o as int));
                        return false;
                    }
                },
                None => {
                    assert(!byte_matches(self@, address, pattern@, o as int));
                    return false;
                },
            }
            o += 1;
        }
        true
    }

    /// The first `anchor_len` bytes at an address packed into a number, if all
    /// of them are known.
    fn anchor_key(&self, address: u64, anchor_len: usize) -> (r: Option<u64>)
        requires
            self.wf(),
            anchor_len <= 8,
        ensures
            match r {
                Some(key) => all_known(self@, address, anchor_len as int) && key == pack(
                    window(self@, address, anchor_len as int),
                ),
                None => !all_known(self@, address, anchor_len as int),
            },
    {
        let mut key: u64 = 0;
        let mut i: usize = 0;
        assert(window(self@, address, 0) =~= Seq::empty());
        while i < anchor_len
            invariant
                self.wf(),
                i <= anchor_len <= 8,
                all_known(self@, address, i as int),
                key == pack(window(self@, address, i as int)),
            decreases anchor_len - i,
        {
            let at: u64 = match address.checked_add(i as u64) {
                Some(at) => at,
                None => {
                    assert(!known_at(self@, address, i as int));
                    return None;
                },
            };
            let byte = self.get(at);
            if !byte.known {
                assert(!known_at(self@, address, i as int));
                return None;
            }
            assert(window(self@, address, i + 1).drop_last() =~= window(self@, address, i as int));
            let shift: u64 = (i * 8) as u64;
            key = key | ((byte.value as u64) << shift);
            i += 1;
        }
        Some(key)
    }
}

/// The byte at an offset is known.
pub open spec fn known_at(mem: Bytes, address: u64, o: int) -> bool {
    address + o <= u64::MAX && mem.contains_key((address + o) as u64)
}

pub open spec fn all_known(mem: Bytes, address: u64, n: int) -> bool {
    forall|o: int| 0 <= o < n ==> #[trigger] known_at(mem, address, o)
}

/// `n` bytes of memory.
pub open spec fn window(mem: Bytes, address: u64, n: int) -> Seq<u8> {
    Seq::new(n as nat, |o: int| mem[(address + o) as u64])
}

/// Bytes packed into a number, the first one lowest.
pub open spec fn pack(s: Seq<u8>) -> u64
    decreases s.len(),
{
    if s.len() == 0 {
        0
    } else {
        pack(s.drop_last()) | ((s.last() as u64) << ((8 * (s.len() - 1)) as u64))
    }
}

proof fn lemma_or_byte(key: u64, b: u64, s: u64, t: u64)
    requires
        s <= 56,
        b <= 255,
        key >> s == 0,
    ensures
        t <= 56 && t + 8 <= s ==> ((key | (b << s)) >> t) & 0xff == (key >> t) & 0xff,
        ((key | (b << s)) >> s) & 0xff == b,
        s <= 48 ==> (key | (b << s)) >> ((s + 8) as u64) == 0,
{
    assert(t <= 56 && t + 8 <= s ==> ((key | (b << s)) >> t) & 0xff == (key >> t) & 0xff) by (bit_vector)
        requires
            s <= 56,
            b <= 255,
    ;
    assert(((key | (b << s)) >> s) & 0xff == b) by (bit_vector)
        requires
            s <= 56,
            b <= 255,
            key >> s == 0,
    ;
    if s <= 48 {
        let u = (s + 8) as u64;
        assert((key | (b << s)) >> u == 0) by (bit_vector)
            requires
                s <= 48,
                b <= 255,
                key >> s == 0,
                u == s + 8,
        ;
    }
}

/// The packed number holds each byte in its place, and nothing above.
proof fn lemma_pack_byte(s: Seq<u8>, j: int)
    requires
        s.len() <= 8,
    ensures
        0 <= j < s.len() ==> byte64(pack(s), j) == s[j],
        s.len() < 8 ==> pack(s) >> ((8 * s.len()) as u64) == 0,
    decreases s.len(),
{
    if s.len() == 0 {
        assert(0u64 >> 0u64 == 0) by (bit_vector);
    } else {
        let p = s.drop_last();
        lemma_pack_byte(p, j);
        let shift = (8 * (s.len() - 1)) as u64;
        let b = s.last() as u64;
        let t = (8 * j) as u64;
        lemma_or_byte(pack(p), b, shift, if 0 <= j < 8 {
            t
        } else {
            0
        });
        assert((8 * s.len()) as u64 == shift + 8);
        if 0 <= j < p.len() {
            assert(p[j] == s[j]);
        }
    }
}

/// Equal numbers come from equal bytes.
pub proof fn lemma_pack_injective(a: Seq<u8>, b: Seq<u8>)
    requires
        a.len() == b.len(),
        a.len() <= 8,
        pack(a) == pack(b),
    ensures
        a == b,
{
    assert forall|j: int| 0 <= j < a.len() implies a[j] == b[j] by {
        lemma_pack_byte(a, j);
        lemma_pack_byte(b, j);
    }
    assert(a =~= b);
}

// ---------------------------------------------------------------------------
// Search state
// ---------------------------------------------------------------------------

/// A replay: the memory, the places where the first bytes of the pattern
/// stand, and those where all of it stands.
pub struct SearchState<'a> {
    pub memory: SparseMemory,
    pub anchor_len: usize,
    pub anchor_key: u64,
    pub anchor_positions: BTreeSet<u64>,
    pub active_matches: HashSet<u64>,
    pub pattern: &'a [u8],
}

/// Length of the anchor of a pattern.
pub open spec fn anchor_length(pattern: Seq<u8>) -> int {
    if pattern.len() < ANCHOR_SIZE {
        pattern.len() as int
    } else {
        ANCHOR_SIZE as int
    }
}

/// The anchor of the pattern stands at an address.
pub open spec fn anchored(mem: Bytes, start: u64, pattern: Seq<u8>) -> bool {
    matches_at(mem, start, pattern.take(anchor_length(pattern)))
}

/// The whole pattern stands only where its anchor does.
proof fn lemma_match_is_anchored(mem: Bytes, start: u64, pattern: Seq<u8>)
    requires
        matches_at(mem, start, pattern),
    ensures
        anchored(mem, start, pattern),
{
    let a = pattern.take(anchor_length(pattern));
    assert forall|o: int| 0 <= o < a.len() implies #[trigger] byte_matches(mem, start, a, o) by {
        assert(byte_matches(mem, start, pattern, o));
    }
}

/// An access leaves the bytes outside of it alone.
proof fn lemma_bytes_outside(
    mem: Bytes,
    address: u64,
    values: Seq<ByteValue>,
    rw: MemorySearchRw,
    n: int,
    at: u64,
)
    requires
        0 <= n <= values.len(),
        address + values.len() <= u64::MAX + 1,
        at < address || at >= address + n,
    ensures
        with_bytes(mem, address, values, rw, n).contains_key(at) == mem.contains_key(at),
        mem.contains_key(at) ==> with_bytes(mem, address, values, rw, n)[at] == mem[at],
    decreases n,
{
    if n > 0 {
        lemma_bytes_outside(mem, address, values, rw, n - 1, at);
    }
}

/// An access changes nothing for a pattern that does not overlap it.
proof fn lemma_match_outside(
    mem: Bytes,
    address: u64,
    values: Seq<ByteValue>,
    rw: MemorySearchRw,
    n: int,
    start: u64,
    pattern: Seq<u8>,
)
    requires
        0 <= n <= values.len(),
        address + values.len() <= u64::MAX + 1,
        start + pattern.len() <= address || start >= address + n,
    ensures
        matches_at(with_bytes(mem, address, values, rw, n), start, pattern) == matches_at(
            mem,
            start,
            pattern,
        ),
{
    let after = with_bytes(mem, address, values, rw, n);
    assert forall|o: int| 0 <= o < pattern.len() implies #[trigger] byte_matches(
        after,
        start,
        pattern,
        o,
    ) == byte_matches(mem, start, pattern, o) by {
        if start + o <= u64::MAX {
            lemma_bytes_outside(mem, address, values, rw, n, (start + o) as u64);
        }
    }
    if matches_at(mem, start, pattern) {
        assert forall|o: int| 0 <= o < pattern.len() implies #[trigger] byte_matches(
            after,
            start,
            pattern,
            o,
        ) by {
            assert(byte_matches(mem, start, pattern, o));
        }
    }
    if matches_at(after, start, pattern) {
        assert forall|o: int| 0 <= o < pattern.len() implies #[trigger] byte_matches(
            mem,
            start,
            pattern,
            o,
        ) by {
            assert(byte_matches(after, start, pattern, o));
        }
    }
}

/// Addresses without a fresh match can be passed over.
proof fn lemma_fresh_skip(
    before: Bytes,
    after: Bytes,
    pattern: Seq<u8>,
    f: SearchFilter,
    seq: u32,
    rw: MemorySearchRw,
    low: int,
    mid: int,
    high: int,
)
    requires
        0 <= low <= mid <= high <= u64::MAX + 1,
        forall|s: u64|
            mid <= s < high ==> !(#[trigger] matches_at(after, s, pattern)) || matches_at(
                before,
                s,
                pattern,
            ),
    ensures
        fresh_matches(before, after, pattern, f, seq, rw, low, high) == fresh_matches(
            before,
            after,
            pattern,
            f,
            seq,
            rw,
            low,
            mid,
        ),
    decreases high - mid,
{
    if mid < high {
        lemma_fresh_skip(before, after, pattern, f, seq, rw, low, mid, high - 1);
        let s = (high - 1) as u64;
        assert(!matches_at(after, s, pattern) || matches_at(before, s, pattern));
    }
}

impl<'a> SearchState<'a> {
    /// The pattern that is searched for.
    pub open spec fn needle(self) -> Seq<u8> {
        self.pattern@
    }

    /// The fixed part of the state fits the pattern.
    pub open spec fn fixed(self) -> bool {
        &&& self.pattern@.len() > 0
        &&& self.anchor_len == anchor_length(self.pattern@)
        &&& self.anchor_key == pack(self.pattern@.take(self.anchor_len as int))
        &&& self.memory.wf()
    }

    /// The index of anchors lists exactly the places where the anchor stands.
    pub open spec fn anchors_exact(self) -> bool {
        forall|s: u64| #[trigger]
            self.anchor_positions@.contains(s) <==> anchored(self.memory@, s, self.needle())
    }

    /// The active matches are exactly the places where the pattern stands.
    pub open spec fn matches_exact(self) -> bool {
        forall|s: u64| #[trigger]
            self.active_matches@.contains(s) <==> matches_at(self.memory@, s, self.pattern@)
    }

    /// What every access keeps.
    pub open spec fn wf(self) -> bool {
        &&& self.fixed()
        &&& self.anchors_exact()
        &&& self.matches_exact()
    }

    /// A replay before the first line.
    pub fn new(pattern: &'a [u8]) -> (state: Self)
        requires
            pattern@.len() > 0,
        ensures
            state.wf(),
            state.needle() == pattern@,
            state.memory@ == Map::<u64, u8>::empty(),
            state.anchor_positions@ == Set::<u64>::empty(),
    {
        let anchor_len: usize = if pattern.len() < ANCHOR_SIZE {
            pattern.len()
        } else {
            ANCHOR_SIZE
        };
        let mut key: u64 = 0;
        let mut i: usize = 0;
        assert(pattern@.take(0) =~= Seq::empty());
        while i < anchor_len
            invariant
                i <= anchor_len <= 8,
                anchor_len <= pattern@.len(),
                key == pack(pattern@.take(i as int)),
            decreases anchor_len - i,
        {
            assert(pattern@.take(i + 1).drop_last() =~= pattern@.take(i as int));
            let shift: u64 = (i * 8) as u64;
            key = key | ((pattern[i] as u64) << shift);
            i += 1;
        }
        let state = SearchState {
            memory: SparseMemory::new(),
            anchor_len,
            anchor_key: key,
            anchor_positions: BTreeSet::new(),
            active_matches: HashSet::new(),
            pattern,
        };
        proof {
            assert forall|s: u64| !matches_at(state.memory@, s, pattern@) by {
                assert(!byte_matches(state.memory@, s, pattern@, 0));
            }
            let a = pattern@.take(anchor_length(pattern@));
            assert forall|s: u64| !anchored(state.memory@, s, pattern@) by {
                assert(!byte_matches(state.memory@, s, a, 0));
            }
        }
        state
    }

    /// Addresses at which a match can overlap an access, both ends included;
    /// none if the access is empty or runs past the end of memory.
    fn candidate_range(&self, start: u64, size: usize) -> (r: Option<(u64, u64)>)
        requires
            self.fixed(),
        ensures
            match r {
                Some((low, high)) => size > 0 && start + size <= u64::MAX + 1 && low == low_end(
                    start,
                    self.needle(),
                ) && high == start + size - 1,
                None => size == 0 || start + size > u64::MAX + 1,
            },
    {
        if size == 0 {
            return None;
        }
        let last: u64 = match start.checked_add((size - 1) as u64) {
            Some(last) => last,
            None => {
                return None;
            },
        };
        let back: u64 = (self.pattern.len() - 1) as u64;
        let low: u64 = if start >= back {
            start - back
        } else {
            0
        };
        Some((low, last))
    }

    /// Adds the anchored places of a range.
    fn collect_candidates(&self, range: (u64, u64), output: &mut BTreeSet<u64>)
        requires
            range.0 <= range.1,
        ensures
            forall|s: u64| #[trigger]
                final(output)@.contains(s) <==> old(output)@.contains(s) || (
                self.anchor_positions@.contains(s) && range.0 <= s <= range.1),
    {
        let found = foreign::set_range(&self.anchor_positions, range.0, range.1);
        let ghost start = output@;
        let mut i: usize = 0;
        while i < found.len()
            invariant
                i <= found@.len(),
                forall|s: u64| #[trigger]
                    output@.contains(s) <==> start.contains(s) || exists|k: int|
                        #![trigger found@[k]]
                        0 <= k < i && found@[k] == s,
            decreases found@.len() - i,
        {
            let ghost before = output@;
            output.insert(found[i]);
            assert forall|s: u64| #[trigger]
                output@.contains(s) <==> start.contains(s) || exists|k: int|
                    #![trigger found@[k]]
                    0 <= k < i + 1 && found@[k] == s by {
                if s == found@[i as int] {
                    assert(found@[i as int] == s);
                } else if before.contains(s) && !start.contains(s) {
                    let k = choose|k: int| #![trigger found@[k]] 0 <= k < i && found@[k] == s;
                    assert(found@[k] == s);
                }
            }
            i += 1;
        }
        assert forall|s: u64| #[trigger]
            output@.contains(s) <==> start.contains(s) || (self.anchor_positions@.contains(s)
                && range.0 <= s <= range.1) by {
            if found@.contains(s) {
                let k = choose|k: int| 0 <= k < found@.len() && found@[k] == s;
                assert(found@[k] == s);
            }
            if output@.contains(s) && !start.contains(s) {
                let k = choose|k: int| #![trigger found@[k]] 0 <= k < found@.len() && found@[k] == s;
                assert(found@.contains(found@[k]));
            }
        }
    }

    /// Brings the index of anchors up to date at one place.
    fn update_anchor_position(&mut self, start: u64)
        requires
            old(self).fixed(),
        ensures
            final(self).fixed(),
            *final(self) == (SearchState {
                anchor_positions: final(self).anchor_positions,
                ..*old(self)
            }),
            final(self).anchor_positions@ == (if anchored(
                old(self).memory@,
                start,
                old(self).needle(),
            ) {
                old(self).anchor_positions@.insert(start)
            } else {
                old(self).anchor_positions@.remove(start)
            }),
    {
        let ghost a = self.pattern@.take(self.anchor_len as int);
        let ghost mem = self.memory@;
        match self.memory.anchor_key(start, self.anchor_len) {
            Some(key) => {
                let ghost w = window(mem, start, self.anchor_len as int);
                if key == self.anchor_key {
                    proof {
                        lemma_pack_injective(w, a);
                        assert forall|o: int| 0 <= o < a.len() implies #[trigger] byte_matches(
                            mem,
                            start,
                            a,
                            o,
                        ) by {
                            assert(known_at(mem, start, o));
                            assert(w[o] == a[o]);
                        }
                    }
                    self.anchor_positions.insert(start);
                } else {
                    proof {
                        if anchored(mem, start, self.pattern@) {
                            assert forall|o: int| 0 <= o < a.len() implies w[o] == a[o] by {
                                assert(byte_matches(mem, start, a, o));
                            }
                            assert(w =~= a);
                        }
                    }
                    self.anchor_positions.remove(&start);
                }
            },
            None => {
                proof {
                    if anchored(mem, start, self.pattern@) {
                        assert forall|o: int| 0 <= o < self.anchor_len implies #[trigger] known_at(
                            mem,
                            start,
                            o,
                        ) by {
                            assert(byte_matches(mem, start, a, o));
                        }
                    }
                }
                self.anchor_positions.remove(&start);
            },
        }
    }

    /// Brings the index of anchors up to date at the places whose anchor holds
    /// the byte at `address`.
    pub fn update_anchor_positions_around(&mut self, address: u64)
        requires
            old(self).fixed(),
        ensures
            final(self).fixed(),
            *final(self) == (SearchState {
                anchor_positions: final(self).anchor_positions,
                ..*old(self)
            }),
            forall|s: u64| #[trigger]
                final(self).anchor_positions@.contains(s) <==> if s <= address && address - s
                    < anchor_length(old(self).needle()) {
                    anchored(old(self).memory@, s, old(self).needle())
                } else {
                    old(self).anchor_positions@.contains(s)
                },
    {
        let ghost start = self.anchor_positions@;
        let ghost mem = self.memory@;
        let ghost p = self.needle();
        let mut delta: usize = 0;
        while delta < self.anchor_len
            invariant
                self.fixed(),
                delta <= self.anchor_len,
                self.anchor_len == anchor_length(p),
                *self == (SearchState { anchor_positions: self.anchor_positions, ..*old(self) }),
                mem == self.memory@,
                self.needle() == p,
                p == old(self).needle(),
                forall|s: u64| #[trigger]
                    self.anchor_positions@.contains(s) <==> if s <= address && address - s < delta {
                        anchored(mem, s, p)
                    } else {
                        start.contains(s)
                    },
            decreases self.anchor_len - delta,
        {
            if address >= delta as u64 {
                self.update_anchor_position(address - delta as u64);
            }
            delta += 1;
        }
    }

    /// Enters the bytes of an access in memory and keeps the index of anchors
    /// up to date.
    fn apply_values(&mut self, address: u64, values: &Vec<ByteValue>, rw: MemorySearchRw)
        requires
            old(self).fixed(),
            old(self).anchors_exact(),
            address + values@.len() <= u64::MAX + 1,
        ensures
            final(self).fixed(),
            final(self).anchors_exact(),
            final(self).memory@ == with_bytes(
                old(self).memory@,
                address,
                values@,
                rw,
                values@.len() as int,
            ),
            final(self).active_matches == old(self).active_matches,
            final(self).pattern == old(self).pattern,
    {
        let ghost m0 = self.memory@;
        let ghost p = self.needle();
        let mut o: usize = 0;
        while o < values.len()
            invariant
                o <= values@.len(),
                address + values@.len() <= u64::MAX + 1,
                self.fixed(),
                self.anchors_exact(),
                self.memory@ == with_bytes(m0, address, values@, rw, o as int),
                self.active_matches == old(self).active_matches,
                self.pattern == old(self).pattern,
                p == self.needle(),
            decreases values@.len() - o,
        {
            let at: u64 = address + o as u64;
            let value: ByteValue = values[o];
            let write: bool = match rw {
                MemorySearchRw::Write => true,
                MemorySearchRw::Read => false,
            };
            let ghost before = self.memory@;
            let ghost positions = self.anchor_positions@;
            if value.known || write {
                self.memory.set(at, value);
            }
            let ghost after = self.memory@;
            assert(after =~= with_bytes(m0, address, values@, rw, o + 1));
            self.update_anchor_positions_around(at);
            proof {
                let a = p.take(anchor_length(p));
                assert forall|s: u64| #[trigger]
                    self.anchor_positions@.contains(s) <==> anchored(after, s, p) by {
                    if !(s <= at && at - s < anchor_length(p)) {
                        assert(after == with_byte(before, at, value, rw));
                        lemma_one_byte_outside(before, at, value, rw, s, a);
                        assert(positions.contains(s) <==> anchored(before, s, p));
                    }
                }
            }
            o += 1;
        }
    }

    /// Replays one access: enters its bytes, and reports the places where the
    /// pattern comes to stand because of it, by ascending address.
    pub fn process_event(
        &mut self,
        address: u64,
        values: &Vec<ByteValue>,
        seq: u32,
        rw: MemorySearchRw,
        filter: &SearchFilter,
        sink: &mut Vec<MemoryOccurrence>,
    ) -> (r: Result<(), TraceError>)
        requires
            old(self).wf(),
        ensures
            final(self).wf(),
            final(self).needle() == old(self).needle(),
            if address + values@.len() > u64::MAX + 1 {
                &&& r matches Err(e) && is_parse_error(
                    e,
                    Some(seq),
                    "memory access range overflows u64"@,
                )
                &&& *final(self) == *old(self)
                &&& final(sink)@ == old(sink)@
            } else {
                &&& r is Ok
                &&& final(self).memory@ == with_bytes(
                    old(self).memory@,
                    address,
                    values@,
                    rw,
                    values@.len() as int,
                )
                &&& final(sink)@ == old(sink)@ + event_matches(
                    old(self).memory@,
                    old(self).needle(),
                    *filter,
                    address,
                    values@,
                    seq,
                    rw,
                )
            },
    {
        let ghost m0 = self.memory@;
        let ghost p = self.needle();
        let ghost start_sink = sink@;
        let n: usize = values.len();
        if n == 0 {
            proof {
                lemma_fresh_skip(
                    m0,
                    m0,
                    p,
                    *filter,
                    seq,
                    rw,
                    low_end(address, p),
                    low_end(address, p),
                    address as int,
                );
                assert(sink@ =~= start_sink + Seq::<MemoryOccurrence>::empty());
            }
            return Ok(());
        }
        let (low, high) = match self.candidate_range(address, n) {
            Some(range) => range,
            None => {
                return Err(parse_error(Some(seq), "memory access range overflows u64"));
            },
        };
        let mut candidates: BTreeSet<u64> = BTreeSet::new();
        self.collect_candidates((low, high), &mut candidates);
        let ghost old_anchors = self.anchor_positions@;
        self.apply_values(address, values, rw);
        let ghost m1 = self.memory@;
        self.collect_candidates((low, high), &mut candidates);
        let list = foreign::set_range(&candidates, low, high);
        proof {
            assert forall|s: u64|
                low <= s <= high && !list@.contains(s) implies !(#[trigger] matches_at(m1, s, p))
                && !matches_at(m0, s, p) by {
                assert(!candidates@.contains(s));
                if matches_at(m0, s, p) {
                    lemma_match_is_anchored(m0, s, p);
                    assert(old_anchors.contains(s));
                }
                if matches_at(m1, s, p) {
                    lemma_match_is_anchored(m1, s, p);
                    assert(self.anchor_positions@.contains(s));
                }
            }
            assert forall|s: u64| s < low || s > high implies (#[trigger] matches_at(m1, s, p))
                == matches_at(m0, s, p) by {
                lemma_match_outside(m0, address, values@, rw, n as int, s, p);
            }
            assert(sink@ =~= start_sink + Seq::<MemoryOccurrence>::empty());
        }
        let ghost mut pos: int = low as int;
        assert forall|k: int| #![trigger list@[k]] 0 <= k < list@.len() implies low <= list@[k] by {
            assert(list@.contains(list@[k]));
        }
        let mut i: usize = 0;
        while i < list.len()
            invariant
                i <= list@.len(),
                foreign::lists_range(list@, candidates@, low, high),
                self.fixed(),
                self.anchors_exact(),
                self.memory@ == m1,
                self.needle() == p,
                low <= pos <= high + 1,
                high <= u64::MAX,
                forall|k: int| #![trigger list@[k]] 0 <= k < i ==> list@[k] < pos,
                forall|k: int| #![trigger list@[k]] i <= k < list@.len() ==> pos <= list@[k],
                forall|s: u64|
                    low <= s <= high && !list@.contains(s) ==> !(#[trigger] matches_at(m1, s, p))
                        && !matches_at(m0, s, p),
                sink@ == start_sink + fresh_matches(
                    m0,
                    m1,
                    p,
                    *filter,
                    seq,
                    rw,
                    low as int,
                    pos,
                ),
                forall|s: u64| #[trigger]
                    self.active_matches@.contains(s) <==> if low <= s < pos {
                        matches_at(m1, s, p)
                    } else {
                        matches_at(m0, s, p)
                    },
            decreases list@.len() - i,
        {
            let start: u64 = list[i];
            assert(list@.contains(list@[i as int]));
            proof {
                assert forall|s: u64| pos <= s < start implies !(#[trigger] matches_at(m1, s, p))
                    || matches_at(m0, s, p) by {
                    if list@.contains(s) {
                        let k = choose|k: int| 0 <= k < list@.len() && list@[k] == s;
                        if k < i {
                            assert(list@[k] < pos);
                        } else if k > i {
                            assert(list@[i as int] < list@[k]);
                        }
                    }
                }
                lemma_fresh_skip(
                    m0,
                    m1,
                    p,
                    *filter,
                    seq,
                    rw,
                    low as int,
                    pos,
                    start as int,
                );
            }
            let ghost active = self.active_matches@;
            let is_match: bool = self.memory.matches(start, self.pattern);
            let was_match: bool = self.active_matches.contains(&start);
            if is_match {
                self.active_matches.insert(start);
                if !was_match && in_filter(filter, self.pattern.len(), start, seq) {
                    sink.push(MemoryOccurrence { address: start, seq, rw });
                }
            } else {
                self.active_matches.remove(&start);
            }
            proof {
                let next = start + 1;
                assert(sink@ =~= start_sink + fresh_matches(
                    m0,
                    m1,
                    p,
                    *filter,
                    seq,
                    rw,
                    low as int,
                    next,
                ));
                assert forall|s: u64| #[trigger]
                    self.active_matches@.contains(s) <==> if low <= s < next {
                        matches_at(m1, s, p)
                    } else {
                        matches_at(m0, s, p)
                    } by {
                    if pos <= s < start {
                        assert(!list@.contains(s)) by {
                            if list@.contains(s) {
                                let k = choose|k: int| 0 <= k < list@.len() && list@[k] == s;
                                if k < i {
                                    assert(list@[k] < pos);
                                } else if k > i {
                                    assert(list@[i as int] < list@[k]);
                                }
                            }
                        }
                        assert(!matches_at(m1, s, p));
                    }
                    assert(active.contains(s) <==> if low <= s < pos {
                        matches_at(m1, s, p)
                    } else {
                        matches_at(m0, s, p)
                    });
                }
                assert forall|k: int| #![trigger list@[k]] i + 1 <= k < list@.len() implies next
                    <= list@[k] by {
                    assert(list@[i as int] < list@[k]);
                }
                assert forall|k: int| #![trigger list@[k]] 0 <= k < i + 1 implies list@[k] < next by {
                    if k < i {
                        assert(list@[k] < list@[i as int]);
                    }
                }
                pos = next;
            }
            i += 1;
        }
        proof {
            assert forall|s: u64| pos <= s < high + 1 implies !(#[trigger] matches_at(m1, s, p))
                || matches_at(m0, s, p) by {
                if list@.contains(s) {
                    let k = choose|k: int| 0 <= k < list@.len() && list@[k] == s;
                    assert(list@[k] < pos);
                }
            }
            lemma_fresh_skip(
                m0,
                m1,
                p,
                *filter,
                seq,
                rw,
                low as int,
                pos,
                high + 1,
            );
            assert forall|s: u64| #[trigger]
                self.active_matches@.contains(s) <==> matches_at(m1, s, p) by {
                if low <= s < pos {
                } else if low <= s <= high {
                    assert(!list@.contains(s)) by {
                        if list@.contains(s) {
                            let k = choose|k: int| 0 <= k < list@.len() && list@[k] == s;
                            assert(list@[k] < pos);
                        }
                    }
                    assert(!matches_at(m1, s, p));
                } else {
                    assert(matches_at(m1, s, p) == matches_at(m0, s, p));
                }
            }
        }
        Ok(())
    }
}

/// Whether a match is wanted.
fn in_filter(f: &SearchFilter, len: usize, start: u64, seq: u32) -> (b: bool)
    ensures
        b == wanted(*f, len as nat, start, seq),
{
    if let Some((first, last)) = f.seq_range {
        if seq < first || seq > last {
            return false;
        }
    }
    if let Some((first, last)) = f.memory_range {
        if start < first {
            return false;
        }
        match start.checked_add(len as u64) {
            Some(end) => {
                if end > last {
                    return false;
                }
            },
            None => {
                return false;
            },
        }
    }
    true
}

/// One byte changes nothing for a pattern that does not hold it.
proof fn lemma_one_byte_outside(
    mem: Bytes,
    at: u64,
    byte: ByteValue,
    rw: MemorySearchRw,
    start: u64,
    pattern: Seq<u8>,
)
    requires
        start > at || at >= start + pattern.len(),
    ensures
        matches_at(with_byte(mem, at, byte, rw), start, pattern) == matches_at(mem, start, pattern),
{
    let values = seq![byte];
    let after = with_bytes(mem, at, values, rw, 1);
    reveal_with_fuel(with_bytes, 2);
    assert(after == with_byte(mem, at, byte, rw));
    lemma_match_outside(mem, at, values, rw, 1, start, pattern);
}

} // verus!
