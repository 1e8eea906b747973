//! The calls into outside crates, each behind a contract that states what the
//! library relies on.
//!
//! Everything in this file is believed, not proved: it is the list of what the
//! rest of the crate assumes about `rustc_hash`, `smallvec`, `bitvec`, `memchr`
//! and `sha2`.

use bitvec::vec::BitVec;
use rustc_hash::FxHashMap;
use sha2::{Digest, Sha256};
use smallvec::SmallVec;
use vstd::prelude::*;

verus! {

// ---------------------------------------------------------------------------
// rustc_hash
// ---------------------------------------------------------------------------

/// The stateless hash builder behind `FxHashMap`.
#[verifier::external_type_specification]
#[verifier::external_body]
pub struct ExFxBuildHasher(rustc_hash::FxBuildHasher);

/// `entries` lists every pair of `m` exactly once, in some order.
pub open spec fn lists_map<K, V>(entries: Seq<(K, V)>, m: Map<K, V>) -> bool {
    &&& forall|i: int|
        #![trigger entries[i]]
        0 <= i < entries.len() ==> m.contains_key(entries[i].0) && m[entries[i].0] == entries[i].1
    &&& forall|i: int, j: int|
        #![trigger entries[i], entries[j]]
        0 <= i < j < entries.len() ==> entries[i].0 != entries[j].0
    &&& forall|k: K| #[trigger]
        m.contains_key(k) ==> exists|i: int|
            #![trigger entries[i]]
            0 <= i < entries.len() && entries[i].0 == k
}

/// `HashMap::get` on an `FxHashMap`: the value stored under the key, if any.
#[verifier::external_body]
pub(crate) fn fx_get<'a, K: Eq + std::hash::Hash, V>(m: &'a FxHashMap<K, V>, key: &K) -> (r: Option<
    &'a V,
>)
    requires
        vstd::std_specs::hash::obeys_key_model::<K>(),
    ensures
        r == (if m@.contains_key(*key) {
            Some(&m@[*key])
        } else {
            None
        }),
{
    m.get(key)
}

/// `HashMap::insert` on an `FxHashMap`: the key maps to the value afterwards,
/// every other key is left alone.
#[verifier::external_body]
pub(crate) fn fx_insert<K: Eq + std::hash::Hash, V>(m: &mut FxHashMap<K, V>, key: K, value: V)
    requires
        vstd::std_specs::hash::obeys_key_model::<K>(),
    ensures
        final(m)@ == old(m)@.insert(key, value),
{
    m.insert(key, value);
}

/// `HashMap::remove` on an `FxHashMap`: takes the value out, if there was one.
#[verifier::external_body]
pub(crate) fn fx_remove<K: Eq + std::hash::Hash, V>(m: &mut FxHashMap<K, V>, key: &K) -> (r: Option<
    V,
>)
    requires
        vstd::std_specs::hash::obeys_key_model::<K>(),
    ensures
        final(m)@ == old(m)@.remove(*key),
        r == (if old(m)@.contains_key(*key) {
            Some(old(m)@[*key])
        } else {
            None
        }),
{
    m.remove(key)
}

/// `HashMap::len` on an `FxHashMap`: the number of keys.
#[verifier::external_body]
pub(crate) fn fx_len<K: Eq + std::hash::Hash, V>(m: &FxHashMap<K, V>) -> (n: usize)
    requires
        vstd::std_specs::hash::obeys_key_model::<K>(),
    ensures
        n == m@.len(),
{
    m.len()
}

/// `HashMap::drain` on an `FxHashMap`: hands out every pair once, in an
/// unspecified order, and leaves the map empty.
#[verifier::external_body]
pub(crate) fn fx_drain<K: Eq + std::hash::Hash, V>(m: &mut FxHashMap<K, V>) -> (entries: Vec<
    (K, V),
>)
    requires
        vstd::std_specs::hash::obeys_key_model::<K>(),
    ensures
        (final(m)@ == Map::<K, V>::empty()),
        lists_map(entries@, old(m)@),
{
    m.drain().collect()
}

/// `keys` lists every key of `m` exactly once, in some order.
pub open spec fn lists_keys<K, V>(keys: Seq<K>, m: Map<K, V>) -> bool {
    &&& forall|i: int| #![trigger keys[i]] 0 <= i < keys.len() ==> m.contains_key(keys[i])
    &&& forall|i: int, j: int|
        #![trigger keys[i], keys[j]]
        0 <= i < j < keys.len() ==> keys[i] != keys[j]
    &&& forall|k: K| #[trigger]
        m.contains_key(k) ==> exists|i: int|
            #![trigger keys[i]]
            0 <= i < keys.len() && keys[i] == k
}

/// `HashMap::keys` on an `FxHashMap`: copies of the keys, each once, in an
/// unspecified order.
#[verifier::external_body]
pub(crate) fn fx_keys<K: Eq + std::hash::Hash + Copy, V>(m: &FxHashMap<K, V>) -> (keys: Vec<K>)
    requires
        vstd::std_specs::hash::obeys_key_model::<K>(),
    ensures
        lists_keys(keys@, m@),
{
    m.keys().copied().collect()
}

// ---------------------------------------------------------------------------
// smallvec
// ---------------------------------------------------------------------------

/// A short list of line references, kept inline up to four entries.
#[verifier::external_body]
pub struct DepList {
    inner: SmallVec<[u32; 4]>,
}

/// The items of a [`DepList`], first to last.
pub uninterp spec fn dep_items(list: DepList) -> Seq<u32>;

impl View for DepList {
    type V = Seq<u32>;

    open spec fn view(&self) -> Seq<u32> {
        dep_items(*self)
    }
}

/// `SmallVec::new`: an empty list.
#[verifier::external_body]
fn small_new() -> (list: DepList)
    ensures
        dep_items(list) == Seq::<u32>::empty(),
{
    DepList { inner: SmallVec::new() }
}

/// `SmallVec::push`: appends one item.
#[verifier::external_body]
fn small_push(list: &mut DepList, value: u32)
    ensures
        dep_items(*final(list)) == dep_items(*old(list)).push(value),
{
    list.inner.push(value)
}

/// `SmallVec::as_slice`: the items in order.
#[verifier::external_body]
fn small_slice(list: &DepList) -> (s: &[u32])
    ensures
        s@ == dep_items(*list),
{
    list.inner.as_slice()
}

impl DepList {
    pub fn new() -> (list: DepList)
        ensures
            list@ == Seq::<u32>::empty(),
    {
        small_new()
    }

    pub fn push(&mut self, value: u32)
        ensures
            final(self)@ == old(self)@.push(value),
    {
        small_push(self, value)
    }

    pub fn as_slice(&self) -> (s: &[u32])
        ensures
            s@ == self@,
    {
        small_slice(self)
    }

    pub fn len(&self) -> (n: usize)
        ensures
            n == self@.len(),
    {
        small_slice(self).len()
    }

    pub fn is_empty(&self) -> (b: bool)
        ensures
            b == (self@.len() == 0),
    {
        small_slice(self).len() == 0
    }

    pub fn contains(&self, value: &u32) -> (b: bool)
        ensures
            b == self@.contains(*value),
    {
        crate::seqs::slice_contains(small_slice(self), *value)
    }
}

// ---------------------------------------------------------------------------
// bitvec
// ---------------------------------------------------------------------------

/// One flag per trace line.
#[verifier::external_body]
pub struct LineFlags {
    inner: BitVec,
}

/// The flags of a [`LineFlags`], first line first.
pub uninterp spec fn flag_bits(flags: LineFlags) -> Seq<bool>;

impl View for LineFlags {
    type V = Seq<bool>;

    open spec fn view(&self) -> Seq<bool> {
        flag_bits(*self)
    }
}

/// `BitVec::repeat`: `len` copies of one bit. Bit vectors hold at most
/// `usize::MAX / 8` bits.
#[verifier::external_body]
fn bits_repeat(bit: bool, len: usize) -> (flags: LineFlags)
    requires
        len <= usize::MAX / 8,
    ensures
        flag_bits(flags) == Seq::new(len as nat, |i: int| bit),
{
    LineFlags { inner: BitVec::repeat(bit, len) }
}

/// `BitVec::push`: appends one bit.
#[verifier::external_body]
fn bits_push(flags: &mut LineFlags, bit: bool)
    requires
        flag_bits(*old(flags)).len() < usize::MAX / 8,
    ensures
        flag_bits(*final(flags)) == flag_bits(*old(flags)).push(bit),
{
    flags.inner.push(bit)
}

/// `BitSlice::set`: writes one bit in bounds.
#[verifier::external_body]
fn bits_set(flags: &mut LineFlags, index: usize, bit: bool)
    requires
        index < flag_bits(*old(flags)).len(),
    ensures
        flag_bits(*final(flags)) == flag_bits(*old(flags)).update(index as int, bit),
{
    flags.inner.set(index, bit)
}

/// `Index` on a bit vector: the bit at a position in bounds.
#[verifier::external_body]
fn bits_get(flags: &LineFlags, index: usize) -> (bit: bool)
    requires
        index < flag_bits(*flags).len(),
    ensures
        bit == flag_bits(*flags)[index as int],
{
    flags.inner[index]
}

/// `BitSlice::len`: the number of bits.
#[verifier::external_body]
fn bits_len(flags: &LineFlags) -> (n: usize)
    ensures
        n == flag_bits(*flags).len(),
        n <= usize::MAX / 8,
{
    flags.inner.len()
}

/// `BitVec::extend_from_bitslice`: appends the bits of another vector.
#[verifier::external_body]
fn bits_append(flags: &mut LineFlags, other: &LineFlags)
    requires
        flag_bits(*old(flags)).len() + flag_bits(*other).len() <= usize::MAX / 8,
    ensures
        flag_bits(*final(flags)) == flag_bits(*old(flags)) + flag_bits(*other),
{
    flags.inner.extend_from_bitslice(&other.inner)
}

impl LineFlags {
    pub fn new() -> (flags: LineFlags)
        ensures
            flags@ == Seq::<bool>::empty(),
    {
        bits_repeat(false, 0)
    }

    pub fn repeat(bit: bool, len: usize) -> (flags: LineFlags)
        requires
            len <= usize::MAX / 8,
        ensures
            flags@ == Seq::new(len as nat, |i: int| bit),
    {
        bits_repeat(bit, len)
    }

    pub fn push(&mut self, bit: bool)
        requires
            old(self)@.len() < usize::MAX / 8,
        ensures
            final(self)@ == old(self)@.push(bit),
    {
        bits_push(self, bit)
    }

    pub fn set(&mut self, index: usize, bit: bool)
        requires
            index < old(self)@.len(),
        ensures
            final(self)@ == old(self)@.update(index as int, bit),
    {
        bits_set(self, index, bit)
    }

    pub fn get(&self, index: usize) -> (bit: Option<bool>)
        ensures
            bit == (if index < self@.len() {
                Some(self@[index as int])
            } else {
                None
            }),
    {
        if index < bits_len(self) {
            Some(bits_get(self, index))
        } else {
            None
        }
    }

    pub fn len(&self) -> (n: usize)
        ensures
            n == self@.len(),
            n <= usize::MAX / 8,
    {
        bits_len(self)
    }

    pub fn append(&mut self, other: &LineFlags)
        requires
            old(self)@.len() + other@.len() <= usize::MAX / 8,
        ensures
            final(self)@ == old(self)@ + other@,
    {
        bits_append(self, other)
    }
}

// ---------------------------------------------------------------------------
// memchr
// ---------------------------------------------------------------------------

/// `memchr::memchr`: the first position of a byte.
pub assume_specification[ memchr::memchr ](needle: u8, haystack: &[u8]) -> (r: Option<usize>)
    ensures
        match r {
            Some(p) => p < haystack@.len() && haystack@[p as int] == needle && forall|i: int|
                0 <= i < p ==> haystack@[i] != needle,
            None => forall|i: int| 0 <= i < haystack@.len() ==> haystack@[i] != needle,
        },
;

/// How often a byte occurs.
pub open spec fn byte_count(bytes: Seq<u8>, needle: u8) -> nat
    decreases bytes.len(),
{
    if bytes.len() == 0 {
        0
    } else {
        byte_count(bytes.drop_last(), needle) + if bytes.last() == needle {
            1nat
        } else {
            0nat
        }
    }
}

/// `memchr::memchr_iter(..).count()`: how often a byte occurs.
#[verifier::external_body]
pub(crate) fn count_byte(needle: u8, haystack: &[u8]) -> (n: usize)
    ensures
        n == byte_count(haystack@, needle),
{
    memchr::memchr_iter(needle, haystack).count()
}

// ---------------------------------------------------------------------------
// sha2
// ---------------------------------------------------------------------------

/// The SHA-256 digest of a byte string.
pub uninterp spec fn sha256_digest(data: Seq<u8>) -> Seq<u8>;

/// `Sha256::digest`: the 32-byte digest of the whole input.
#[verifier::external_body]
pub(crate) fn sha256_bytes(data: &[u8]) -> (digest: [u8; 32])
    ensures
        digest@ == sha256_digest(data@),
{
    Sha256::digest(data).into()
}

// ---------------------------------------------------------------------------
// std
// ---------------------------------------------------------------------------

/// Values never descend.
pub open spec fn ascending(s: Seq<u32>) -> bool {
    forall|i: int, j: int| #![trigger s[i], s[j]] 0 <= i <= j < s.len() ==> s[i] <= s[j]
}

/// `slice::sort_unstable` on numbers: the same numbers in ascending order.
#[verifier::external_body]
pub(crate) fn sort_numbers(v: &mut Vec<u32>)
    ensures
        ascending(final(v)@),
        final(v)@.to_multiset() == old(v)@.to_multiset(),
{
    v.sort_unstable()
}

/// `Vec::shrink_to_fit`: gives back room that is not used; the elements stay.
#[verifier::external_body]
pub(crate) fn shrink_numbers(v: &mut Vec<u32>)
    ensures
        final(v)@ == old(v)@,
{
    v.shrink_to_fit()
}

/// The elements of `s` whose key is `key`, in order.
pub open spec fn with_key<T>(s: Seq<(u64, T)>, key: u64) -> Seq<(u64, T)> {
    s.filter(|e: (u64, T)| e.0 == key)
}

/// Keys never descend.
pub open spec fn sorted_by_first<T>(s: Seq<(u64, T)>) -> bool {
    forall|i: int, j: int| #![trigger s[i], s[j]] 0 <= i <= j < s.len() ==> s[i].0 <= s[j].0
}

/// `slice::sort_by_key` on the first component: the same elements with
/// ascending keys, and elements with equal keys in their former order.
#[verifier::external_body]
pub(crate) fn sort_by_first<T>(v: &mut Vec<(u64, T)>)
    ensures
        sorted_by_first(final(v)@),
        final(v)@.to_multiset() == old(v)@.to_multiset(),
        forall|key: u64| #[trigger] with_key(final(v)@, key) == with_key(old(v)@, key),
{
    v.sort_by_key(|e| e.0)
}

/// Sorting elements with distinct keys puts the keys in strictly ascending
/// order, and keeps every element.
pub proof fn lemma_sorted_distinct<V>(before: Seq<(u64, V)>, after: Seq<(u64, V)>)
    requires
        forall|i: int, j: int|
            #![trigger before[i], before[j]]
            0 <= i < j < before.len() ==> before[i].0 != before[j].0,
        sorted_by_first(after),
        after.to_multiset() == before.to_multiset(),
    ensures
        after.len() == before.len(),
        forall|i: int, j: int|
            #![trigger after[i], after[j]]
            0 <= i < j < after.len() ==> after[i].0 < after[j].0,
        forall|i: int| #![trigger after[i]] 0 <= i < after.len() ==> before.contains(after[i]),
        forall|j: int| #![trigger before[j]] 0 <= j < before.len() ==> after.contains(before[j]),
{
    broadcast use vstd::seq_lib::group_to_multiset_ensures;

    assert(after.to_multiset().len() == after.len());
    assert(before.to_multiset().len() == before.len());
    assert(before.no_duplicates());
    before.lemma_multiset_has_no_duplicates();
    assert forall|x: (u64, V)|
        after.to_multiset().contains(x) implies #[trigger] after.to_multiset().count(x) == 1 by {
        assert(before.to_multiset().contains(x));
    }
    after.lemma_multiset_has_no_duplicates_conv();
    assert forall|i: int| #![trigger after[i]] 0 <= i < after.len() implies before.contains(
        after[i],
    ) by {
        assert(after.contains(after[i]));
        assert(after.to_multiset().count(after[i]) > 0);
        assert(before.to_multiset().count(after[i]) > 0);
    }
    assert forall|j: int| #![trigger before[j]] 0 <= j < before.len() implies after.contains(
        before[j],
    ) by {
        assert(before.contains(before[j]));
        assert(before.to_multiset().count(before[j]) > 0);
        assert(after.to_multiset().count(before[j]) > 0);
    }
    assert forall|i: int, j: int|
        #![trigger after[i], after[j]]
        0 <= i < j < after.len() implies after[i].0 < after[j].0 by {
        assert(after[i] != after[j]);
        let a = choose|a: int| 0 <= a < before.len() && before[a] == after[i];
        let b = choose|b: int| 0 <= b < before.len() && before[b] == after[j];
        assert(before.contains(after[i]) && before.contains(after[j]));
        assert(before[a] == after[i] && before[b] == after[j]);
        if a < b {
            assert(before[a].0 != before[b].0);
        } else {
            assert(before[b].0 != before[a].0);
        }
    }
}

/// Sorting a listing of a map gives a strictly ascending listing of it.
pub proof fn lemma_sorted_lists<V>(before: Seq<(u64, V)>, after: Seq<(u64, V)>, m: Map<u64, V>)
    requires
        lists_map(before, m),
        sorted_by_first(after),
        after.to_multiset() == before.to_multiset(),
    ensures
        lists_map(after, m),
        forall|i: int, j: int|
            #![trigger after[i], after[j]]
            0 <= i < j < after.len() ==> after[i].0 < after[j].0,
{
    lemma_sorted_distinct(before, after);
    assert forall|i: int| #![trigger after[i]] 0 <= i < after.len() implies m.contains_key(
        after[i].0,
    ) && m[after[i].0] == after[i].1 by {
        assert(before.contains(after[i]));
        let j = choose|j: int| 0 <= j < before.len() && before[j] == after[i];
        assert(before[j] == after[i]);
    }
    assert forall|k: u64| #[trigger] m.contains_key(k) implies exists|i: int|
        #![trigger after[i]]
        0 <= i < after.len() && after[i].0 == k by {
        let j = choose|j: int| #![trigger before[j]] 0 <= j < before.len() && before[j].0 == k;
        assert(after.contains(before[j]));
        let i = choose|i: int| 0 <= i < after.len() && after[i] == before[j];
        assert(after[i].0 == k);
    }
}

/// `list` holds the members of `set` within `low..=high`, ascending.
pub open spec fn lists_range(list: Seq<u64>, set: Set<u64>, low: u64, high: u64) -> bool {
    &&& forall|i: int, j: int|
        #![trigger list[i], list[j]]
        0 <= i < j < list.len() ==> list[i] < list[j]
    &&& forall|v: u64| #[trigger] list.contains(v) <==> set.contains(v) && low <= v <= high
}

/// `BTreeSet::range` over an inclusive range: the members of the range in
/// ascending order.
#[verifier::external_body]
pub(crate) fn set_range(set: &std::collections::BTreeSet<u64>, low: u64, high: u64) -> (r: Vec<u64>)
    requires
        low <= high,
    ensures
        lists_range(r@, set@, low, high),
{
    set.range(low..=high).copied().collect()
}

/// `std::str::from_utf8`: the string that the bytes encode, if they encode one.
#[verifier::external_body]
pub(crate) fn text_from_utf8(bytes: &[u8]) -> (r: Option<&str>)
    ensures
        r is Some == vstd::utf8::valid_utf8(bytes@),
        r matches Some(s) ==> vstd::utf8::encode_utf8(s@) == bytes@,
{
    std::str::from_utf8(bytes).ok()
}

/// `String::push`: appends one character.
pub assume_specification[ String::push ](s: &mut String, c: char)
    ensures
        final(s)@ == old(s)@.push(c),
;

/// The lower-case form of a text.
pub uninterp spec fn lowercase_text(text: Seq<char>) -> Seq<char>;

/// `str::to_lowercase`: the lower-case form, by the rules of Unicode.
#[verifier::external_body]
pub(crate) fn to_lowercase(s: &str) -> (r: String)
    ensures
        r@ == lowercase_text(s@),
{
    s.to_lowercase()
}

/// The upper-case form of a text.
pub uninterp spec fn uppercase_text(text: Seq<char>) -> Seq<char>;

/// `str::to_uppercase`: the upper-case form, by the rules of Unicode.
#[verifier::external_body]
pub(crate) fn to_uppercase(s: &str) -> (r: String)
    ensures
        r@ == uppercase_text(s@),
{
    s.to_uppercase()
}

} // verus!
