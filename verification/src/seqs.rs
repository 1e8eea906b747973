//! Small facts and helpers about sequences.

use vstd::prelude::*;

verus! {

/// The sequence without repetitions: each value at its first occurrence.
pub open spec fn dedup(s: Seq<u32>) -> Seq<u32>
    decreases s.len(),
{
    if s.len() == 0 {
        Seq::empty()
    } else {
        add_unique(dedup(s.drop_last()), s.last())
    }
}

/// Appends a value unless it is already there.
pub open spec fn add_unique(s: Seq<u32>, value: u32) -> Seq<u32> {
    if s.contains(value) {
        s
    } else {
        s.push(value)
    }
}

/// Appends the values of `more` one after the other, each unless it is there.
pub open spec fn extend_unique(s: Seq<u32>, more: Seq<u32>) -> Seq<u32>
    decreases more.len(),
{
    if more.len() == 0 {
        s
    } else {
        add_unique(extend_unique(s, more.drop_last()), more.last())
    }
}

pub proof fn lemma_extend_push(s: Seq<u32>, more: Seq<u32>, v: u32)
    ensures
        extend_unique(s, more.push(v)) == add_unique(extend_unique(s, more), v),
{
    assert(more.push(v).drop_last() =~= more);
}

/// Deduplicating a concatenation extends the deduplicated first part.
pub proof fn lemma_dedup_concat(a: Seq<u32>, b: Seq<u32>)
    ensures
        dedup(a + b) == extend_unique(dedup(a), b),
    decreases b.len(),
{
    if b.len() == 0 {
        assert(a + b =~= a);
    } else {
        lemma_dedup_concat(a, b.drop_last());
        assert((a + b).drop_last() =~= a + b.drop_last());
        assert((a + b).last() == b.last());
    }
}

/// Extending an empty row is deduplication.
pub proof fn lemma_extend_empty(b: Seq<u32>)
    ensures
        extend_unique(Seq::empty(), b) == dedup(b),
{
    lemma_dedup_concat(Seq::empty(), b);
    assert(Seq::<u32>::empty() + b =~= b);
}

/// Extending an empty row three times deduplicates the concatenation.
pub proof fn lemma_extend_thrice(a: Seq<u32>, b: Seq<u32>, c: Seq<u32>)
    ensures
        extend_unique(extend_unique(extend_unique(Seq::empty(), a), b), c) == dedup(a + b + c),
{
    lemma_extend_empty(a);
    lemma_dedup_concat(a, b);
    lemma_dedup_concat(a + b, c);
}

/// `dedup` keeps exactly the values of the sequence.
pub proof fn lemma_dedup_contains(s: Seq<u32>, v: u32)
    ensures
        dedup(s).contains(v) == s.contains(v),
    decreases s.len(),
{
    if s.len() > 0 {
        lemma_dedup_contains(s.drop_last(), v);
        let d = dedup(s.drop_last());
        let last = s.last();
        if s.contains(v) && v != last {
            let i = choose|i: int| 0 <= i < s.len() && s[i] == v;
            assert(s.drop_last()[i] == v);
        }
        if s.drop_last().contains(v) {
            let i = choose|i: int| 0 <= i < s.drop_last().len() && s.drop_last()[i] == v;
            assert(s[i] == v);
        }
        lemma_add_unique_contains(d, last, v);
        assert(s[s.len() - 1] == last);
    }
}

pub proof fn lemma_add_unique_contains(s: Seq<u32>, value: u32, v: u32)
    ensures
        add_unique(s, value).contains(v) == (s.contains(v) || v == value),
{
    if !s.contains(value) {
        let p = s.push(value);
        assert(p[s.len() as int] == value);
        if s.contains(v) {
            let i = choose|i: int| 0 <= i < s.len() && s[i] == v;
            assert(p[i] == v);
        }
        if p.contains(v) && v != value {
            let i = choose|i: int| 0 <= i < p.len() && p[i] == v;
            assert(s[i] == v);
        }
    }
}

/// `dedup` leaves no value twice.
pub proof fn lemma_dedup_no_duplicates(s: Seq<u32>)
    ensures
        dedup(s).no_duplicates(),
    decreases s.len(),
{
    if s.len() > 0 {
        lemma_dedup_no_duplicates(s.drop_last());
        let d = dedup(s.drop_last());
        let r = dedup(s);
        assert forall|i: int, j: int| 0 <= i < r.len() && 0 <= j < r.len() && i != j implies r[i]
            != r[j] by {
            if i < d.len() && j < d.len() {
                assert(d[i] != d[j]);
            } else if i < d.len() {
                assert(d.contains(d[i]));
            } else {
                assert(d.contains(d[j]));
            }
        }
    }
}

/// Whether a slice holds a value.
pub fn slice_contains(s: &[u32], value: u32) -> (b: bool)
    ensures
        b == s@.contains(value),
{
    let mut i: usize = 0;
    while i < s.len()
        invariant
            i <= s.len(),
            forall|j: int| 0 <= j < i ==> s@[j] != value,
        decreases s.len() - i,
    {
        if s[i] == value {
            assert(s@[i as int] == value);
            return true;
        }
        i += 1;
    }
    false
}

/// A vector back to front.
pub fn reversed<T>(v: Vec<T>) -> (r: Vec<T>)
    ensures
        r@ == v@.reverse(),
{
    let ghost all = v@;
    let mut v = v;
    let mut r: Vec<T> = Vec::new();
    while v.len() > 0
        invariant
            v@ =~= all.take(v@.len() as int),
            v@.len() <= all.len(),
            r@ =~= all.reverse().take(all.len() - v@.len()),
        decreases v@.len(),
    {
        if let Some(x) = v.pop() {
            r.push(x);
        }
    }
    r
}

/// The first `n` parts one after the other.
pub open spec fn cat<T>(parts: Seq<Seq<T>>, n: int) -> Seq<T>
    decreases n,
{
    if n <= 0 {
        Seq::empty()
    } else {
        cat(parts, n - 1) + parts[n - 1]
    }
}

} // verus!
