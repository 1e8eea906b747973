//! Byte offsets of sampled lines.

use vstd::prelude::*;

verus! {

/// Offsets of every so many lines, and the number of lines.
pub struct LineIndex {
    pub sampled_offsets: Vec<u64>,
    pub total: u32,
}

/// Offsets of the first `n` indices one after the other.
pub open spec fn joined_offsets(indices: Seq<LineIndex>, n: int) -> Seq<u64>
    decreases n,
{
    if n <= 0 {
        Seq::empty()
    } else {
        joined_offsets(indices, n - 1) + indices[n - 1].sampled_offsets@
    }
}

/// Lines of the first `n` indices.
pub open spec fn joined_total(indices: Seq<LineIndex>, n: int) -> int
    decreases n,
{
    if n <= 0 {
        0
    } else {
        joined_total(indices, n - 1) + indices[n - 1].total
    }
}

pub proof fn lemma_joined_total(indices: Seq<LineIndex>, i: int, j: int)
    requires
        0 <= i <= j,
    ensures
        0 <= joined_total(indices, i) <= joined_total(indices, j),
    decreases j,
{
    if i < j {
        lemma_joined_total(indices, i, j - 1);
    } else if i > 0 {
        lemma_joined_total(indices, i - 1, j - 1);
    }
}

impl LineIndex {
    /// Joins the indices of consecutive chunks; offsets are global already.
    pub fn merge(indices: Vec<LineIndex>) -> (merged: LineIndex)
        requires
            joined_total(indices@, indices@.len() as int) <= u32::MAX,
        ensures
            merged.sampled_offsets@ == joined_offsets(indices@, indices@.len() as int),
            merged.total == joined_total(indices@, indices@.len() as int),
    {
        let mut sampled_offsets: Vec<u64> = Vec::new();
        let mut total: u32 = 0;
        let mut i: usize = 0;
        while i < indices.len()
            invariant
                i <= indices@.len(),
                joined_total(indices@, indices@.len() as int) <= u32::MAX,
                sampled_offsets@ == joined_offsets(indices@, i as int),
                total == joined_total(indices@, i as int),
            decreases indices@.len() - i,
        {
            proof {
                lemma_joined_total(indices@, i + 1, indices@.len() as int);
            }
            extend_offsets(&mut sampled_offsets, &indices[i].sampled_offsets);
            total += indices[i].total;
            i += 1;
        }
        LineIndex { sampled_offsets, total }
    }
}

fn extend_offsets(list: &mut Vec<u64>, more: &Vec<u64>)
    ensures
        final(list)@ == old(list)@ + more@,
{
    let ghost start = list@;
    let mut i: usize = 0;
    while i < more.len()
        invariant
            i <= more@.len(),
            list@ =~= start + more@.take(i as int),
        decreases more@.len() - i,
    {
        list.push(more[i]);
        i += 1;
    }
    assert(more@.take(more@.len() as int) =~= more@);
}

} // verus!
