//! Joining chunks piece by piece or all at once is the same.

use crate::line_index::{joined_offsets, joined_total, LineIndex};
use crate::merge::forward::ChunkResult;
use crate::merge::indices::joined_strings;
use crate::merge::orchestrator::{mem_op_total, parsed_total};
use crate::query::strings::StringIndex;
use crate::seqs::cat;
use vstd::prelude::*;

verus! {

/// A line index alone is itself, and the index of two runs of chunks is that of
/// the first followed by that of the second, with all their lines.
pub proof fn law_line_indices_join_in_order(a: Seq<LineIndex>, b: Seq<LineIndex>, n: int)
    requires
        0 <= n <= b.len(),
    ensures
        joined_offsets(a + b, a.len() + n) == joined_offsets(a, a.len() as int) + joined_offsets(
            b,
            n,
        ),
        joined_total(a + b, a.len() + n) == joined_total(a, a.len() as int) + joined_total(b, n),
        n == 1 ==> joined_offsets(b, n) == b[0].sampled_offsets@ && joined_total(b, n)
            == b[0].total,
    decreases n,
{
    if n == 0 {
        lemma_front_indices(a, b, a.len() as int);
        assert(joined_offsets(a, a.len() as int) + joined_offsets(b, 0) =~= joined_offsets(
            a,
            a.len() as int,
        ));
    } else {
        law_line_indices_join_in_order(a, b, n - 1);
        assert((a + b)[a.len() + n - 1] == b[n - 1]);
        assert(joined_offsets(a + b, a.len() + n) =~= joined_offsets(a, a.len() as int)
            + joined_offsets(b, n));
        if n == 1 {
            assert(joined_offsets(b, 0) + b[0].sampled_offsets@ =~= b[0].sampled_offsets@);
        }
    }
}

proof fn lemma_front_indices(a: Seq<LineIndex>, b: Seq<LineIndex>, n: int)
    requires
        0 <= n <= a.len(),
    ensures
        joined_offsets(a + b, n) == joined_offsets(a, n),
        joined_total(a + b, n) == joined_total(a, n),
    decreases n,
{
    if n > 0 {
        lemma_front_indices(a, b, n - 1);
        assert((a + b)[n - 1] == a[n - 1]);
    }
}

/// Strings of one chunk are as the chunk has them, and those of two runs of
/// chunks are those of the first followed by those of the second.
pub proof fn law_strings_join_in_order(a: Seq<StringIndex>, b: Seq<StringIndex>, n: int)
    requires
        0 <= n <= b.len(),
    ensures
        joined_strings(a + b, a.len() + n) == joined_strings(a, a.len() as int) + joined_strings(
            b,
            n,
        ),
        n == 1 ==> joined_strings(b, n) == b[0].strings@,
    decreases n,
{
    if n == 0 {
        lemma_front_strings(a, b, a.len() as int);
        assert(joined_strings(a, a.len() as int) + joined_strings(b, 0) =~= joined_strings(
            a,
            a.len() as int,
        ));
    } else {
        law_strings_join_in_order(a, b, n - 1);
        assert((a + b)[a.len() + n - 1] == b[n - 1]);
        assert(joined_strings(a + b, a.len() + n) =~= joined_strings(a, a.len() as int)
            + joined_strings(b, n));
        if n == 1 {
            assert(joined_strings(b, 0) + b[0].strings@ =~= b[0].strings@);
        }
    }
}

proof fn lemma_front_strings(a: Seq<StringIndex>, b: Seq<StringIndex>, n: int)
    requires
        0 <= n <= a.len(),
    ensures
        joined_strings(a + b, n) == joined_strings(a, n),
    decreases n,
{
    if n > 0 {
        lemma_front_strings(a, b, n - 1);
        assert((a + b)[n - 1] == a[n - 1]);
    }
}

/// Lists of one chunk are as the chunk has them, and those of two runs of chunks
/// are those of the first followed by those of the second.
pub proof fn law_lists_join_in_order<T>(a: Seq<Seq<T>>, b: Seq<Seq<T>>, n: int)
    requires
        0 <= n <= b.len(),
    ensures
        cat(a + b, a.len() + n) == cat(a, a.len() as int) + cat(b, n),
        n == 1 ==> cat(b, n) == b[0],
    decreases n,
{
    if n == 0 {
        lemma_front_lists(a, b, a.len() as int);
        assert(cat(a, a.len() as int) + cat(b, 0) =~= cat(a, a.len() as int));
    } else {
        law_lists_join_in_order(a, b, n - 1);
        assert((a + b)[a.len() + n - 1] == b[n - 1]);
        assert(cat(a + b, a.len() + n) =~= cat(a, a.len() as int) + cat(b, n));
        if n == 1 {
            assert(cat(b, 0) + b[0] =~= b[0]);
        }
    }
}

proof fn lemma_front_lists<T>(a: Seq<Seq<T>>, b: Seq<Seq<T>>, n: int)
    requires
        0 <= n <= a.len(),
    ensures
        cat(a + b, n) == cat(a, n),
    decreases n,
{
    if n > 0 {
        lemma_front_lists(a, b, n - 1);
        assert((a + b)[n - 1] == a[n - 1]);
    }
}

/// The counts of one chunk are its own, and those of two runs of chunks add up.
pub proof fn law_counts_add_up(a: Seq<ChunkResult>, b: Seq<ChunkResult>, n: int)
    requires
        0 <= n <= b.len(),
    ensures
        parsed_total(a + b, a.len() + n) == parsed_total(a, a.len() as int) + parsed_total(b, n),
        mem_op_total(a + b, a.len() + n) == mem_op_total(a, a.len() as int) + mem_op_total(b, n),
        n == 1 ==> parsed_total(b, n) == b[0].boundary.final_parsed_count && mem_op_total(b, n)
            == b[0].boundary.final_mem_op_count,
    decreases n,
{
    if n == 0 {
        lemma_front_counts(a, b, a.len() as int);
    } else {
        law_counts_add_up(a, b, n - 1);
        assert((a + b)[a.len() + n - 1] == b[n - 1]);
    }
}

proof fn lemma_front_counts(a: Seq<ChunkResult>, b: Seq<ChunkResult>, n: int)
    requires
        0 <= n <= a.len(),
    ensures
        parsed_total(a + b, n) == parsed_total(a, n),
        mem_op_total(a + b, n) == mem_op_total(a, n),
    decreases n,
{
    if n > 0 {
        lemma_front_counts(a, b, n - 1);
        assert((a + b)[n - 1] == a[n - 1]);
    }
}

} // verus!
