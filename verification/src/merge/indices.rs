//! Joining the indices of consecutive chunks.

use crate::foreign;
use crate::foreign::LineFlags;
use crate::line_index::{joined_offsets, joined_total, LineIndex};
use crate::query::mem_access;
use crate::query::mem_access::{MemAccessIndex, MemAccessRecord};
use crate::query::strings::{StringIndex, StringRecord};
use crate::scanner::pass1::PairSplitDeps;
use crate::seqs;
use rustc_hash::FxHashMap;
use vstd::prelude::*;

verus! {

/// The first `n` indices joined.
pub open spec fn joined_indices(indices: Seq<MemAccessIndex>, n: int) -> Map<
    u64,
    Seq<MemAccessRecord>,
>
    decreases n,
{
    if n <= 0 {
        Map::empty()
    } else {
        mem_access::joined(joined_indices(indices, n - 1), indices[n - 1]@)
    }
}

/// Joins access indices; accesses to one address stay in chunk order.
pub fn merge_mem_access_indices(indices: Vec<MemAccessIndex>) -> (merged: MemAccessIndex)
    ensures
        merged@ == joined_indices(indices@, indices@.len() as int),
{
    let mut merged = MemAccessIndex::new();
    let ghost all = indices@;
    let mut taken: Vec<MemAccessIndex> = seqs::reversed(indices);
    while taken.len() > 0
        invariant
            taken@ =~= all.skip(all.len() - taken@.len()).reverse(),
            taken@.len() <= all.len(),
            merged@ == joined_indices(all, all.len() - taken@.len()),
        decreases taken@.len(),
    {
        let ghost k = all.len() - taken@.len();
        if let Some(index) = taken.pop() {
            assert(index == all[k]);
            merged.append(index);
        }
    }
    merged
}

/// Joins line indices.
pub fn merge_line_indices(indices: Vec<LineIndex>) -> (merged: LineIndex)
    requires
        joined_total(indices@, indices@.len() as int) <= u32::MAX,
    ensures
        merged.sampled_offsets@ == joined_offsets(indices@, indices@.len() as int),
        merged.total == joined_total(indices@, indices@.len() as int),
{
    LineIndex::merge(indices)
}

/// Flags of the first `n` chunks one after the other.
pub open spec fn joined_flags(chunks: Seq<LineFlags>, n: int) -> Seq<bool>
    decreases n,
{
    if n <= 0 {
        Seq::empty()
    } else {
        joined_flags(chunks, n - 1) + chunks[n - 1]@
    }
}

/// The first `n` corrections applied; lines beyond the end are ignored.
pub open spec fn corrected(flags: Seq<bool>, corrections: Seq<(u32, bool)>, n: int) -> Seq<bool>
    decreases n,
{
    if n <= 0 {
        flags
    } else {
        let before = corrected(flags, corrections, n - 1);
        let (line, value) = corrections[n - 1];
        if line < before.len() {
            before.update(line as int, value)
        } else {
            before
        }
    }
}

proof fn lemma_joined_flags_len(chunks: Seq<LineFlags>, i: int, j: int)
    requires
        0 <= i <= j,
    ensures
        joined_flags(chunks, i).len() <= joined_flags(chunks, j).len(),
    decreases j - i,
{
    if i < j {
        lemma_joined_flags_len(chunks, i, j - 1);
    }
}

/// Joins the marks of initial-memory loads and applies corrections.
pub fn merge_init_mem_loads(chunk_inits: Vec<LineFlags>, corrections: &Vec<(u32, bool)>) -> (merged:
    LineFlags)
    requires
        joined_flags(chunk_inits@, chunk_inits@.len() as int).len() <= usize::MAX / 8,
    ensures
        merged@ == corrected(
            joined_flags(chunk_inits@, chunk_inits@.len() as int),
            corrections@,
            corrections@.len() as int,
        ),
{
    let mut merged = LineFlags::new();
    let mut i: usize = 0;
    while i < chunk_inits.len()
        invariant
            i <= chunk_inits@.len(),
            joined_flags(chunk_inits@, chunk_inits@.len() as int).len() <= usize::MAX / 8,
            merged@ == joined_flags(chunk_inits@, i as int),
        decreases chunk_inits@.len() - i,
    {
        proof {
            lemma_joined_flags_len(chunk_inits@, i + 1, chunk_inits@.len() as int);
        }
        merged.append(&chunk_inits[i]);
        i += 1;
    }
    let ghost joined = merged@;
    let mut k: usize = 0;
    while k < corrections.len()
        invariant
            k <= corrections@.len(),
            merged@ == corrected(joined, corrections@, k as int),
        decreases corrections@.len() - k,
    {
        let (line, value) = corrections[k];
        if (line as usize) < merged.len() {
            merged.set(line as usize, value);
        }
        k += 1;
    }
    merged
}

/// The tables of the first `n` chunks joined; later chunks win.
pub open spec fn joined_splits(chunks: Seq<Map<u32, PairSplitDeps>>, n: int) -> Map<
    u32,
    PairSplitDeps,
>
    decreases n,
{
    if n <= 0 {
        Map::empty()
    } else {
        joined_splits(chunks, n - 1).union_prefer_right(chunks[n - 1])
    }
}

/// The first `n` additions entered.
pub open spec fn with_fixups(
    m: Map<u32, PairSplitDeps>,
    fixups: Seq<(u32, PairSplitDeps)>,
    n: int,
) -> Map<u32, PairSplitDeps>
    decreases n,
{
    if n <= 0 {
        m
    } else {
        with_fixups(m, fixups, n - 1).insert(fixups[n - 1].0, fixups[n - 1].1)
    }
}

/// The tables of chunks as mathematical maps.
pub open spec fn split_maps(chunks: Seq<FxHashMap<u32, PairSplitDeps>>) -> Seq<
    Map<u32, PairSplitDeps>,
> {
    chunks.map_values(|m: FxHashMap<u32, PairSplitDeps>| m@)
}

/// Enters all entries of `more`.
fn extend_splits(
    merged: &mut FxHashMap<u32, PairSplitDeps>,
    more: FxHashMap<u32, PairSplitDeps>,
)
    ensures
        final(merged)@ == old(merged)@.union_prefer_right(more@),
{
    let ghost start = merged@;
    let ghost added = more@;
    let mut more = more;
    let mut entries = foreign::fx_drain(&mut more);
    let ghost listed = entries@;
    while entries.len() > 0
        invariant
            entries@ =~= listed.take(entries@.len() as int),
            entries@.len() <= listed.len(),
            foreign::lists_map(listed, added),
            forall|k: u32| #[trigger]
                merged@.contains_key(k) <==> start.contains_key(k) || in_tail(
                    listed,
                    entries@.len() as int,
                    k,
                ),
            forall|k: u32| #[trigger]
                merged@.contains_key(k) ==> merged@[k] == if in_tail(
                    listed,
                    entries@.len() as int,
                    k,
                ) {
                    added[k]
                } else {
                    start[k]
                },
        decreases entries@.len(),
    {
        let ghost n = entries@.len() as int;
        if let Some((line, split)) = entries.pop() {
            assert((line, split) == listed[n - 1]);
            foreign::fx_insert(merged, line, split);
            assert forall|k: u32| in_tail(listed, n - 1, k) == (in_tail(listed, n, k) || k == line) by {
                if in_tail(listed, n - 1, k) && k != line {
                    let i = choose|i: int|
                        #![trigger listed[i]]
                        n - 1 <= i < listed.len() && listed[i].0 == k;
                    assert(i != n - 1);
                }
                if k == line {
                    assert(listed[n - 1].0 == k);
                }
            }
            assert(added[listed[n - 1].0] == listed[n - 1].1);
        }
    }
    proof {
        assert forall|k: u32| in_tail(listed, 0, k) == added.contains_key(k) by {
            if in_tail(listed, 0, k) {
                let i = choose|i: int| #![trigger listed[i]] 0 <= i < listed.len() && listed[i].0 == k;
                assert(added.contains_key(listed[i].0));
            }
        }
        let want = start.union_prefer_right(added);
        assert forall|k: u32| #[trigger] want.contains_key(k) implies merged@.contains_key(k)
            && merged@[k] == want[k] by {
            assert(in_tail(listed, 0, k) == added.contains_key(k));
            assert(in_tail(listed, entries@.len() as int, k) == in_tail(listed, 0, k));
            assert(want.contains_key(k) == (start.contains_key(k) || added.contains_key(k)));
            assert(merged@.contains_key(k));
            assert(want[k] == if added.contains_key(k) { added[k] } else { start[k] });
        }
        assert forall|k: u32| #[trigger] merged@.contains_key(k) implies want.contains_key(k) by {
            assert(in_tail(listed, 0, k) == added.contains_key(k));
        }
        assert(merged@ =~= want);
    }
}

spec fn in_tail(listed: Seq<(u32, PairSplitDeps)>, n: int, key: u32) -> bool {
    exists|i: int| #![trigger listed[i]] n <= i < listed.len() && listed[i].0 == key
}

/// Joins the split tables of chunks and enters the additions of the merge.
pub fn merge_pair_splits(
    chunk_splits: Vec<FxHashMap<u32, PairSplitDeps>>,
    fixup_splits: Vec<(u32, PairSplitDeps)>,
) -> (merged: FxHashMap<u32, PairSplitDeps>)
    ensures
        merged@ == with_fixups(
            joined_splits(split_maps(chunk_splits@), chunk_splits@.len() as int),
            fixup_splits@,
            fixup_splits@.len() as int,
        ),
{
    let mut merged: FxHashMap<u32, PairSplitDeps> = FxHashMap::default();
    let ghost all = chunk_splits@;
    let ghost maps = split_maps(all);
    let mut rest = seqs::reversed(chunk_splits);
    while rest.len() > 0
        invariant
            maps == split_maps(all),
            rest@ =~= all.skip(all.len() - rest@.len()).reverse(),
            rest@.len() <= all.len(),
            merged@ == joined_splits(maps, all.len() - rest@.len()),
        decreases rest@.len(),
    {
        let ghost k = all.len() - rest@.len();
        if let Some(chunk) = rest.pop() {
            assert(chunk == all[k]);
            assert(maps[k] == chunk@);
            extend_splits(&mut merged, chunk);
        }
    }
    let ghost joined = merged@;
    let ghost fixups = fixup_splits@;
    let mut left = seqs::reversed(fixup_splits);
    while left.len() > 0
        invariant
            left@ =~= fixups.skip(fixups.len() - left@.len()).reverse(),
            left@.len() <= fixups.len(),
            merged@ == with_fixups(joined, fixups, fixups.len() - left@.len()),
        decreases left@.len(),
    {
        let ghost k = fixups.len() - left@.len();
        if let Some((line, split)) = left.pop() {
            assert((line, split) == fixups[k]);
            foreign::fx_insert(&mut merged, line, split);
        }
    }
    merged
}

/// The strings of the first `n` indices one after the other.
pub open spec fn joined_strings(indices: Seq<StringIndex>, n: int) -> Seq<StringRecord>
    decreases n,
{
    if n <= 0 {
        Seq::empty()
    } else {
        joined_strings(indices, n - 1) + indices[n - 1].strings@
    }
}

/// The strings of one line, in order.
pub open spec fn strings_of(strings: Seq<StringRecord>, seq: u32) -> Seq<StringRecord> {
    strings.filter(|s: StringRecord| s.seq == seq)
}

/// Strings paired with their line.
pub open spec fn keyed(strings: Seq<StringRecord>) -> Seq<(u64, StringRecord)> {
    strings.map_values(|s: StringRecord| (s.seq as u64, s))
}

proof fn lemma_keyed_filter(strings: Seq<StringRecord>, seq: u32)
    ensures
        foreign::with_key(keyed(strings), seq as u64) == keyed(strings_of(strings, seq)),
    decreases strings.len(),
{
    reveal(Seq::filter);
    if strings.len() == 0 {
        assert(keyed(strings) =~= Seq::empty());
        assert(foreign::with_key(keyed(strings), seq as u64) =~= keyed(strings_of(strings, seq)));
    } else {
        lemma_keyed_filter(strings.drop_last(), seq);
        assert(keyed(strings).drop_last() =~= keyed(strings.drop_last()));
        let head = strings_of(strings.drop_last(), seq);
        if strings.last().seq == seq {
            assert(keyed(head.push(strings.last())) =~= keyed(head).push(
                (seq as u64, strings.last()),
            ));
        }
    }
}

/// Joins string indices and orders them by line; strings of one line stay in
/// their order.
pub fn merge_string_indices(indices: Vec<StringIndex>) -> (merged: StringIndex)
    ensures
        forall|i: int, j: int|
            #![trigger merged.strings@[i], merged.strings@[j]]
            0 <= i <= j < merged.strings@.len() ==> merged.strings@[i].seq
                <= merged.strings@[j].seq,
        merged.strings@.len() == joined_strings(indices@, indices@.len() as int).len(),
        forall|seq: u32| #[trigger]
            strings_of(merged.strings@, seq) == strings_of(
                joined_strings(indices@, indices@.len() as int),
                seq,
            ),
{
    let ghost all = indices@;
    let mut pairs: Vec<(u64, StringRecord)> = Vec::new();
    let mut rest = seqs::reversed(indices);
    assert(keyed(Seq::empty()) =~= Seq::empty());
    while rest.len() > 0
        invariant
            rest@ =~= all.skip(all.len() - rest@.len()).reverse(),
            rest@.len() <= all.len(),
            pairs@ == keyed(joined_strings(all, all.len() - rest@.len())),
        decreases rest@.len(),
    {
        let ghost k = all.len() - rest@.len();
        if let Some(index) = rest.pop() {
            assert(index == all[k]);
            let ghost head = joined_strings(all, k);
            let ghost own = index.strings@;
            let mut strings = seqs::reversed(index.strings);
            assert(own.take(0) =~= Seq::empty());
            assert(head + own.take(0) =~= head);
            while strings.len() > 0
                invariant
                    strings@ =~= own.skip(own.len() - strings@.len()).reverse(),
                    strings@.len() <= own.len(),
                    pairs@ == keyed(head + own.take(own.len() - strings@.len())),
                decreases strings@.len(),
            {
                let ghost n = own.len() - strings@.len();
                if let Some(record) = strings.pop() {
                    assert(record == own[n]);
                    pairs.push((record.seq as u64, record));
                    assert(head + own.take(n + 1) =~= (head + own.take(n)).push(record));
                    assert(keyed((head + own.take(n)).push(record)) =~= keyed(
                        head + own.take(n),
                    ).push((record.seq as u64, record)));
                }
            }
            assert(own.take(own.len() as int) =~= own);
        }
    }
    let ghost joined = joined_strings(all, all.len() as int);
    foreign::sort_by_first(&mut pairs);
    let ghost sorted = pairs@;
    proof {
        broadcast use vstd::seq_lib::group_to_multiset_ensures;

        assert(sorted.to_multiset().len() == sorted.len());
        assert(sorted.len() == keyed(joined).len());
        assert forall|i: int| #![trigger sorted[i]] 0 <= i < sorted.len() implies sorted[i].0
            == sorted[i].1.seq by {
            assert(sorted.contains(sorted[i]));
            assert(sorted.to_multiset().count(sorted[i]) > 0);
            assert(keyed(joined).to_multiset().count(sorted[i]) > 0);
            assert(keyed(joined).contains(sorted[i]));
            let k = choose|k: int| 0 <= k < keyed(joined).len() && keyed(joined)[k] == sorted[i];
            assert(keyed(joined)[k].0 == joined[k].seq);
        }
    }
    let mut strings: Vec<StringRecord> = Vec::new();
    let mut left = seqs::reversed(pairs);
    while left.len() > 0
        invariant
            left@ =~= sorted.skip(sorted.len() - left@.len()).reverse(),
            left@.len() <= sorted.len(),
            strings@.len() == sorted.len() - left@.len(),
            forall|i: int|
                #![trigger strings@[i]]
                0 <= i < strings@.len() ==> strings@[i] == sorted[i].1,
        decreases left@.len(),
    {
        let ghost n = sorted.len() - left@.len();
        if let Some((_, record)) = left.pop() {
            assert(record == sorted[n].1);
            strings.push(record);
        }
    }
    proof {
        assert(keyed(strings@) =~= sorted) by {
            assert forall|i: int| 0 <= i < sorted.len() implies #[trigger] keyed(strings@)[i]
                == sorted[i] by {
                assert(strings@[i] == sorted[i].1);
            }
        }
        assert forall|i: int, j: int|
            #![trigger strings@[i], strings@[j]]
            0 <= i <= j < strings@.len() implies strings@[i].seq <= strings@[j].seq by {
            assert(sorted[i].0 <= sorted[j].0);
        }
        assert forall|seq: u32| #[trigger]
            strings_of(strings@, seq) == strings_of(joined, seq) by {
            lemma_keyed_filter(strings@, seq);
            lemma_keyed_filter(joined, seq);
            let a = strings_of(strings@, seq);
            let b = strings_of(joined, seq);
            assert(foreign::with_key(sorted, seq as u64) == foreign::with_key(
                keyed(joined),
                seq as u64,
            ));
            assert(keyed(a) == keyed(b));
            assert(a.len() == b.len()) by {
                assert(keyed(a).len() == a.len());
                assert(keyed(b).len() == b.len());
            }
            assert forall|i: int| 0 <= i < a.len() implies a[i] == b[i] by {
                assert(keyed(a)[i] == keyed(b)[i]);
            }
            assert(a =~= b);
        }
    }
    StringIndex { strings }
}

} // verus!
