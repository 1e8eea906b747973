//! The edges that the merge found, grouped by line.

use crate::foreign;
use crate::merge::deps::{group_edges, groups_edges, targets_of};
use crate::merge::loads::Edge;
use crate::scanner::deps::{group_deps, groups_sorted, lemma_group_at};
use vstd::prelude::*;

verus! {

/// Values strictly ascend.
pub open spec fn strictly_ascending(s: Seq<u32>) -> bool {
    forall|i: int, j: int| #![trigger s[i], s[j]] 0 <= i < j < s.len() ==> s[i] < s[j]
}

/// `list` holds the values of `s`, ascending and without repetition.
pub open spec fn sorted_unique(list: Seq<u32>, s: Seq<u32>) -> bool {
    &&& strictly_ascending(list)
    &&& forall|v: u32| #[trigger] list.contains(v) <==> s.contains(v)
}

/// The groups hold, line by line, the targets of the edges.
pub open spec fn is_patch_groups(edges: Seq<Edge>, groups: Seq<(u32, Vec<u32>)>) -> bool {
    &&& groups_sorted(groups)
    &&& forall|g: int|
        #![trigger groups[g]]
        0 <= g < groups.len() ==> sorted_unique(
            groups[g].1@,
            targets_of(edges, groups[g].0),
        ) && groups[g].1@.len() > 0
    &&& forall|line: u32|
        (#[trigger] targets_of(edges, line)).len() > 0 ==> exists|g: int|
            #![trigger groups[g]]
            0 <= g < groups.len() && groups[g].0 == line
}

/// Sorts a list and drops repetitions.
fn sort_and_dedup(list: Vec<u32>) -> (r: Vec<u32>)
    ensures
        sorted_unique(r@, list@),
        list@.len() > 0 ==> r@.len() > 0,
{
    let ghost given = list@;
    let mut list = list;
    foreign::sort_numbers(&mut list);
    let ghost sorted = list@;
    let mut r: Vec<u32> = Vec::new();
    let mut i: usize = 0;
    while i < list.len()
        invariant
            i <= list@.len(),
            list@ == sorted,
            foreign::ascending(sorted),
            strictly_ascending(r@),
            i == 0 ==> r@.len() == 0,
            i > 0 ==> r@.len() > 0 && r@.last() == sorted[i - 1],
            forall|k: int| #![trigger r@[k]] 0 <= k < r@.len() ==> sorted.contains(r@[k]),
            forall|k: int| #![trigger sorted[k]] 0 <= k < i ==> r@.contains(sorted[k]),
        decreases list@.len() - i,
    {
        let value: u32 = list[i];
        let ghost before = r@;
        if r.len() == 0 || r[r.len() - 1] != value {
            r.push(value);
            assert(sorted.contains(sorted[i as int]));
            assert(r@[r@.len() - 1] == value);
            assert forall|a: int, b: int| #![trigger r@[a], r@[b]] 0 <= a < b < r@.len() implies
                r@[a] < r@[b] by {
                if b == before.len() {
                    assert(before[a] <= before[before.len() - 1]) by {
                        if a < before.len() - 1 {
                            assert(before[a] < before[before.len() - 1]);
                        }
                    }
                    assert(sorted[i - 1] <= sorted[i as int]);
                }
            }
            assert forall|k: int| #![trigger sorted[k]] 0 <= k < i + 1 implies r@.contains(
                sorted[k],
            ) by {
                if k < i {
                    assert(before.contains(sorted[k]));
                    let p = choose|p: int| 0 <= p < before.len() && before[p] == sorted[k];
                    assert(r@[p] == sorted[k]);
                }
            }
        } else {
            assert(r@[r@.len() - 1] == value);
        }
        i += 1;
    }
    proof {
        broadcast use vstd::seq_lib::group_to_multiset_ensures;

        assert forall|v: u32| #[trigger] r@.contains(v) <==> given.contains(v) by {
            assert(sorted.to_multiset().count(v) == given.to_multiset().count(v));
            if sorted.contains(v) {
                let k = choose|k: int| 0 <= k < sorted.len() && sorted[k] == v;
                assert(r@.contains(sorted[k]));
            }
            if r@.contains(v) {
                let k = choose|k: int| 0 <= k < r@.len() && r@[k] == v;
                assert(sorted.contains(r@[k]));
            }
        }
        if given.len() > 0 {
            assert(given.contains(given[0]));
            assert(r@.contains(given[0]));
        }
    }
    r
}

/// Groups edges by line.
pub(crate) fn patch_groups(edges: &Vec<Edge>) -> (groups: Vec<(u32, Vec<u32>)>)
    ensures
        is_patch_groups(edges@, groups@),
{
    let mut by_line = group_edges(edges);
    let ghost m = by_line@;
    let mut entries = foreign::fx_drain(&mut by_line);
    let ghost listed = entries@;
    let mut keyed: Vec<(u64, Vec<u32>)> = Vec::new();
    while entries.len() > 0
        invariant
            groups_edges(m, edges@),
            foreign::lists_map(listed, m),
            entries@ =~= listed.take(entries@.len() as int),
            entries@.len() <= listed.len(),
            keyed@.len() == listed.len() - entries@.len(),
            forall|k: int|
                #![trigger keyed@[k]]
                0 <= k < keyed@.len() ==> keyed@[k].0 == listed[listed.len() - 1 - k].0
                    && sorted_unique(
                    keyed@[k].1@,
                    targets_of(edges@, keyed@[k].0 as u32),
                ) && keyed@[k].1@.len() > 0,
        decreases entries@.len(),
    {
        let ghost n = entries@.len() as int;
        if let Some((line, list)) = entries.pop() {
            assert((line, list) == listed[n - 1]);
            assert(m.contains_key(listed[n - 1].0) && m[listed[n - 1].0] == listed[n - 1].1);
            let sorted = sort_and_dedup(list);
            keyed.push((line as u64, sorted));
        }
    }
    let ghost before = keyed@;
    proof {
        assert forall|i: int, j: int|
            #![trigger before[i], before[j]]
            0 <= i < j < before.len() implies before[i].0 != before[j].0 by {
            assert(listed[listed.len() - 1 - j].0 != listed[listed.len() - 1 - i].0);
        }
    }
    foreign::sort_by_first(&mut keyed);
    let ghost sorted = keyed@;
    proof {
        foreign::lemma_sorted_distinct(before, sorted);
        assert forall|i: int| #![trigger sorted[i]] 0 <= i < sorted.len() implies sorted[i].0
            <= u32::MAX && sorted_unique(
            sorted[i].1@,
            targets_of(edges@, sorted[i].0 as u32),
        ) && sorted[i].1@.len() > 0 by {
            assert(before.contains(sorted[i]));
            let k = choose|k: int| 0 <= k < before.len() && before[k] == sorted[i];
            assert(before[k] == sorted[i]);
            assert(before[k].0 == listed[listed.len() - 1 - k].0);
        }
    }
    let mut back: Vec<(u32, Vec<u32>)> = Vec::new();
    while keyed.len() > 0
        invariant
            keyed@ =~= sorted.take(keyed@.len() as int),
            keyed@.len() <= sorted.len(),
            forall|i: int| #![trigger sorted[i]] 0 <= i < sorted.len() ==> sorted[i].0 <= u32::MAX,
            back@.len() == sorted.len() - keyed@.len(),
            forall|k: int|
                #![trigger back@[k]]
                0 <= k < back@.len() ==> back@[k].0 == sorted[sorted.len() - 1 - k].0
                    && back@[k].1 == sorted[sorted.len() - 1 - k].1,
        decreases keyed@.len(),
    {
        let ghost n = keyed@.len() as int;
        if let Some((line, list)) = keyed.pop() {
            assert((line, list) == sorted[n - 1]);
            back.push((line as u32, list));
        }
    }
    let ghost backward = back@;
    let groups = crate::seqs::reversed(back);
    proof {
        let g = groups@;
        assert forall|k: int| #![trigger g[k]] 0 <= k < g.len() implies g[k].0 == sorted[k].0
            && g[k].1 == sorted[k].1 by {
            assert(g[k] == backward[g.len() - 1 - k]);
        }
        assert forall|i: int, j: int| #![trigger g[i], g[j]] 0 <= i < j < g.len() implies g[i].0
            < g[j].0 by {
            assert(sorted[i].0 < sorted[j].0);
        }
        assert forall|k: int| #![trigger g[k]] 0 <= k < g.len() implies sorted_unique(
            g[k].1@,
            targets_of(edges@, g[k].0),
        ) && g[k].1@.len() > 0 by {
            assert(sorted[k].0 as u32 == g[k].0);
        }
        assert forall|line: u32|
            (#[trigger] targets_of(edges@, line)).len() > 0 implies exists|k: int|
            #![trigger g[k]]
            0 <= k < g.len() && g[k].0 == line by {
            assert(m.contains_key(line));
            let i = choose|i: int| #![trigger listed[i]] 0 <= i < listed.len() && listed[i].0 == line;
            let b = listed.len() - 1 - i;
            assert(before[b].0 == listed[listed.len() - 1 - b].0);
            assert(sorted.contains(before[b]));
            let k = choose|k: int| 0 <= k < sorted.len() && sorted[k] == before[b];
            assert(g[k].0 == line);
        }
    }
    groups
}

/// What the groups list for a line is exactly what its edges lead to.
pub proof fn law_groups_hold_all_edges(
    edges: Seq<Edge>,
    groups: Seq<(u32, Vec<u32>)>,
    line: u32,
    dep: u32,
)
    requires
        is_patch_groups(edges, groups),
    ensures
        group_deps(groups, line as int).contains(dep) <==> edges.contains((line, dep)),
{
    lemma_targets_of(edges, line, dep);
    if exists|g: int| #![trigger groups[g]] 0 <= g < groups.len() && groups[g].0 == line as int {
        let g = choose|g: int| #![trigger groups[g]] 0 <= g < groups.len() && groups[g].0 == line as int;
        lemma_group_at(groups, g);
        assert(sorted_unique(groups[g].1@, targets_of(edges, groups[g].0)));
    } else {
        assert(targets_of(edges, line).len() == 0) by {
            if targets_of(edges, line).len() > 0 {
                let g = choose|g: int|
                    #![trigger groups[g]]
                    0 <= g < groups.len() && groups[g].0 == line;
                assert(groups[g].0 == line as int);
            }
        }
    }
}

proof fn lemma_targets_of(edges: Seq<Edge>, line: u32, dep: u32)
    ensures
        targets_of(edges, line).contains(dep) <==> edges.contains((line, dep)),
    decreases edges.len(),
{
    if edges.len() > 0 {
        let p = edges.drop_last();
        lemma_targets_of(p, line, dep);
        let t = targets_of(p, line);
        if edges.contains((line, dep)) {
            let i = choose|i: int| 0 <= i < edges.len() && edges[i] == (line, dep);
            if i < p.len() {
                assert(p[i] == (line, dep));
                let k = choose|k: int| 0 <= k < t.len() && t[k] == dep;
                assert(targets_of(edges, line)[k] == dep);
            } else {
                assert(targets_of(edges, line)[t.len() as int] == dep);
            }
        }
        if targets_of(edges, line).contains(dep) {
            let all = targets_of(edges, line);
            let k = choose|k: int| 0 <= k < all.len() && all[k] == dep;
            if k < t.len() {
                assert(t[k] == dep);
                let i = choose|i: int| 0 <= i < p.len() && p[i] == (line, dep);
                assert(edges[i] == (line, dep));
            } else {
                assert(edges[edges.len() - 1] == (line, dep));
            }
        }
    }
}

} // verus!
