//! Ordering a table by its counts.
//!
//! A ranking lists the rows of a table by number: the higher count first,
//! and of two rows with the same count the one that came first into the
//! table. There is exactly one such list for every table.

use vstd::prelude::*;

verus! {

/// Whether row `i` stands before row `j` in the ranking.
pub open spec fn outranks(counts: Seq<u32>, i: int, j: int) -> bool {
    counts[i] > counts[j] || (counts[i] == counts[j] && i < j)
}

/// Whether `order` ranks the first `n` rows: it names each of them, each
/// once, and every row it names outranks those named after it.
pub open spec fn ranks_first(counts: Seq<u32>, n: int, order: Seq<int>) -> bool {
    &&& order.len() == n
    &&& forall|a: int| 0 <= a < order.len() ==> 0 <= #[trigger] order[a] < n
    &&& forall|a: int, b: int|
        0 <= a < b < order.len() ==> outranks(counts, #[trigger] order[a], #[trigger] order[b])
    &&& forall|i: int| 0 <= i < n ==> #[trigger] order.contains(i)
}

/// Whether `order` ranks all rows.
pub open spec fn ranks(counts: Seq<u32>, order: Seq<int>) -> bool {
    ranks_first(counts, counts.len() as int, order)
}

/// The ranking of the rows.
pub open spec fn ranking(counts: Seq<u32>) -> Seq<int> {
    choose|order: Seq<int>| ranks(counts, order)
}

/// How many rows are shown under a cap of `top`, where 0 stands for no cap.
pub open spec fn shown(rows: nat, top: u32) -> nat {
    if top == 0 || top >= rows {
        rows
    } else {
        top as nat
    }
}

/// A list of row numbers as mathematical integers.
pub open spec fn numbers(order: Seq<usize>) -> Seq<int> {
    order.map_values(|i: usize| i as int)
}

proof fn lemma_same_at(counts: Seq<u32>, n: int, first: Seq<int>, second: Seq<int>, k: int)
    requires
        ranks_first(counts, n, first),
        ranks_first(counts, n, second),
        0 <= k < n,
    ensures
        first[k] == second[k],
    decreases k,
{
    assert forall|j: int| 0 <= j < k implies first[j] == second[j] by {
        lemma_same_at(counts, n, first, second, j);
    }
    let x = first[k];
    let y = second[k];
    if x != y {
        assert(first.contains(y));
        let p = choose|p: int| 0 <= p < first.len() && first[p] == y;
        if p < k {
            assert(outranks(counts, second[p], second[k]));
        }
        assert(outranks(counts, first[k], first[p]));
        assert(second.contains(x));
        let q = choose|q: int| 0 <= q < second.len() && second[q] == x;
        if q < k {
            assert(outranks(counts, first[q], first[k]));
        }
        assert(outranks(counts, second[k], second[q]));
    }
}

/// A table has one ranking only.
pub proof fn lemma_ranking_unique(counts: Seq<u32>, first: Seq<int>, second: Seq<int>)
    requires
        ranks(counts, first),
        ranks(counts, second),
    ensures
        first == second,
{
    assert forall|k: int| 0 <= k < first.len() implies first[k] == second[k] by {
        lemma_same_at(counts, counts.len() as int, first, second, k);
    }
    assert(first =~= second);
}

/// The row numbers in ranking order.
pub fn rank(counts: &Vec<u32>) -> (order: Vec<usize>)
    ensures
        numbers(order@) == ranking(counts@),
        ranks(counts@, numbers(order@)),
{
    let mut order: Vec<usize> = Vec::new();
    let mut i: usize = 0;
    while i < counts.len()
        invariant
            0 <= i <= counts.len(),
            ranks_first(counts@, i as int, numbers(order@)),
            forall|a: int| 0 <= a < order@.len() ==> #[trigger] order@[a] < i,
        decreases counts.len() - i,
    {
        let ghost before = numbers(order@);
        let mut at: usize = 0;
        while at < order.len() && counts[order[at]] >= counts[i]
            invariant
                0 <= at <= order.len(),
                i < counts.len(),
                before == numbers(order@),
                ranks_first(counts@, i as int, before),
                forall|a: int| 0 <= a < order@.len() ==> #[trigger] order@[a] < i,
                forall|a: int| 0 <= a < at ==> counts@[#[trigger] before[a]] >= counts@[i as int],
            decreases order.len() - at,
        {
            assert(before[at as int] == order@[at as int]);
            at += 1;
        }
        proof {
            if at < order.len() {
                assert(before[at as int] == order@[at as int]);
                assert(counts@[before[at as int]] < counts@[i as int]);
            }
        }
        let ghost held = order@;
        order.insert(at, i);
        proof {
            assert forall|a: int| 0 <= a < order@.len() implies #[trigger] order@[a] < i + 1 by {
                if a < at {
                    assert(order@[a] == held[a]);
                } else if a > at {
                    assert(order@[a] == held[a - 1]);
                }
            }
            let after = numbers(order@);
            assert(after =~= before.insert(at as int, i as int));
            assert forall|a: int, b: int| 0 <= a < b < after.len() implies outranks(
                counts@,
                #[trigger] after[a],
                #[trigger] after[b],
            ) by {
                if b < at {
                    assert(after[a] == before[a] && after[b] == before[b]);
                } else if b == at {
                    assert(after[a] == before[a]);
                } else if a == at {
                    assert(after[b] == before[b - 1]);
                    if b - 1 > at {
                        assert(outranks(counts@, before[at as int], before[b - 1]));
                    }
                } else if a < at {
                    assert(after[a] == before[a] && after[b] == before[b - 1]);
                } else {
                    assert(after[a] == before[a - 1] && after[b] == before[b - 1]);
                }
            }
            assert forall|j: int| 0 <= j < i + 1 implies #[trigger] after.contains(j) by {
                if j == i {
                    assert(after[at as int] == j);
                } else {
                    assert(before.contains(j));
                    let p = choose|p: int| 0 <= p < before.len() && before[p] == j;
                    if p < at {
                        assert(after[p] == j);
                    } else {
                        assert(after[p + 1] == j);
                    }
                }
            }
            assert forall|a: int| 0 <= a < after.len() implies 0 <= #[trigger] after[a] < i
                + 1 by {
                if a < at {
                    assert(after[a] == before[a]);
                } else if a > at {
                    assert(after[a] == before[a - 1]);
                }
            }
        }
        i += 1;
    }
    proof {
        lemma_ranking_unique(counts@, numbers(order@), ranking(counts@));
    }
    order
}

} // verus!
