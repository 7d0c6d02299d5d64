//! The proportional allocator: a node keeps a sixth of its rank mass and
//! splits the rest over its out-edges in proportion to their weights.
use vstd::prelude::*;
use crate::compaction::ints;

verus! {

/// Sum of the weights of `edges`.
pub open spec fn degree(edges: Seq<(usize, i64)>) -> int
    decreases edges.len(),
{
    if edges.len() == 0 {
        0
    } else {
        degree(edges.drop_last()) + edges.last().1
    }
}

/// Mass per unit of weight: five sixths of the rank, divided by the degree.
pub open spec fn unit_share(rank: int, edges: Seq<(usize, i64)>) -> int {
    (rank * 5 / 6) / degree(edges)
}

/// Mass sent along the edge at position `i`. The first `share % len` edges
/// get one extra unit per unit of weight.
pub open spec fn amount(rank: int, edges: Seq<(usize, i64)>, i: int) -> int {
    let s = unit_share(rank, edges);
    if i < s % (edges.len() as int) {
        edges[i].1 * (s + 1)
    } else {
        edges[i].1 * s
    }
}

/// What the allocator sends for `rank` over `edges`: one (destination,
/// amount) pair per edge, in edge order.
pub open spec fn allocation(rank: int, edges: Seq<(usize, i64)>) -> Seq<(usize, int)> {
    Seq::new(edges.len(), |i: int| (edges[i].0, amount(rank, edges, i)))
}

/// Sum of the amounts of an allocation.
pub open spec fn total_sent(a: Seq<(usize, int)>) -> int
    decreases a.len(),
{
    if a.len() == 0 {
        0
    } else {
        total_sent(a.drop_last()) + a.last().1
    }
}

/// The allocator's own requirement: a non-negative rank and positive
/// weights wherever there is an edge.
pub open spec fn allocatable(rank: int, edges: Seq<(usize, i64)>) -> bool {
    edges.len() > 0 ==> {
        &&& 0 <= rank
        &&& forall|i: int| 0 <= i < edges.len() ==> #[trigger] edges[i].1 > 0
    }
}

/// What `i64` arithmetic needs: the rank times five, the degree and each
/// amount fit.
pub open spec fn allocation_fits(rank: int, edges: Seq<(usize, i64)>) -> bool {
    edges.len() > 0 ==> {
        &&& rank * 5 <= i64::MAX
        &&& degree(edges) <= i64::MAX
        &&& forall|i: int| 0 <= i < edges.len() ==> #[trigger] amount(rank, edges, i) <= i64::MAX
    }
}

proof fn lemma_alloc_prefix(rank: int, edges: Seq<(usize, i64)>, k: int)
    requires
        0 <= k < edges.len(),
    ensures
        total_sent(allocation(rank, edges).take(k + 1)) == total_sent(
            allocation(rank, edges).take(k),
        ) + amount(rank, edges, k),
{
    let a = allocation(rank, edges);
    assert(a.take(k + 1).drop_last() =~= a.take(k));
}

proof fn lemma_lower_prefix(rank: int, edges: Seq<(usize, i64)>, k: int)
    requires
        0 <= k <= edges.len(),
        edges.len() > 0,
        allocatable(rank, edges),
    ensures
        total_sent(allocation(rank, edges).take(k)) >= degree(edges.take(k)) * unit_share(
            rank,
            edges,
        ),
    decreases k,
{
    let s = unit_share(rank, edges);
    let a = allocation(rank, edges);
    lemma_share_nonneg(rank, edges);
    if k == 0 {
        assert(a.take(0) =~= Seq::<(usize, int)>::empty());
        assert(edges.take(0) =~= Seq::<(usize, i64)>::empty());
    } else {
        lemma_lower_prefix(rank, edges, k - 1);
        lemma_alloc_prefix(rank, edges, k - 1);
        lemma_degree_prefix(edges, k - 1);
        let w = edges[k - 1].1 as int;
        let d = degree(edges.take(k - 1));
        let t = total_sent(a.take(k - 1));
        let x = amount(rank, edges, k - 1);
        assert(x >= w * s) by (nonlinear_arith)
            requires
                w > 0,
                s >= 0,
                x == w * s || x == w * (s + 1),
        ;
        assert(t + x >= (d + w) * s) by (nonlinear_arith)
            requires
                t >= d * s,
                x >= w * s,
        ;
    }
}

/// The allocator sends at least `share` per unit of weight: in total no
/// less than the degree times the share.
pub proof fn lemma_allocation_lower_bound(rank: int, edges: Seq<(usize, i64)>)
    requires
        edges.len() > 0,
        allocatable(rank, edges),
    ensures
        total_sent(allocation(rank, edges)) >= degree(edges) * unit_share(rank, edges),
{
    lemma_lower_prefix(rank, edges, edges.len() as int);
    assert(allocation(rank, edges).take(edges.len() as int) =~= allocation(rank, edges));
    assert(edges.take(edges.len() as int) =~= edges);
}

proof fn lemma_unit_prefix(rank: int, edges: Seq<(usize, i64)>, k: int)
    requires
        0 <= k <= edges.len(),
        edges.len() > 0,
        forall|i: int| 0 <= i < edges.len() ==> #[trigger] edges[i].1 == 1,
    ensures
        total_sent(allocation(rank, edges).take(k)) == k * unit_share(rank, edges) + (if k
            < unit_share(rank, edges) % (edges.len() as int) {
            k
        } else {
            unit_share(rank, edges) % (edges.len() as int)
        }),
        degree(edges.take(k)) == k,
    decreases k,
{
    let a = allocation(rank, edges);
    if k == 0 {
        assert(a.take(0) =~= Seq::<(usize, int)>::empty());
        assert(edges.take(0) =~= Seq::<(usize, i64)>::empty());
        assert(0 * unit_share(rank, edges) == 0);
    } else {
        lemma_unit_prefix(rank, edges, k - 1);
        lemma_alloc_prefix(rank, edges, k - 1);
        assert(edges.take(k).drop_last() =~= edges.take(k - 1));
        assert(edges[k - 1].1 == 1);
        let s = unit_share(rank, edges);
        let n = edges.len() as int;
        assert(amount(rank, edges, k - 1) == if k - 1 < s % n {
            s + 1
        } else {
            s
        });
        assert(k * s == (k - 1) * s + s) by (nonlinear_arith);
    }
}

/// With unit weights the allocator never sends more than the rank: it sends
/// `len * share + share % len`.
pub proof fn lemma_allocation_within_rank_unit_weights(rank: int, edges: Seq<(usize, i64)>)
    requires
        edges.len() > 0,
        0 <= rank,
        forall|i: int| 0 <= i < edges.len() ==> #[trigger] edges[i].1 == 1,
    ensures
        total_sent(allocation(rank, edges)) <= rank,
{
    let n = edges.len() as int;
    let s = unit_share(rank, edges);
    assert(allocatable(rank, edges));
    lemma_share_nonneg(rank, edges);
    let r = s % n;
    let a = allocation(rank, edges);
    lemma_unit_prefix(rank, edges, n);
    assert(a.take(n) =~= a);
    assert(edges.take(n) =~= edges);
    // n * s is at most five sixths of the rank; the extra units fit in the
    // sixth that is kept.
    let q = rank * 5 / 6;
    assert(6 * q <= 5 * rank);
    assert(n * s <= q) by (nonlinear_arith)
        requires
            s == q / n,
            n >= 1,
            q >= 0,
    ;
    let m = rank - n * s;
    assert(5 * m >= n * s);
    assert(0 <= r < n);
    assert(r <= s) by (nonlinear_arith)
        requires
            r == s % n,
            s >= 0,
            n >= 1,
    ;
    if n >= 5 {
        assert(5 * s <= n * s) by (nonlinear_arith)
            requires
                n >= 5,
                s >= 0,
        ;
    } else {
        if s < n {
            assert(r == s) by (nonlinear_arith)
                requires
                    r == s % n,
                    0 <= s < n,
            ;
        }
        if n == 1 {
            assert(n * s == s);
        } else if n == 2 {
            assert(n * s == 2 * s);
        } else if n == 3 {
            assert(n * s == 3 * s);
        } else {
            assert(n * s == 4 * s);
        }
    }
    assert(r <= m);
}

/// The allocator is deterministic: two runs on the same rank, edges and
/// output list leave the same output list.
pub proof fn lemma_allocate_deterministic(
    rank: int,
    edges: Seq<(usize, i64)>,
    start: Seq<(usize, i64)>,
    first: Seq<(usize, i64)>,
    second: Seq<(usize, i64)>,
)
    requires
        ints(first) == ints(start) + allocation(rank, edges),
        ints(second) == ints(start) + allocation(rank, edges),
    ensures
        first == second,
{
    assert(first.len() == ints(first).len());
    assert(second.len() == ints(second).len());
    assert forall|i: int| 0 <= i < first.len() implies first[i] == second[i] by {
        assert(ints(first)[i] == ints(second)[i]);
    }
    assert(first =~= second);
}

/// With a non-negative rank and positive weights the share is non-negative.
pub proof fn lemma_share_nonneg(rank: int, edges: Seq<(usize, i64)>)
    requires
        edges.len() > 0,
        allocatable(rank, edges),
    ensures
        unit_share(rank, edges) >= 0,
{
    lemma_degree_nonneg(edges);
    let q = rank * 5 / 6;
    assert(q >= 0);
    assert(q / degree(edges) >= 0) by (nonlinear_arith)
        requires
            q >= 0,
            degree(edges) > 0,
    ;
}

proof fn lemma_degree_prefix(edges: Seq<(usize, i64)>, i: int)
    requires
        0 <= i < edges.len(),
        forall|m: int| 0 <= m < edges.len() ==> #[trigger] edges[m].1 > 0,
    ensures
        degree(edges.take(i + 1)) == degree(edges.take(i)) + edges[i].1,
        degree(edges.take(i + 1)) <= degree(edges),
        degree(edges.take(i)) >= 0,
    decreases edges.len() - i,
{
    assert(edges.take(i + 1).drop_last() =~= edges.take(i));
    if i + 1 < edges.len() {
        lemma_degree_prefix(edges, i + 1);
    } else {
        assert(edges.take(i + 1) =~= edges);
    }
    lemma_degree_nonneg(edges.take(i));
}

proof fn lemma_degree_nonneg(edges: Seq<(usize, i64)>)
    requires
        forall|m: int| 0 <= m < edges.len() ==> #[trigger] edges[m].1 > 0,
    ensures
        degree(edges) >= 0,
        edges.len() > 0 ==> degree(edges) > 0,
    decreases edges.len(),
{
    if edges.len() > 0 {
        lemma_degree_nonneg(edges.drop_last());
    }
}

/// Whether `allocate` may run on `rank` and `edges`: its requirement holds
/// and every intermediate value fits an `i64`.
pub fn allocation_ok(rank: i64, edges: &[(usize, i64)]) -> (r: bool)
    ensures
        r == (allocatable(rank as int, edges@) && allocation_fits(rank as int, edges@)),
{
    if edges.len() == 0 {
        return true;
    }
    if rank < 0 || rank > i64::MAX / 5 {
        return false;
    }
    let mut k: usize = 0;
    let mut deg: i128 = 0;
    while k < edges.len()
        invariant
            0 <= k <= edges.len(),
            forall|m: int| 0 <= m < k ==> #[trigger] edges@[m].1 > 0,
            deg == degree(edges@.take(k as int)),
            0 <= deg <= (k as int) * 0x8000_0000_0000_0000,
        decreases edges.len() - k,
    {
        if edges[k].1 <= 0 {
            return false;
        }
        assert(edges@.take(k + 1).drop_last() =~= edges@.take(k as int));
        deg = deg + edges[k].1 as i128;
        k += 1;
    }
    assert(edges@.take(edges.len() as int) =~= edges@);
    if deg > i64::MAX as i128 {
        return false;
    }
    proof {
        lemma_degree_nonneg(edges@);
    }
    let share: i128 = ((rank as i128 * 5) / 6) / deg;
    let ghost q = rank * 5 / 6;
    assert(share <= q) by (nonlinear_arith)
        requires
            share == q / (deg as int),
            deg >= 1,
            q >= 0,
    ;
    assert(share == unit_share(rank as int, edges@));
    let extra: i128 = share % (edges.len() as i128);
    let mut i: usize = 0;
    while i < edges.len()
        invariant
            0 <= i <= edges.len(),
            allocatable(rank as int, edges@),
            rank * 5 <= i64::MAX,
            degree(edges@) <= i64::MAX,
            share == unit_share(rank as int, edges@),
            0 <= share < i64::MAX,
            extra == (share as int) % (edges.len() as int),
            forall|m: int| 0 <= m < i ==> #[trigger] amount(rank as int, edges@, m) <= i64::MAX,
        decreases edges.len() - i,
    {
        let w = edges[i].1 as i128;
        let factor: i128 = if (i as i128) < extra {
            share + 1
        } else {
            share
        };
        assert(w * factor <= 0x8000_0000_0000_0000 * 0x8000_0000_0000_0000) by (nonlinear_arith)
            requires
                0 < w <= 0x8000_0000_0000_0000,
                0 <= factor <= 0x8000_0000_0000_0000,
        ;
        if w * factor > i64::MAX as i128 {
            assert(amount(rank as int, edges@, i as int) == w * factor);
            return false;
        }
        i += 1;
    }
    true
}

/// Appends to `send` one (destination, amount) pair per edge: `share` per
/// unit of weight, one unit more for the first `share % len` edges. With no
/// edges nothing is sent.
pub fn allocate(rank: i64, edges: &[(usize, i64)], send: &mut Vec<(usize, i64)>)
    requires
        allocatable(rank as int, edges@),
        allocation_fits(rank as int, edges@),
    ensures
        ints(final(send)@) == ints(old(send)@) + allocation(rank as int, edges@),
{
    let ghost start = send@;
    if edges.len() > 0 {
        let mut deg: i64 = 0;
        let mut k: usize = 0;
        while k < edges.len()
            invariant
                0 <= k <= edges.len(),
                allocatable(rank as int, edges@),
                allocation_fits(rank as int, edges@),
                deg == degree(edges@.take(k as int)),
            decreases edges.len() - k,
        {
            proof {
                lemma_degree_prefix(edges@, k as int);
            }
            deg = deg + edges[k].1;
            k += 1;
        }
        proof {
            assert(edges@.take(edges.len() as int) =~= edges@);
            lemma_degree_nonneg(edges@);
        }
        let share: i64 = ((rank * 5) / 6) / deg;
        assert(share == unit_share(rank as int, edges@));
        let ghost q = rank * 5 / 6;
        assert(share <= q) by (nonlinear_arith)
            requires
                share == q / (deg as int),
                deg >= 1,
                q >= 0,
        ;
        let extra: i128 = (share as i128) % (edges.len() as i128);
        let mut i: usize = 0;
        while i < edges.len()
            invariant
                0 <= i <= edges.len(),
                allocatable(rank as int, edges@),
                allocation_fits(rank as int, edges@),
                share == unit_share(rank as int, edges@),
                0 <= share < i64::MAX,
                extra == (share as int) % (edges.len() as int),
                ints(send@) == ints(start) + allocation(rank as int, edges@).take(i as int),
            decreases edges.len() - i,
        {
            let (dst, w) = edges[i];
            assert(amount(rank as int, edges@, i as int) <= i64::MAX);
            let sent: i64 = if (i as i128) < extra {
                assert(w * (share + 1) >= 0) by (nonlinear_arith)
                    requires
                        w > 0,
                        share >= 0,
                ;
                w * (share + 1)
            } else {
                assert(w * share >= 0) by (nonlinear_arith)
                    requires
                        w > 0,
                        share >= 0,
                ;
                w * share
            };
            let ghost before = send@;
            send.push((dst, sent));
            proof {
                assert(ints(send@) =~= ints(before).push((dst, sent as int)));
                assert(allocation(rank as int, edges@).take(i + 1) =~= allocation(
                    rank as int,
                    edges@,
                ).take(i as int).push((dst, sent as int)));
            }
            i += 1;
        }
        assert(allocation(rank as int, edges@).take(edges.len() as int) =~= allocation(
            rank as int,
            edges@,
        ));
    } else {
        assert(allocation(rank as int, edges@) =~= Seq::<(usize, int)>::empty());
        assert(ints(start) + allocation(rank as int, edges@) =~= ints(start));
    }
}

} // verus!
