//! The update protocol: each edge or rank change retracts a node's previous
//! allocation, applies the change, allocates again, and emits the compacted
//! difference.
use vstd::prelude::*;
use crate::summary::{summarize, BatchSummary};
use crate::allocation::{allocate, allocatable, allocation_ok, allocation, allocation_fits, amount};
use crate::compaction::{
    canonical, compact, compacts_to, lemma_canonical_is, try_compact, CompactKey, EdgeKey, ints, is_compacted, key_sum, lemma_canonical_unique, lemma_sorted_sum,
    strictly_sorted, sum_at, sums_fit, lemma_sum_concat,
};

verus! {

/// Mass that an allocation of `rank` over `edges` sends to `dst`.
pub open spec fn sent_to(rank: int, edges: Seq<(usize, i64)>, dst: usize) -> int {
    sum_at(allocation(rank, edges), dst)
}

/// An allocation with every amount negated: its retraction.
pub open spec fn negated(a: Seq<(usize, int)>) -> Seq<(usize, int)> {
    a.map_values(|e: (usize, int)| (e.0, -e.1))
}

/// A node's out-edges as the engine keeps them: canonical, weights positive.
pub open spec fn valid_edges(edges: Seq<(usize, i64)>) -> bool {
    &&& is_compacted(edges)
    &&& forall|i: int| 0 <= i < edges.len() ==> #[trigger] edges[i].1 > 0
}

/// The change from an old allocation to a new one is what `delta` holds
/// under every destination.
pub open spec fn is_net_change(
    delta: Seq<(usize, i64)>,
    old_rank: int,
    old_edges: Seq<(usize, i64)>,
    new_rank: int,
    new_edges: Seq<(usize, i64)>,
) -> bool {
    forall|d: usize| #[trigger]
        key_sum(delta, d) == sent_to(new_rank, new_edges, d) - sent_to(old_rank, old_edges, d)
}

proof fn lemma_sum_negated(a: Seq<(usize, int)>, d: usize)
    ensures
        sum_at(negated(a), d) == -sum_at(a, d),
    decreases a.len(),
{
    if a.len() > 0 {
        assert(negated(a).drop_last() =~= negated(a.drop_last()));
        lemma_sum_negated(a.drop_last(), d);
    }
}

/// Over valid edges, each destination gets at most one amount, which lies
/// between zero and `i64::MAX`.
proof fn lemma_sent_to_bounds(rank: int, edges: Seq<(usize, i64)>, d: usize)
    requires
        valid_edges(edges),
        allocatable(rank, edges),
        allocation_fits(rank, edges),
    ensures
        0 <= sent_to(rank, edges, d) <= i64::MAX,
{
    let a = allocation(rank, edges);
    assert(strictly_sorted(a)) by {
        assert forall|i: int, j: int| 0 <= i < j < a.len() implies a[i].0.pos() < a[j].0.pos() by {
            assert(ints(edges)[i].0.pos() < ints(edges)[j].0.pos());
        }
    }
    lemma_sorted_sum(a, d);
    if exists|j: int| 0 <= j < a.len() && a[j].0 == d {
        let j = choose|j: int| 0 <= j < a.len() && a[j].0 == d;
        lemma_amount_nonneg(rank, edges, j);
    }
}

proof fn lemma_amount_nonneg(rank: int, edges: Seq<(usize, i64)>, i: int)
    requires
        0 <= i < edges.len(),
        allocatable(rank, edges),
        allocation_fits(rank, edges),
    ensures
        0 <= amount(rank, edges, i) <= i64::MAX,
{
    let w = edges[i].1 as int;
    assert(w > 0);
    let s = crate::allocation::unit_share(rank, edges);
    crate::allocation::lemma_share_nonneg(rank, edges);
    assert(w * s >= 0 && w * (s + 1) >= 0) by (nonlinear_arith)
        requires
            w > 0,
            s >= 0,
    ;
}

/// Retracting an allocation and adding a new one, then compacting, leaves
/// for each destination exactly the difference between the new amount and
/// the old one.
pub proof fn lemma_net_delta(
    delta: Seq<(usize, i64)>,
    out: Seq<(usize, i64)>,
    old_rank: int,
    old_edges: Seq<(usize, i64)>,
    new_rank: int,
    new_edges: Seq<(usize, i64)>,
)
    requires
        ints(delta) == negated(allocation(old_rank, old_edges)) + allocation(new_rank, new_edges),
        compacts_to(delta, out),
    ensures
        is_net_change(out, old_rank, old_edges, new_rank, new_edges),
{
    assert forall|d: usize| #[trigger]
        key_sum(out, d) == sent_to(new_rank, new_edges, d) - sent_to(old_rank, old_edges, d) by {
        assert(key_sum(out, d) == key_sum(delta, d));
        lemma_sum_concat(negated(allocation(old_rank, old_edges)), allocation(new_rank, new_edges), d);
        lemma_sum_negated(allocation(old_rank, old_edges), d);
    }
}

/// The records to emit when a node's allocation changes from `old_rank`
/// over `old_edges` to `new_rank` over `new_edges`: the old allocation
/// negated and the new one, compacted into one entry per destination.
pub fn net_change(old_rank: i64, old_edges: &[(usize, i64)], new_rank: i64, new_edges: &[(usize, i64)]) -> (out: Vec<(usize, i64)>)
    requires
        valid_edges(old_edges@),
        valid_edges(new_edges@),
        allocatable(old_rank as int, old_edges@),
        allocation_fits(old_rank as int, old_edges@),
        allocatable(new_rank as int, new_edges@),
        allocation_fits(new_rank as int, new_edges@),
    ensures
        is_compacted(out@),
        is_net_change(out@, old_rank as int, old_edges@, new_rank as int, new_edges@),
{
    let mut delta: Vec<(usize, i64)> = Vec::new();
    allocate(old_rank, old_edges, &mut delta);
    let ghost old_alloc = allocation(old_rank as int, old_edges@);
    assert(ints(delta@) =~= old_alloc);
    let mut i: usize = 0;
    while i < delta.len()
        invariant
            0 <= i <= delta.len(),
            delta.len() == old_alloc.len(),
            old_alloc == allocation(old_rank as int, old_edges@),
            allocatable(old_rank as int, old_edges@),
            allocation_fits(old_rank as int, old_edges@),
            forall|m: int| 0 <= m < i ==> #[trigger] ints(delta@)[m] == negated(old_alloc)[m],
            forall|m: int| i <= m < delta.len() ==> #[trigger] ints(delta@)[m] == old_alloc[m],
        decreases delta.len() - i,
    {
        let (d, v) = delta[i];
        proof {
            assert(ints(delta@)[i as int] == old_alloc[i as int]);
            lemma_amount_nonneg(old_rank as int, old_edges@, i as int);
        }
        let ghost before = delta@;
        delta.set(i, (d, -v));
        proof {
            assert forall|m: int| 0 <= m < delta.len() && m != i implies #[trigger] ints(delta@)[m] == ints(before)[m] by {
            }
        }
        i += 1;
    }
    assert(ints(delta@) =~= negated(old_alloc));
    allocate(new_rank, new_edges, &mut delta);
    proof {
        assert forall|d: usize| i64::MIN <= #[trigger] key_sum(delta@, d) <= i64::MAX by {
            lemma_sum_concat(negated(old_alloc), allocation(new_rank as int, new_edges@), d);
            lemma_sum_negated(old_alloc, d);
            lemma_sent_to_bounds(old_rank as int, old_edges@, d);
            lemma_sent_to_bounds(new_rank as int, new_edges@, d);
        }
    }
    let ghost full = delta@;
    compact(&mut delta);
    proof {
        lemma_net_delta(full, delta@, old_rank as int, old_edges@, new_rank as int, new_edges@);
    }
    delta
}

/// Rank mass of a node that no change has touched yet.
pub const INITIAL_RANK: i64 = 1000;

/// What the engine holds: per node, its out-edges and its rank mass. Nodes
/// past the end have not been touched yet.
pub struct EngineView {
    pub edges: Seq<Seq<(usize, i64)>>,
    pub ranks: Seq<i64>,
}

impl EngineView {
    /// Out-edges of `n`; none for a node not touched yet.
    pub open spec fn edges_of(self, n: usize) -> Seq<(usize, i64)> {
        if n < self.edges.len() {
            self.edges[n as int]
        } else {
            Seq::empty()
        }
    }

    /// Rank mass of `n`; the initial rank for a node not touched yet.
    pub open spec fn rank_of(self, n: usize) -> int {
        if n < self.ranks.len() {
            self.ranks[n as int] as int
        } else {
            INITIAL_RANK as int
        }
    }

    /// As many edge lists as ranks, and every edge list valid.
    pub open spec fn wf(self) -> bool {
        &&& self.edges.len() == self.ranks.len()
        &&& forall|n: int| 0 <= n < self.edges.len() ==> #[trigger] valid_edges(self.edges[n])
    }

    /// Out-edges of `src` after `diff` is added to the weight of the edge
    /// to `dst`.
    pub open spec fn edges_after(self, src: usize, dst: usize, diff: i64) -> Seq<(usize, i64)> {
        canonical(self.edges_of(src).push((dst, diff)))
    }
}

/// What an edge change needs: the new weight fits, and the allocator's
/// requirement holds before and after.
pub open spec fn edge_delta_ok(v: EngineView, src: usize, dst: usize, diff: i64) -> bool {
    &&& sums_fit(v.edges_of(src).push((dst, diff)))
    &&& allocatable(v.rank_of(src), v.edges_of(src))
    &&& allocation_fits(v.rank_of(src), v.edges_of(src))
    &&& allocatable(v.rank_of(src), v.edges_after(src, dst, diff))
    &&& allocation_fits(v.rank_of(src), v.edges_after(src, dst, diff))
}

/// The effect of an edge change: only `src`'s edges change, and `out` is
/// the canonical difference between its new allocation and its old one.
pub open spec fn edge_delta_applied(
    v: EngineView,
    w: EngineView,
    src: usize,
    dst: usize,
    diff: i64,
    out: Seq<(usize, i64)>,
) -> bool {
    &&& w.wf()
    &&& w.edges_of(src) == v.edges_after(src, dst, diff)
    &&& forall|n: usize| n != src ==> #[trigger] w.edges_of(n) == v.edges_of(n)
    &&& forall|n: usize| #[trigger] w.rank_of(n) == v.rank_of(n)
    &&& is_compacted(out)
    &&& is_net_change(
        out,
        v.rank_of(src),
        v.edges_of(src),
        v.rank_of(src),
        v.edges_after(src, dst, diff),
    )
}

/// What a rank change needs: the new rank fits, and the allocator's
/// requirement holds before and after.
pub open spec fn rank_delta_ok(v: EngineView, node: usize, diff: i64) -> bool {
    &&& i64::MIN <= v.rank_of(node) + diff <= i64::MAX
    &&& allocatable(v.rank_of(node), v.edges_of(node))
    &&& allocation_fits(v.rank_of(node), v.edges_of(node))
    &&& allocatable(v.rank_of(node) + diff, v.edges_of(node))
    &&& allocation_fits(v.rank_of(node) + diff, v.edges_of(node))
}

/// The effect of a rank change: only `node`'s rank changes, and `out` is
/// the canonical difference between its new allocation and its old one.
pub open spec fn rank_delta_applied(
    v: EngineView,
    w: EngineView,
    node: usize,
    diff: i64,
    out: Seq<(usize, i64)>,
) -> bool {
    &&& w.wf()
    &&& w.rank_of(node) == v.rank_of(node) + diff
    &&& forall|n: usize| n != node ==> #[trigger] w.rank_of(n) == v.rank_of(n)
    &&& forall|n: usize| #[trigger] w.edges_of(n) == v.edges_of(n)
    &&& is_compacted(out)
    &&& is_net_change(
        out,
        v.rank_of(node),
        v.edges_of(node),
        v.rank_of(node) + diff,
        v.edges_of(node),
    )
}

/// A valid edge list carries a weight between zero and `i64::MAX` for every
/// destination.
proof fn lemma_valid_weight(edges: Seq<(usize, i64)>, d: usize)
    requires
        valid_edges(edges),
    ensures
        0 <= key_sum(edges, d) <= i64::MAX,
{
    let ie = ints(edges);
    lemma_sorted_sum(ie, d);
    if exists|j: int| 0 <= j < edges.len() && ie[j].0 == d {
        let j = choose|j: int| 0 <= j < edges.len() && ie[j].0 == d;
        assert(ie[j].1 == edges[j].1);
    }
}

/// Weight of the edge to `dst` in a valid edge list; zero where there is none.
fn weight_to(edges: &Vec<(usize, i64)>, dst: usize) -> (w: i64)
    requires
        valid_edges(edges@),
    ensures
        w == key_sum(edges@, dst),
{
    let ghost ie = ints(edges@);
    let mut i: usize = 0;
    while i < edges.len()
        invariant
            0 <= i <= edges.len(),
            ie == ints(edges@),
            valid_edges(edges@),
            forall|m: int| 0 <= m < i ==> #[trigger] edges@[m].0 != dst,
        decreases edges.len() - i,
    {
        if edges[i].0 == dst {
            assert(ie[i as int] == (dst, edges@[i as int].1 as int));
            proof {
                lemma_sorted_sum(ie, dst);
            }
            return edges[i].1;
        }
        i += 1;
    }
    assert forall|m: int| 0 <= m < edges.len() implies ie[m].0 != dst by {
        assert(ie[m].0 == edges@[m].0);
    }
    proof {
        lemma_sorted_sum(ie, dst);
    }
    0
}

proof fn lemma_zero_net_change_empty(out: Seq<(usize, i64)>)
    requires
        is_compacted(out),
        forall|d: usize| #[trigger] key_sum(out, d) == 0,
    ensures
        out.len() == 0,
{
    let e = Seq::<(usize, i64)>::empty();
    assert forall|d: usize| #[trigger] key_sum(out, d) == key_sum(e, d) by {
        assert(ints(e) =~= Seq::<(usize, int)>::empty());
    }
    assert(is_compacted(e));
    lemma_canonical_unique(out, e);
}

/// A rank change of zero emits nothing.
pub proof fn lemma_zero_rank_delta_silent(
    v: EngineView,
    w: EngineView,
    node: usize,
    out: Seq<(usize, i64)>,
)
    requires
        rank_delta_applied(v, w, node, 0, out),
    ensures
        out.len() == 0,
        w.rank_of(node) == v.rank_of(node),
{
    assert forall|d: usize| #[trigger] key_sum(out, d) == 0 by {}
    lemma_zero_net_change_empty(out);
}

/// An edge change of weight zero leaves the edges as they were and emits
/// nothing.
pub proof fn lemma_zero_edge_delta_silent(
    v: EngineView,
    w: EngineView,
    src: usize,
    dst: usize,
    out: Seq<(usize, i64)>,
)
    requires
        v.wf(),
        edge_delta_applied(v, w, src, dst, 0, out),
    ensures
        out.len() == 0,
        w.edges_of(src) == v.edges_of(src),
{
    let old_edges = v.edges_of(src);
    let pushed = old_edges.push((dst, 0i64));
    if src < v.edges.len() {
        assert(valid_edges(v.edges[src as int]));
    } else {
        assert(ints(old_edges) =~= Seq::<(usize, int)>::empty());
    }
    assert(ints(pushed).drop_last() =~= ints(old_edges));
    assert forall|k: usize| #[trigger] key_sum(old_edges, k) == key_sum(pushed, k) by {
        assert(ints(pushed).last() == (dst, 0int));
    }
    lemma_canonical_is(pushed, old_edges);
    assert forall|d: usize| #[trigger] key_sum(out, d) == 0 by {}
    lemma_zero_net_change_empty(out);
}

/// Why a batch stopped.
#[derive(Clone, Copy, Debug, PartialEq, Eq, Structural)]
pub enum BatchError {
    /// Some key's total in the batch does not fit an `i64`.
    Overflow,
    /// The record at this position of the compacted batch breaks the
    /// allocator's requirement, or drives a value out of `i64`.
    Inadmissible(usize),
}

/// One edge record applied: `v` becomes `w`, emitting `out`.
pub open spec fn edge_step(v: EngineView, w: EngineView, rec: (EdgeKey, i64), out: Seq<(usize, i64)>) -> bool {
    edge_delta_applied(v, w, rec.0.src, rec.0.dst, rec.1, out)
}

/// One rank record applied: `v` becomes `w`, emitting `out`.
pub open spec fn rank_step(v: EngineView, w: EngineView, rec: (usize, i64), out: Seq<(usize, i64)>) -> bool {
    rank_delta_applied(v, w, rec.0, rec.1, out)
}

/// The outputs of a run of steps, one after another.
pub open spec fn concat_all(outs: Seq<Seq<(usize, i64)>>) -> Seq<(usize, i64)>
    decreases outs.len(),
{
    if outs.len() == 0 {
        Seq::empty()
    } else {
        concat_all(outs.drop_last()) + outs.last()
    }
}

/// `states` and `outs` trace applying the edge records `recs` in order:
/// step `i` takes `states[i]` to `states[i + 1]` and emits `outs[i]`.
pub open spec fn edges_trace(
    recs: Seq<(EdgeKey, i64)>,
    states: Seq<EngineView>,
    outs: Seq<Seq<(usize, i64)>>,
) -> bool {
    &&& states.len() == recs.len() + 1
    &&& outs.len() == recs.len()
    &&& forall|i: int|
        0 <= i < recs.len() ==> #[trigger] edge_step(states[i], states[i + 1], recs[i], outs[i])
}

/// Rank record counterpart of `edges_trace`.
pub open spec fn ranks_trace(
    recs: Seq<(usize, i64)>,
    states: Seq<EngineView>,
    outs: Seq<Seq<(usize, i64)>>,
) -> bool {
    &&& states.len() == recs.len() + 1
    &&& outs.len() == recs.len()
    &&& forall|i: int|
        0 <= i < recs.len() ==> #[trigger] rank_step(states[i], states[i + 1], recs[i], outs[i])
}

/// Applying the edge records `recs` in order takes the engine from `v` to
/// `w` and emits `out`, the records of each step in turn.
pub open spec fn edges_run(
    v: EngineView,
    recs: Seq<(EdgeKey, i64)>,
    w: EngineView,
    out: Seq<(usize, i64)>,
) -> bool {
    exists|states: Seq<EngineView>, outs: Seq<Seq<(usize, i64)>>|
        #[trigger] edges_trace(recs, states, outs) && states[0] == v && states.last() == w && out
            == concat_all(outs)
}

/// Applying the edge records `recs` in order takes the engine from `v` to
/// `w`, whatever it emits.
pub open spec fn edges_reach(v: EngineView, recs: Seq<(EdgeKey, i64)>, w: EngineView) -> bool {
    exists|states: Seq<EngineView>, outs: Seq<Seq<(usize, i64)>>|
        #[trigger] edges_trace(recs, states, outs) && states[0] == v && states.last() == w
}

/// Applying the rank records `recs` in order takes the engine from `v` to
/// `w`, whatever it emits.
pub open spec fn ranks_reach(v: EngineView, recs: Seq<(usize, i64)>, w: EngineView) -> bool {
    exists|states: Seq<EngineView>, outs: Seq<Seq<(usize, i64)>>|
        #[trigger] ranks_trace(recs, states, outs) && states[0] == v && states.last() == w
}

/// Rank record counterpart of `edges_run`.
pub open spec fn ranks_run(
    v: EngineView,
    recs: Seq<(usize, i64)>,
    w: EngineView,
    out: Seq<(usize, i64)>,
) -> bool {
    exists|states: Seq<EngineView>, outs: Seq<Seq<(usize, i64)>>|
        #[trigger] ranks_trace(recs, states, outs) && states[0] == v && states.last() == w && out
            == concat_all(outs)
}

/// Adjacency and rank state of one engine instance.
pub struct Engine {
    edges: Vec<Vec<(usize, i64)>>,
    ranks: Vec<i64>,
}

impl View for Engine {
    type V = EngineView;

    closed spec fn view(&self) -> EngineView {
        EngineView {
            edges: self.edges@.map_values(|v: Vec<(usize, i64)>| v@),
            ranks: self.ranks@,
        }
    }
}

fn copy_edges(v: &Vec<(usize, i64)>) -> (r: Vec<(usize, i64)>)
    ensures
        r@ == v@,
{
    let mut r: Vec<(usize, i64)> = Vec::new();
    let mut i: usize = 0;
    while i < v.len()
        invariant
            0 <= i <= v.len(),
            r@ == v@.take(i as int),
        decreases v.len() - i,
    {
        r.push(v[i]);
        i += 1;
        assert(r@ =~= v@.take(i as int));
    }
    assert(v@.take(v.len() as int) =~= v@);
    r
}

impl Engine {
    /// An engine in which no node has been touched.
    pub fn new() -> (e: Engine)
        ensures
            e@.wf(),
            e@.edges.len() == 0,
            forall|n: usize| #[trigger] e@.edges_of(n) == Seq::<(usize, i64)>::empty(),
            forall|n: usize| #[trigger] e@.rank_of(n) == INITIAL_RANK,
    {
        let e = Engine { edges: Vec::new(), ranks: Vec::new() };
        assert(e@.edges =~= Seq::<Seq<(usize, i64)>>::empty());
        e
    }

    /// Rank mass of `node`.
    pub fn rank(&self, node: usize) -> (r: i64)
        requires
            self@.wf(),
        ensures
            r == self@.rank_of(node),
    {
        if node < self.ranks.len() {
            self.ranks[node]
        } else {
            INITIAL_RANK
        }
    }

    /// Out-edges of `node`, ascending by destination.
    pub fn out_edges(&self, node: usize) -> (r: Vec<(usize, i64)>)
        requires
            self@.wf(),
        ensures
            r@ == self@.edges_of(node),
    {
        if node < self.edges.len() {
            copy_edges(&self.edges[node])
        } else {
            Vec::new()
        }
    }

    /// Gives `node` explicit state, extending both maps with empty edge
    /// lists and the initial rank. What the view says of every node stays.
    fn ensure_node(&mut self, node: usize)
        requires
            old(self)@.wf(),
        ensures
            final(self)@.wf(),
            node < final(self)@.edges.len(),
            forall|n: usize| #[trigger] final(self)@.edges_of(n) == old(self)@.edges_of(n),
            forall|n: usize| #[trigger] final(self)@.rank_of(n) == old(self)@.rank_of(n),
    {
        while self.edges.len() <= node
            invariant
                self@.wf(),
                forall|n: usize| #[trigger] self@.edges_of(n) == old(self)@.edges_of(n),
                forall|n: usize| #[trigger] self@.rank_of(n) == old(self)@.rank_of(n),
            decreases node + 1 - self.edges.len(),
        {
            let ghost before = self@;
            self.edges.push(Vec::new());
            self.ranks.push(INITIAL_RANK);
            proof {
                assert(self@.edges =~= before.edges.push(Seq::empty()));
                assert(self@.ranks =~= before.ranks.push(INITIAL_RANK));
                assert(valid_edges(Seq::<(usize, i64)>::empty()));
                assert forall|n: usize| #[trigger] self@.edges_of(n) == before.edges_of(n) by {
                    if n < before.edges.len() {
                        assert(self@.edges[n as int] == before.edges[n as int]);
                    }
                }
                assert forall|n: usize| #[trigger] self@.rank_of(n) == before.rank_of(n) by {
                    if n < before.ranks.len() {
                        assert(self@.ranks[n as int] == before.ranks[n as int]);
                    }
                }
            }
        }
    }

    /// Adds `diff` to the weight of the edge `src -> dst` and returns the
    /// rank changes that `src` now sends: for each destination, new amount
    /// minus old, zeros left out, ascending by destination.
    pub fn apply_edge_delta(&mut self, src: usize, dst: usize, diff: i64) -> (out: Vec<(usize, i64)>)
        requires
            old(self)@.wf(),
            edge_delta_ok(old(self)@, src, dst, diff),
        ensures
            edge_delta_applied(old(self)@, final(self)@, src, dst, diff, out@),
    {
        let ghost start = self@;
        self.ensure_node(src);
        let rank = self.ranks[src];
        let old_list = copy_edges(&self.edges[src]);
        let mut list = copy_edges(&self.edges[src]);
        proof {
            assert(self@.edges[src as int] == self.edges@[src as int]@);
            assert(self@.edges_of(src) == start.edges_of(src));
            assert(self@.rank_of(src) == start.rank_of(src));
            assert(rank as int == start.rank_of(src));
            assert(valid_edges(self@.edges[src as int]));
        }
        list.push((dst, diff));
        compact(&mut list);
        proof {
            lemma_canonical_is(start.edges_of(src).push((dst, diff)), list@);
            assert(valid_edges(list@));
        }
        let out = net_change(rank, old_list.as_slice(), rank, list.as_slice());
        let ghost mid = self@;
        self.edges.set(src, list);
        proof {
            assert(self@.edges =~= mid.edges.update(src as int, list@));
            assert(self@.ranks == mid.ranks);
            assert forall|n: usize| n != src implies #[trigger] self@.edges_of(n) == mid.edges_of(n) by {
                if n < mid.edges.len() {
                    assert(self@.edges[n as int] == mid.edges[n as int]);
                }
            }
            assert(self@.edges_of(src) == list@);
            assert forall|n: usize| #[trigger] self@.rank_of(n) == start.rank_of(n) by {
                assert(mid.rank_of(n) == start.rank_of(n));
            }
        }
        out
    }

    /// Adds `diff` to the rank mass of `node` and returns the rank changes
    /// that `node` now sends: for each destination, new amount minus old,
    /// zeros left out, ascending by destination.
    pub fn apply_rank_delta(&mut self, node: usize, diff: i64) -> (out: Vec<(usize, i64)>)
        requires
            old(self)@.wf(),
            rank_delta_ok(old(self)@, node, diff),
        ensures
            rank_delta_applied(old(self)@, final(self)@, node, diff, out@),
    {
        let ghost start = self@;
        self.ensure_node(node);
        let rank = self.ranks[node];
        proof {
            assert(self@.edges[node as int] == self.edges@[node as int]@);
            assert(self@.edges_of(node) == start.edges_of(node));
            assert(self@.rank_of(node) == start.rank_of(node));
            assert(rank as int == start.rank_of(node));
            assert(valid_edges(self@.edges[node as int]));
        }
        let new_rank = rank + diff;
        let list = copy_edges(&self.edges[node]);
        let out = net_change(rank, list.as_slice(), new_rank, list.as_slice());
        let ghost mid = self@;
        self.ranks.set(node, new_rank);
        proof {
            assert(self@.ranks =~= mid.ranks.update(node as int, new_rank));
            assert(self@.edges == mid.edges);
            assert forall|n: usize| n != node implies #[trigger] self@.rank_of(n) == mid.rank_of(n) by {
                if n < mid.ranks.len() {
                    assert(self@.ranks[n as int] == mid.ranks[n as int]);
                }
            }
            assert forall|n: usize| #[trigger] self@.edges_of(n) == start.edges_of(n) by {
                assert(mid.edges_of(n) == start.edges_of(n));
            }
        }
        out
    }

    /// Applies an edge change where it is admissible. Returns `None`, and
    /// leaves the engine as it was, where the change would drive the
    /// allocator out of its requirement (a negative rank or a negative
    /// weight) or a value out of `i64`.
    pub fn try_apply_edge_delta(&mut self, src: usize, dst: usize, diff: i64) -> (r: Option<
        Vec<(usize, i64)>,
    >)
        requires
            old(self)@.wf(),
        ensures
            r.is_none() <==> !edge_delta_ok(old(self)@, src, dst, diff),
            r.is_none() ==> final(self)@ == old(self)@,
            r matches Some(out) ==> edge_delta_applied(old(self)@, final(self)@, src, dst, diff, out@),
    {
        let ghost v = self@;
        let old_list = self.out_edges(src);
        let rank = self.rank(src);
        proof {
            if src < v.edges.len() {
                assert(valid_edges(v.edges[src as int]));
            }
        }
        let w = weight_to(&old_list, dst);
        let total: i128 = w as i128 + diff as i128;
        let ghost pushed = old_list@.push((dst, diff));
        proof {
            assert(ints(pushed).drop_last() =~= ints(old_list@));
            assert(ints(pushed).last() == (dst, diff as int));
            assert forall|k: usize| #[trigger]
                key_sum(pushed, k) == key_sum(old_list@, k) + (if k == dst {
                    diff as int
                } else {
                    0
                }) by {}
        }
        if total < i64::MIN as i128 || total > i64::MAX as i128 {
            assert(!sums_fit(pushed)) by {
                assert(key_sum(pushed, dst) == total);
            }
            return None;
        }
        proof {
            assert forall|k: usize| i64::MIN <= #[trigger] key_sum(pushed, k) <= i64::MAX by {
                lemma_valid_weight(old_list@, k);
            }
        }
        let mut list = copy_edges(&old_list);
        list.push((dst, diff));
        assert(list@ == pushed);
        compact(&mut list);
        proof {
            lemma_canonical_is(pushed, list@);
        }
        if !allocation_ok(rank, old_list.as_slice()) || !allocation_ok(rank, list.as_slice()) {
            return None;
        }
        Some(self.apply_edge_delta(src, dst, diff))
    }

    /// Applies a rank change where it is admissible. Returns `None`, and
    /// leaves the engine as it was, where the change would drive the
    /// allocator out of its requirement (a negative rank) or a value out of
    /// `i64`.
    pub fn try_apply_rank_delta(&mut self, node: usize, diff: i64) -> (r: Option<Vec<(usize, i64)>>)
        requires
            old(self)@.wf(),
        ensures
            r.is_none() <==> !rank_delta_ok(old(self)@, node, diff),
            r.is_none() ==> final(self)@ == old(self)@,
            r matches Some(out) ==> rank_delta_applied(old(self)@, final(self)@, node, diff, out@),
    {
        let list = self.out_edges(node);
        let rank = self.rank(node);
        let total: i128 = rank as i128 + diff as i128;
        if total < i64::MIN as i128 || total > i64::MAX as i128 {
            return None;
        }
        let new_rank = total as i64;
        if !allocation_ok(rank, list.as_slice()) || !allocation_ok(new_rank, list.as_slice()) {
            return None;
        }
        Some(self.apply_rank_delta(node, diff))
    }

    /// Processes one released batch of edge changes: compacts it, then
    /// applies its records in key order, each seeing the effects of those
    /// before it, and returns everything they emit in that order.
    pub fn process_edge_batch(&mut self, batch: &mut Vec<(EdgeKey, i64)>) -> (r: Result<
        Vec<(usize, i64)>,
        BatchError,
    >)
        requires
            old(self)@.wf(),
        ensures
            final(self)@.wf(),
            r == Err::<Vec<(usize, i64)>, BatchError>(BatchError::Overflow) <==> !sums_fit(old(batch)@),
            sums_fit(old(batch)@) ==> compacts_to(old(batch)@, final(batch)@),
            r matches Ok(out) ==> edges_run(old(self)@, final(batch)@, final(self)@, out@),
            r matches Err(BatchError::Inadmissible(i)) ==> {
                &&& i < final(batch)@.len()
                &&& edges_reach(old(self)@, final(batch)@.take(i as int), final(self)@)
                &&& !edge_delta_ok(
                    final(self)@,
                    final(batch)@[i as int].0.src,
                    final(batch)@[i as int].0.dst,
                    final(batch)@[i as int].1,
                )
            },
    {
        let ghost v = self@;
        let ghost orig = batch@;
        if !try_compact(batch) {
            return Err(BatchError::Overflow);
        }
        let mut out: Vec<(usize, i64)> = Vec::new();
        let mut i: usize = 0;
        let ghost mut states: Seq<EngineView> = seq![self@];
        let ghost mut outs: Seq<Seq<(usize, i64)>> = Seq::empty();
        assert(out@ =~= concat_all(outs));
        while i < batch.len()
            invariant
                0 <= i <= batch.len(),
                self@.wf(),
                orig == old(batch)@,
                v == old(self)@,
                sums_fit(orig),
                compacts_to(orig, batch@),
                edges_trace(batch@.take(i as int), states, outs),
                states[0] == v,
                states.last() == self@,
                out@ == concat_all(outs),
            decreases batch.len() - i,
        {
            let (key, diff) = batch[i];
            let ghost mid = self@;
            let ghost before = out@;
            match self.try_apply_edge_delta(key.src, key.dst, diff) {
                None => {
                    assert(edges_trace(batch@.take(i as int), states, outs));
                    assert(edges_reach(v, batch@.take(i as int), self@));
                    assert(!edge_delta_ok(self@, batch@[i as int].0.src, batch@[i as int].0.dst, batch@[i as int].1));
                    return Err(BatchError::Inadmissible(i));
                },
                Some(step) => {
                    let ghost step_view = step@;
                    let mut step = step;
                    out.append(&mut step);
                    proof {
                        assert(out@ == before + step_view);
                        let old_states = states;
                        let old_outs = outs;
                        states = states.push(self@);
                        outs = outs.push(step_view);
                        assert(outs.drop_last() =~= old_outs);
                        assert(concat_all(outs) == concat_all(old_outs) + step_view);
                        assert forall|j: int| 0 <= j < i + 1 implies #[trigger] edge_step(
                            states[j],
                            states[j + 1],
                            batch@.take(i + 1)[j],
                            outs[j],
                        ) by {
                            if j < i {
                                assert(edge_step(
                                    old_states[j],
                                    old_states[j + 1],
                                    batch@.take(i as int)[j],
                                    old_outs[j],
                                ));
                            }
                        }
                    }
                },
            }
            i += 1;
        }
        assert(batch@.take(batch.len() as int) =~= batch@);
        Ok(out)
    }

    /// Processes one released batch of rank changes as
    /// `process_edge_batch` does, and summarizes the compacted batch.
    pub fn process_rank_batch(&mut self, batch: &mut Vec<(usize, i64)>) -> (r: Result<
        (Vec<(usize, i64)>, BatchSummary),
        BatchError,
    >)
        requires
            old(self)@.wf(),
        ensures
            final(self)@.wf(),
            r == Err::<(Vec<(usize, i64)>, BatchSummary), BatchError>(BatchError::Overflow)
                <==> !sums_fit(old(batch)@),
            sums_fit(old(batch)@) ==> compacts_to(old(batch)@, final(batch)@),
            r matches Ok(res) ==> {
                &&& ranks_run(old(self)@, final(batch)@, final(self)@, res.0@)
                &&& res.1.count == final(batch)@.len()
                &&& res.1.abs_sum == crate::summary::abs_total(final(batch)@)
                &&& res.1.max_abs == crate::summary::max_abs(final(batch)@)
            },
            r matches Err(BatchError::Inadmissible(i)) ==> {
                &&& i < final(batch)@.len()
                &&& ranks_reach(old(self)@, final(batch)@.take(i as int), final(self)@)
                &&& !rank_delta_ok(final(self)@, final(batch)@[i as int].0, final(batch)@[i as int].1)
            },
    {
        let ghost v = self@;
        let ghost orig = batch@;
        if !try_compact(batch) {
            return Err(BatchError::Overflow);
        }
        let summary = summarize(batch);
        let mut out: Vec<(usize, i64)> = Vec::new();
        let mut i: usize = 0;
        let ghost mut states: Seq<EngineView> = seq![self@];
        let ghost mut outs: Seq<Seq<(usize, i64)>> = Seq::empty();
        assert(out@ =~= concat_all(outs));
        while i < batch.len()
            invariant
                0 <= i <= batch.len(),
                self@.wf(),
                orig == old(batch)@,
                v == old(self)@,
                sums_fit(orig),
                compacts_to(orig, batch@),
                ranks_trace(batch@.take(i as int), states, outs),
                states[0] == v,
                states.last() == self@,
                out@ == concat_all(outs),
            decreases batch.len() - i,
        {
            let (node, diff) = batch[i];
            let ghost mid = self@;
            let ghost before = out@;
            match self.try_apply_rank_delta(node, diff) {
                None => {
                    assert(ranks_trace(batch@.take(i as int), states, outs));
                    assert(ranks_reach(v, batch@.take(i as int), self@));
                    assert(!rank_delta_ok(self@, batch@[i as int].0, batch@[i as int].1));
                    return Err(BatchError::Inadmissible(i));
                },
                Some(step) => {
                    let ghost step_view = step@;
                    let mut step = step;
                    out.append(&mut step);
                    proof {
                        assert(out@ == before + step_view);
                        let old_states = states;
                        let old_outs = outs;
                        states = states.push(self@);
                        outs = outs.push(step_view);
                        assert(outs.drop_last() =~= old_outs);
                        assert(concat_all(outs) == concat_all(old_outs) + step_view);
                        assert forall|j: int| 0 <= j < i + 1 implies #[trigger] rank_step(
                            states[j],
                            states[j + 1],
                            batch@.take(i + 1)[j],
                            outs[j],
                        ) by {
                            if j < i {
                                assert(rank_step(
                                    old_states[j],
                                    old_states[j + 1],
                                    batch@.take(i as int)[j],
                                    old_outs[j],
                                ));
                            }
                        }
                    }
                },
            }
            i += 1;
        }
        assert(batch@.take(batch.len() as int) =~= batch@);
        Ok((out, summary))
    }
}

} // verus!
