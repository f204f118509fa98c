use crate::pool::{
    direction_weight, edge_weight, swap_out, swap_output, AssetId, Pool, PoolId, WEIGHT_BOUND,
};
use crate::registry::PoolRegistry;
use vstd::prelude::*;

verus! {

/// One direction of trading through a pool: selling `from` for `to`.
#[derive(Clone, Copy, Debug, PartialEq, Eq, Structural)]
pub struct Edge {
    pub pool_id: PoolId,
    pub from: AssetId,
    pub to: AssetId,
    /// Fixed-point `-ln` of the marginal rate after fee.
    pub weight: i64,
}

/// The edge that sells asset A of `p` for asset B.
pub open spec fn forward_edge(p: Pool) -> Edge {
    Edge {
        pool_id: p.id,
        from: p.asset_a,
        to: p.asset_b,
        weight: direction_weight(p.reserve_a as int, p.reserve_b as int, p.fee_bps as int) as i64,
    }
}

/// The edge that sells asset B of `p` for asset A.
pub open spec fn reverse_edge(p: Pool) -> Edge {
    Edge {
        pool_id: p.id,
        from: p.asset_b,
        to: p.asset_a,
        weight: direction_weight(p.reserve_b as int, p.reserve_a as int, p.fee_bps as int) as i64,
    }
}

/// The edges of one pool: its forward edge and then its reverse edge, or none where the
/// pool is drained.
pub open spec fn pool_edge_seq(p: Pool) -> Seq<Edge> {
    if p.drained() {
        Seq::empty()
    } else {
        seq![forward_edge(p), reverse_edge(p)]
    }
}

/// The directed edges of a sequence of pools: the edges of each pool in turn.
pub open spec fn snapshot_edges(pools: Seq<Pool>) -> Seq<Edge>
    decreases pools.len(),
{
    if pools.len() == 0 {
        Seq::empty()
    } else {
        snapshot_edges(pools.drop_last()) + pool_edge_seq(pools.last())
    }
}

/// A well-formed edge joins two distinct assets and has a bounded weight.
pub open spec fn edge_wf(e: Edge) -> bool {
    &&& e.from != e.to
    &&& -WEIGHT_BOUND <= e.weight <= WEIGHT_BOUND
}

/// A point-in-time directed weighted graph over assets. The order of `edges` is the
/// order in which a search walks the outgoing edges of a node.
pub struct GraphSnapshot {
    pub edges: Vec<Edge>,
}

impl GraphSnapshot {
    pub open spec fn wf(&self) -> bool {
        forall|k: int| 0 <= k < self.edges@.len() ==> edge_wf(#[trigger] self.edges@[k])
    }
}

/// A pending swap: `amount_in` sold into pool `pool_id`, from its asset A when
/// `a_to_b` holds and from its asset B otherwise.
#[derive(Clone, Copy, Debug, PartialEq, Eq, Structural)]
pub struct Swap {
    pub pool_id: PoolId,
    pub a_to_b: bool,
    pub amount_in: u64,
}

/// The declared effect of one pending transaction: its swaps, in execution order.
pub struct PendingTx {
    pub swaps: Vec<Swap>,
}

/// The input reserve after receiving `amount_in`, held at the largest representable value.
pub open spec fn grown(r: u64, amount_in: u64) -> u64 {
    if r as int + amount_in as int > u64::MAX as int {
        u64::MAX
    } else {
        (r + amount_in) as u64
    }
}

/// State of `p` after `s`, where `s` trades through `p`; a drained pool stays as it is.
pub open spec fn swapped(p: Pool, s: Swap) -> Pool {
    if p.drained() {
        p
    } else if s.a_to_b {
        Pool {
            reserve_a: grown(p.reserve_a, s.amount_in),
            reserve_b: (p.reserve_b - swap_out(
                s.amount_in as int,
                p.reserve_a as int,
                p.reserve_b as int,
                p.fee_bps as int,
            )) as u64,
            ..p
        }
    } else {
        Pool {
            reserve_b: grown(p.reserve_b, s.amount_in),
            reserve_a: (p.reserve_a - swap_out(
                s.amount_in as int,
                p.reserve_b as int,
                p.reserve_a as int,
                p.fee_bps as int,
            )) as u64,
            ..p
        }
    }
}

/// Pool states after one swap: only the pool it trades through changes.
pub open spec fn apply_swap(pools: Seq<Pool>, s: Swap) -> Seq<Pool> {
    pools.map_values(|p: Pool| if p.id == s.pool_id { swapped(p, s) } else { p })
}

/// Pool states after the swaps of a pending transaction, applied in order.
pub open spec fn overlay_pools(pools: Seq<Pool>, swaps: Seq<Swap>) -> Seq<Pool>
    decreases swaps.len(),
{
    if swaps.len() == 0 {
        pools
    } else {
        apply_swap(overlay_pools(pools, swaps.drop_last()), swaps.last())
    }
}

/// Some swap of `swaps` trades through pool `id`.
pub open spec fn touches(swaps: Seq<Swap>, id: PoolId) -> bool {
    exists|j: int| 0 <= j < swaps.len() && swaps[j].pool_id == id
}

/// Every pool of the sequence is well formed.
pub open spec fn all_wf(pools: Seq<Pool>) -> bool {
    forall|k: int| 0 <= k < pools.len() ==> (#[trigger] pools[k]).wf()
}

/// The two edges of one well-formed pool.
fn pool_edges(p: &Pool) -> (r: (Edge, Edge))
    requires
        p.wf(),
    ensures
        r.0 == forward_edge(*p),
        r.1 == reverse_edge(*p),
        edge_wf(r.0),
        edge_wf(r.1),
{
    let wf = edge_weight(p.reserve_a, p.reserve_b, p.fee_bps);
    let wr = edge_weight(p.reserve_b, p.reserve_a, p.fee_bps);
    (
        Edge { pool_id: p.id, from: p.asset_a, to: p.asset_b, weight: wf },
        Edge { pool_id: p.id, from: p.asset_b, to: p.asset_a, weight: wr },
    )
}

/// A copy of a sequence of edges.
pub(crate) fn copy_edges(p: &Vec<Edge>) -> (r: Vec<Edge>)
    ensures
        r@ == p@,
{
    let mut out: Vec<Edge> = Vec::new();
    let mut i: usize = 0;
    while i < p.len()
        invariant
            0 <= i <= p@.len(),
            out@ == p@.subrange(0, i as int),
        decreases p@.len() - i,
    {
        out.push(p[i]);
        i = i + 1;
        assert(out@ =~= p@.subrange(0, i as int));
    }
    assert(out@ =~= p@);
    out
}

/// The snapshot of a sequence of well-formed pools.
fn project(pools: &Vec<Pool>) -> (g: GraphSnapshot)
    requires
        all_wf(pools@),
    ensures
        g.edges@ == snapshot_edges(pools@),
        g.wf(),
{
    let mut edges: Vec<Edge> = Vec::new();
    let mut i: usize = 0;
    while i < pools.len()
        invariant
            0 <= i <= pools@.len(),
            all_wf(pools@),
            edges@ == snapshot_edges(pools@.subrange(0, i as int)),
            forall|k: int| 0 <= k < edges@.len() ==> edge_wf(#[trigger] edges@[k]),
        decreases pools@.len() - i,
    {
        if pools[i].reserve_a != 0 && pools[i].reserve_b != 0 {
            let (f, r) = pool_edges(&pools[i]);
            edges.push(f);
            edges.push(r);
        }
        proof {
            let s = pools@.subrange(0, i + 1);
            assert(s.drop_last() =~= pools@.subrange(0, i as int));
        }
        i = i + 1;
    }
    assert(pools@.subrange(0, pools@.len() as int) =~= pools@);
    GraphSnapshot { edges }
}

/// The state of `p` after `s`, where `s` trades through `p`.
fn swap_pool(p: &Pool, s: &Swap) -> (r: Pool)
    requires
        p.wf(),
    ensures
        r == swapped(*p, *s),
        r.wf(),
{
    if p.reserve_a == 0 || p.reserve_b == 0 {
        *p
    } else if s.a_to_b {
        let out = swap_output(s.amount_in, p.reserve_a, p.reserve_b, p.fee_bps);
        Pool {
            reserve_a: p.reserve_a.saturating_add(s.amount_in),
            reserve_b: p.reserve_b - out,
            ..*p
        }
    } else {
        let out = swap_output(s.amount_in, p.reserve_b, p.reserve_a, p.fee_bps);
        Pool {
            reserve_b: p.reserve_b.saturating_add(s.amount_in),
            reserve_a: p.reserve_a - out,
            ..*p
        }
    }
}

impl PoolRegistry {
    /// Projects every stored pool into a snapshot: two edges per pool.
    pub fn build(&self) -> (g: GraphSnapshot)
        requires
            self.wf(),
        ensures
            g.edges@ == snapshot_edges(self.pools()),
            g.wf(),
    {
        let pools = self.get_all();
        project(&pools)
    }

    /// Projects the stored pools as they would stand after `tx`, without changing the
    /// registry. Swaps through pools that the registry does not hold change nothing.
    pub fn build_with_overlay(&self, tx: &PendingTx) -> (g: GraphSnapshot)
        requires
            self.wf(),
        ensures
            g.edges@ == snapshot_edges(overlay_pools(self.pools(), tx.swaps@)),
            g.wf(),
    {
        let mut pools = self.get_all();
        let mut j: usize = 0;
        while j < tx.swaps.len()
            invariant
                0 <= j <= tx.swaps@.len(),
                all_wf(pools@),
                pools@ == overlay_pools(self.pools(), tx.swaps@.subrange(0, j as int)),
            decreases tx.swaps@.len() - j,
        {
            let s = tx.swaps[j];
            let ghost before = pools@;
            let mut next: Vec<Pool> = Vec::new();
            let mut i: usize = 0;
            while i < pools.len()
                invariant
                    0 <= i <= pools@.len(),
                    pools@ == before,
                    all_wf(before),
                    all_wf(next@),
                    next@ == apply_swap(before, s).subrange(0, i as int),
                decreases pools@.len() - i,
            {
                if pools[i].id == s.pool_id {
                    next.push(swap_pool(&pools[i], &s));
                } else {
                    next.push(pools[i]);
                }
                i = i + 1;
                assert(next@ =~= apply_swap(before, s).subrange(0, i as int));
            }
            assert(next@ =~= apply_swap(before, s));
            pools = next;
            proof {
                assert(tx.swaps@.subrange(0, j + 1).drop_last() =~= tx.swaps@.subrange(0, j as int));
            }
            j = j + 1;
        }
        assert(tx.swaps@.subrange(0, tx.swaps@.len() as int) =~= tx.swaps@);
        project(&pools)
    }
}

proof fn lemma_overlay_untouched(pools: Seq<Pool>, swaps: Seq<Swap>)
    ensures
        overlay_pools(pools, swaps).len() == pools.len(),
        forall|k: int|
            0 <= k < pools.len() && !touches(swaps, #[trigger] pools[k].id) ==> overlay_pools(
                pools,
                swaps,
            )[k] == pools[k],
    decreases swaps.len(),
{
    if swaps.len() > 0 {
        let prefix = swaps.drop_last();
        lemma_overlay_untouched(pools, prefix);
        assert forall|k: int|
            0 <= k < pools.len() && !touches(swaps, #[trigger] pools[k].id) implies overlay_pools(
            pools,
            swaps,
        )[k] == pools[k] by {
            if touches(prefix, pools[k].id) {
                let j = choose|j: int| 0 <= j < prefix.len() && prefix[j].pool_id == pools[k].id;
                assert(swaps[j] == prefix[j]);
            }
            assert(swaps[swaps.len() - 1].pool_id != pools[k].id);
        };
    }
}

/// Projecting an unchanged registry twice gives the same edges, with the same weights,
/// in the same order.
pub proof fn lemma_build_idempotent(reg: PoolRegistry, first: GraphSnapshot, second: GraphSnapshot)
    requires
        first.edges@ == snapshot_edges(reg.pools()),
        second.edges@ == snapshot_edges(reg.pools()),
    ensures
        first.edges@ == second.edges@,
{
}

/// An overlay alters only the edges of the pools that the transaction trades through:
/// both snapshots list the edges of the same pools in the same order, and every pool
/// that no swap trades through keeps its state and so its edges. The registry is only
/// read.
pub proof fn lemma_overlay_is_local(reg: PoolRegistry, tx: PendingTx)
    ensures
        ({
            let pools = reg.pools();
            let over = overlay_pools(pools, tx.swaps@);
            &&& over.len() == pools.len()
            &&& forall|k: int|
                0 <= k < pools.len() && !touches(tx.swaps@, #[trigger] pools[k].id) ==> over[k]
                    == pools[k] && pool_edge_seq(over[k]) == pool_edge_seq(pools[k])
        }),
{
    lemma_overlay_untouched(reg.pools(), tx.swaps@);
}

} // verus!
