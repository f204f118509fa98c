use crate::graph::{
    copy_edges, edge_wf, overlay_pools, snapshot_edges, Edge, GraphSnapshot, PendingTx,
};
use crate::registry::PoolRegistry;
use crate::pool::{AssetId, PoolId, WEIGHT_BOUND};
use vstd::prelude::*;

verus! {

/// Default bound on the number of hops of a candidate path.
pub const DEFAULT_MAX_HOPS: usize = 12;

/// Summed weight of the edges of a path.
pub open spec fn path_weight(p: Seq<Edge>) -> int
    decreases p.len(),
{
    if p.len() == 0 {
        0
    } else {
        path_weight(p.drop_last()) + p.last().weight
    }
}

/// The asset at which a path that leaves `base` currently stands.
pub open spec fn current(p: Seq<Edge>, base: AssetId) -> AssetId {
    if p.len() == 0 {
        base
    } else {
        p.last().to
    }
}

/// Some edge of the path leaves asset `a`.
pub open spec fn visits(p: Seq<Edge>, a: AssetId) -> bool {
    exists|k: int| 0 <= k < p.len() && p[k].from == a
}

/// Some edge of the path trades through pool `id`.
pub open spec fn uses_pool(p: Seq<Edge>, id: PoolId) -> bool {
    exists|k: int| 0 <= k < p.len() && p[k].pool_id == id
}

/// The most negative edge weight of a graph, or zero where no weight is negative.
pub open spec fn weight_floor(g: Seq<Edge>) -> int
    decreases g.len(),
{
    if g.len() == 0 {
        0
    } else {
        let rest = weight_floor(g.drop_last());
        if (g.last().weight as int) < rest {
            g.last().weight as int
        } else {
            rest
        }
    }
}

/// A path of `len` hops whose weight is `w` cannot reach a negative total within
/// `max` hops when every further edge weighs at least `floor`.
pub open spec fn hopeless(w: int, len: int, max: int, floor: int) -> bool {
    w + (max - len) * floor >= 0
}

/// The cycles found by the depth-first search from the path `p`, walking edges of
/// `g` from index `i` on, in discovery order. An edge is taken where it leaves the
/// current asset through a pool not yet on the path. A step back to `base` closes a
/// cycle, which is kept where it has at least two hops and a negative weight. Any
/// other step goes deeper only to an asset not yet left, below `max` hops, and while
/// a negative total can still be reached.
pub open spec fn scan(g: Seq<Edge>, base: AssetId, max: nat, floor: int, p: Seq<Edge>, i: int) -> Seq<
    Seq<Edge>,
>
    decreases max - p.len(), g.len() - i,
{
    if i < 0 || i >= g.len() || p.len() > max {
        Seq::empty()
    } else {
        let e = g[i];
        let rest = scan(g, base, max, floor, p, i + 1);
        if e.from != current(p, base) || p.len() >= max || uses_pool(p, e.pool_id) {
            rest
        } else {
            let q = p.push(e);
            let w = path_weight(q);
            if e.to == base {
                if q.len() >= 2 && w < 0 {
                    seq![q] + rest
                } else {
                    rest
                }
            } else if visits(p, e.to) || q.len() >= max || hopeless(w, q.len() as int, max as int, floor) {
                rest
            } else {
                scan(g, base, max, floor, q, 0) + rest
            }
        }
    }
}

/// Every cycle that the search of `g` from `base` finds within `max_hops`, in order.
pub open spec fn cycles(g: Seq<Edge>, base: AssetId, max_hops: nat) -> Seq<Seq<Edge>> {
    scan(g, base, max_hops, weight_floor(g), Seq::empty(), 0)
}

/// The contents of each path of a list.
pub open spec fn views(v: Seq<Vec<Edge>>) -> Seq<Seq<Edge>> {
    v.map_values(|x: Vec<Edge>| x@)
}

fn weight_floor_of(g: &Vec<Edge>) -> (r: i64)
    requires
        forall|k: int| 0 <= k < g@.len() ==> edge_wf(#[trigger] g@[k]),
    ensures
        r == weight_floor(g@),
        -WEIGHT_BOUND <= r <= 0,
{
    let mut m: i64 = 0;
    let mut i: usize = 0;
    while i < g.len()
        invariant
            0 <= i <= g@.len(),
            forall|k: int| 0 <= k < g@.len() ==> edge_wf(#[trigger] g@[k]),
            m == weight_floor(g@.subrange(0, i as int)),
            -WEIGHT_BOUND <= m <= 0,
        decreases g@.len() - i,
    {
        proof {
            assert(g@.subrange(0, i + 1).drop_last() =~= g@.subrange(0, i as int));
            assert(edge_wf(g@[i as int]));
        }
        if g[i].weight < m {
            m = g[i].weight;
        }
        i = i + 1;
    }
    assert(g@.subrange(0, g@.len() as int) =~= g@);
    m
}

fn path_uses_pool(p: &Vec<Edge>, id: PoolId) -> (r: bool)
    ensures
        r == uses_pool(p@, id),
{
    let mut i: usize = 0;
    while i < p.len()
        invariant
            0 <= i <= p@.len(),
            forall|k: int| 0 <= k < i ==> p@[k].pool_id != id,
        decreases p@.len() - i,
    {
        if p[i].pool_id == id {
            return true;
        }
        i = i + 1;
    }
    false
}

fn path_visits(p: &Vec<Edge>, a: AssetId) -> (r: bool)
    ensures
        r == visits(p@, a),
{
    let mut i: usize = 0;
    while i < p.len()
        invariant
            0 <= i <= p@.len(),
            forall|k: int| 0 <= k < i ==> p@[k].from != a,
        decreases p@.len() - i,
    {
        if p[i].from == a {
            return true;
        }
        i = i + 1;
    }
    false
}

fn explore(
    g: &Vec<Edge>,
    base: AssetId,
    max: usize,
    floor: i64,
    path: &mut Vec<Edge>,
    w: i128,
    depth: usize,
    out: &mut Vec<Vec<Edge>>,
)
    requires
        depth == old(path)@.len(),
        forall|k: int| 0 <= k < g@.len() ==> edge_wf(#[trigger] g@[k]),
        -WEIGHT_BOUND <= floor <= 0,
        old(path)@.len() <= max,
        w == path_weight(old(path)@),
        -(old(path)@.len() * WEIGHT_BOUND) <= w <= old(path)@.len() * WEIGHT_BOUND,
    ensures
        final(path)@ == old(path)@,
        views(final(out)@) == views(old(out)@) + scan(g@, base, max as nat, floor as int, old(path)@, 0),
    decreases max - depth,
{
    let ghost p = path@;
    let ghost out0 = views(out@);
    let at = if path.len() == 0 {
        base
    } else {
        path[path.len() - 1].to
    };
    let mut i: usize = 0;
    while i < g.len()
        invariant
            forall|k: int| 0 <= k < g@.len() ==> edge_wf(#[trigger] g@[k]),
            -WEIGHT_BOUND <= floor <= 0,
            0 <= i <= g@.len(),
            path@ == p,
            depth == p.len(),
            p.len() <= max,
            w == path_weight(p),
            -(p.len() * WEIGHT_BOUND) <= w <= p.len() * WEIGHT_BOUND,
            at == current(p, base),
            out0 + scan(g@, base, max as nat, floor as int, p, 0) == views(out@) + scan(
                g@,
                base,
                max as nat,
                floor as int,
                p,
                i as int,
            ),
        decreases g@.len() - i,
    {
        let e = g[i];
        let ghost rest = scan(g@, base, max as nat, floor as int, p, i + 1);
        let ghost before = views(out@);
        if e.from == at && path.len() < max && !path_uses_pool(path, e.pool_id) {
            let ghost q = p.push(e);
            proof {
                assert(q.drop_last() =~= p);
                assert(edge_wf(e));
            }
            let w2: i128 = w + e.weight as i128;
            let len2: usize = path.len() + 1;
            if e.to == base {
                if len2 >= 2 && w2 < 0 {
                    path.push(e);
                    let c = copy_edges(path);
                    path.pop();
                    out.push(c);
                    proof {
                        assert(path@ =~= p);
                        assert(views(out@) =~= before + seq![q]);
                        assert(views(out@) + rest =~= before + (seq![q] + rest));
                    }
                }
            } else {
                let seen = path_visits(path, e.to);
                if !seen && len2 < max {
                    let left: i128 = (max - len2) as i128;
                    proof {
                        assert(left * floor >= -(0x1_0000_0000_0000_0000 * 1000000000000)) by (nonlinear_arith)
                            requires
                                0 <= left <= 0x1_0000_0000_0000_0000,
                                -1000000000000 <= floor <= 0,
                        ;
                        assert(left * floor <= 0) by (nonlinear_arith)
                            requires
                                0 <= left,
                                floor <= 0,
                        ;
                    }
                    if w2 + left * (floor as i128) < 0 {
                        path.push(e);
                        proof {
                            assert(path@ == q);
                        }
                        assert(max - path@.len() < max - p.len());
                        explore(g, base, max, floor, path, w2, len2, out);
                        path.pop();
                        proof {
                            assert(path@ =~= p);
                            let deeper = scan(g@, base, max as nat, floor as int, q, 0);
                            assert(views(out@) + rest =~= before + (deeper + rest));
                        }
                    }
                }
            }
        }
        i = i + 1;
    }
    assert(views(out@) + scan(g@, base, max as nat, floor as int, p, g@.len() as int) =~= views(out@));
}

impl GraphSnapshot {
    /// Finds the simple negative-weight cycles through `base` of at most `max_hops`
    /// hops, in depth-first discovery order.
    pub fn find_cycles(&self, base: AssetId, max_hops: usize) -> (r: Vec<Vec<Edge>>)
        requires
            self.wf(),
        ensures
            views(r@) == cycles(self.edges@, base, max_hops as nat),
    {
        let floor = weight_floor_of(&self.edges);
        let mut path: Vec<Edge> = Vec::new();
        let mut out: Vec<Vec<Edge>> = Vec::new();
        explore(&self.edges, base, max_hops, floor, &mut path, 0, 0, &mut out);
        assert(views(out@) =~= Seq::<Seq<Edge>>::empty() + cycles(self.edges@, base, max_hops as nat));
        out
    }
}

} // verus!

verus! {

/// A path under construction by the search: it leaves `base`, its edges come from `g`
/// and chain, no asset is left twice, no pool is used twice, and its current asset has
/// not been left yet.
pub open spec fn open_path(g: Seq<Edge>, base: AssetId, p: Seq<Edge>) -> bool {
    &&& forall|k: int| 0 <= k < p.len() ==> g.contains(#[trigger] p[k])
    &&& p.len() > 0 ==> p[0].from == base
    &&& forall|k: int| 0 <= k < p.len() - 1 ==> (#[trigger] p[k]).to == p[k + 1].from
    &&& forall|j: int, k: int| 0 <= j < k < p.len() ==> p[j].from != p[k].from
    &&& forall|j: int, k: int| 0 <= j < k < p.len() ==> p[j].pool_id != p[k].pool_id
    &&& p.len() > 0 ==> !visits(p, p.last().to)
}

/// A simple cycle through `base` over edges of `g`: it leaves `base`, each edge hands
/// its output asset to the next, the last edge returns to `base`, no asset is left
/// twice and no pool is used twice.
pub open spec fn simple_cycle(g: Seq<Edge>, base: AssetId, c: Seq<Edge>) -> bool {
    &&& c.len() >= 1
    &&& forall|k: int| 0 <= k < c.len() ==> g.contains(#[trigger] c[k])
    &&& c[0].from == base
    &&& c.last().to == base
    &&& forall|k: int| 0 <= k < c.len() - 1 ==> (#[trigger] c[k]).to == c[k + 1].from
    &&& forall|j: int, k: int| 0 <= j < k < c.len() ==> c[j].from != c[k].from
    &&& forall|j: int, k: int| 0 <= j < k < c.len() ==> c[j].pool_id != c[k].pool_id
}

/// The asset pairs of the pools of `e1` and `e2` have exactly one asset in common:
/// the one that `e1` hands on to `e2`.
pub open spec fn meet_at_one_asset(e1: Edge, e2: Edge) -> bool {
    &&& e1.to == e2.from
    &&& e1.from != e1.to
    &&& e2.from != e2.to
    &&& e1.from != e2.to
}

proof fn lemma_scan_sound(g: Seq<Edge>, base: AssetId, max: nat, floor: int, p: Seq<Edge>, i: int)
    requires
        forall|k: int| 0 <= k < g.len() ==> edge_wf(#[trigger] g[k]),
        open_path(g, base, p),
    ensures
        forall|k: int|
            0 <= k < scan(g, base, max, floor, p, i).len() ==> {
                let c = #[trigger] scan(g, base, max, floor, p, i)[k];
                &&& simple_cycle(g, base, c)
                &&& 2 <= c.len() <= max
                &&& path_weight(c) < 0
            },
    decreases max - p.len(), g.len() - i,
{
    if i < 0 || i >= g.len() || p.len() > max {
    } else {
        let e = g[i];
        let rest = scan(g, base, max, floor, p, i + 1);
        lemma_scan_sound(g, base, max, floor, p, i + 1);
        if e.from != current(p, base) || p.len() >= max || uses_pool(p, e.pool_id) {
        } else {
            let q = p.push(e);
            assert(edge_wf(e));
            assert forall|k: int| 0 <= k < q.len() implies g.contains(#[trigger] q[k]) by {
                if k == p.len() {
                    assert(g[i] == q[k]);
                }
            };
            assert forall|k: int| 0 <= k < q.len() - 1 implies (#[trigger] q[k]).to == q[k + 1].from by {
                if k < p.len() - 1 {
                    assert(p[k].to == p[k + 1].from);
                }
            };
            assert forall|j: int, k: int| 0 <= j < k < q.len() implies q[j].pool_id != q[k].pool_id by {
                if k == p.len() {
                    assert(p[j].pool_id != e.pool_id);
                }
            };
            assert forall|j: int, k: int| 0 <= j < k < q.len() implies q[j].from != q[k].from by {
                if k == p.len() {
                    assert(p[j].from != p.last().to);
                }
            };
            if e.to == base {
                if q.len() >= 2 && path_weight(q) < 0 {
                    let s = scan(g, base, max, floor, p, i);
                    assert(s == seq![q] + rest);
                    assert forall|k: int| 0 <= k < s.len() implies {
                        let c = #[trigger] s[k];
                        &&& simple_cycle(g, base, c)
                        &&& 2 <= c.len() <= max
                        &&& path_weight(c) < 0
                    } by {
                        if k > 0 {
                            assert(s[k] == rest[k - 1]);
                        } else {
                            assert(s[k] == q);
                        }
                    };
                }
            } else if visits(p, e.to) || q.len() >= max || hopeless(
                path_weight(q),
                q.len() as int,
                max as int,
                floor,
            ) {
            } else {
                assert forall|k: int| 0 <= k < q.len() implies (#[trigger] q[k]).from != e.to by {
                    if k < p.len() {
                        assert(p[k].from != e.to);
                    }
                };
                assert(open_path(g, base, q));
                lemma_scan_sound(g, base, max, floor, q, 0);
                let deeper = scan(g, base, max, floor, q, 0);
                let s = scan(g, base, max, floor, p, i);
                assert(s == deeper + rest);
                assert forall|k: int| 0 <= k < s.len() implies {
                    let c = #[trigger] s[k];
                    &&& simple_cycle(g, base, c)
                    &&& 2 <= c.len() <= max
                    &&& path_weight(c) < 0
                } by {
                    if k < deeper.len() {
                        assert(s[k] == deeper[k]);
                    } else {
                        assert(s[k] == rest[k - deeper.len()]);
                    }
                };
            }
        }
    }
}

/// Every cycle that the search returns has a negative summed weight and between two
/// and `max_hops` hops.
pub proof fn lemma_cycles_negative_within_bound(g: GraphSnapshot, base: AssetId, max_hops: usize)
    requires
        g.wf(),
    ensures
        forall|k: int|
            0 <= k < cycles(g.edges@, base, max_hops as nat).len() ==> {
                let c = #[trigger] cycles(g.edges@, base, max_hops as nat)[k];
                &&& path_weight(c) < 0
                &&& 2 <= c.len() <= max_hops
            },
{
    lemma_scan_sound(g.edges@, base, max_hops as nat, weight_floor(g.edges@), Seq::empty(), 0);
}

/// Every cycle that the search returns is a simple cycle through `base` over the
/// snapshot's edges: consecutive edges chain, the first edge leaves `base` and the
/// last returns to it. From three hops on, the pools of consecutive edges have
/// exactly one asset in common.
pub proof fn lemma_cycles_are_closed_chains(g: GraphSnapshot, base: AssetId, max_hops: usize)
    requires
        g.wf(),
    ensures
        forall|k: int|
            0 <= k < cycles(g.edges@, base, max_hops as nat).len() ==> {
                let c = #[trigger] cycles(g.edges@, base, max_hops as nat)[k];
                &&& simple_cycle(g.edges@, base, c)
                &&& c[0].from == c.last().to
                &&& c.len() >= 3 ==> forall|j: int|
                    0 <= j < c.len() - 1 ==> meet_at_one_asset(#[trigger] c[j], c[j + 1])
            },
{
    let r = cycles(g.edges@, base, max_hops as nat);
    lemma_scan_sound(g.edges@, base, max_hops as nat, weight_floor(g.edges@), Seq::empty(), 0);
    assert forall|k: int| 0 <= k < r.len() implies {
        let c = #[trigger] r[k];
        c.len() >= 3 ==> forall|j: int|
            0 <= j < c.len() - 1 ==> meet_at_one_asset(#[trigger] c[j], c[j + 1])
    } by {
        let c = r[k];
        assert(simple_cycle(g.edges@, base, c));
        if c.len() >= 3 {
            assert forall|j: int| 0 <= j < c.len() - 1 implies meet_at_one_asset(
                #[trigger] c[j],
                c[j + 1],
            ) by {
                assert(g.edges@.contains(c[j]));
                assert(g.edges@.contains(c[j + 1]));
                let a = choose|x: int| 0 <= x < g.edges@.len() && g.edges@[x] == c[j];
                let b = choose|x: int| 0 <= x < g.edges@.len() && g.edges@[x] == c[j + 1];
                assert(edge_wf(g.edges@[a]));
                assert(edge_wf(g.edges@[b]));
                if j + 2 < c.len() {
                    assert(c[j + 1].to == c[j + 2].from);
                    assert(c[j].from != c[j + 2].from);
                } else {
                    assert(c[j + 1].to == base);
                    assert(c[0].from != c[j].from);
                }
            };
        }
    };
}

/// The search is a function of the snapshot's edges in their order, the base asset
/// and the hop bound: two searches of the same snapshot find the same cycles in the
/// same order.
pub proof fn lemma_search_deterministic(
    first: GraphSnapshot,
    second: GraphSnapshot,
    base: AssetId,
    max_hops: usize,
)
    requires
        first.edges@ == second.edges@,
    ensures
        cycles(first.edges@, base, max_hops as nat) == cycles(second.edges@, base, max_hops as nat),
{
}

proof fn lemma_path_weight_concat(a: Seq<Edge>, b: Seq<Edge>)
    ensures
        path_weight(a + b) == path_weight(a) + path_weight(b),
    decreases b.len(),
{
    if b.len() > 0 {
        lemma_path_weight_concat(a, b.drop_last());
        assert((a + b).drop_last() =~= a + b.drop_last());
    }
}

proof fn lemma_path_weight_at_least(s: Seq<Edge>, floor: int)
    requires
        floor <= 0,
        forall|k: int| 0 <= k < s.len() ==> floor <= (#[trigger] s[k]).weight,
    ensures
        path_weight(s) >= s.len() * floor,
    decreases s.len(),
{
    if s.len() > 0 {
        lemma_path_weight_at_least(s.drop_last(), floor);
        assert(s.len() * floor == (s.len() - 1) * floor + floor) by (nonlinear_arith);
    }
}

proof fn lemma_weight_floor_below(g: Seq<Edge>)
    ensures
        weight_floor(g) <= 0,
        forall|k: int| 0 <= k < g.len() ==> weight_floor(g) <= (#[trigger] g[k]).weight,
    decreases g.len(),
{
    if g.len() > 0 {
        lemma_weight_floor_below(g.drop_last());
        assert forall|k: int| 0 <= k < g.len() implies weight_floor(g) <= (#[trigger] g[k]).weight by {
            if k < g.len() - 1 {
                assert(g.drop_last()[k] == g[k]);
            }
        };
    }
}

proof fn lemma_scan_complete(
    g: Seq<Edge>,
    base: AssetId,
    max: nat,
    floor: int,
    c: Seq<Edge>,
    j: int,
    i: int,
    idx: int,
)
    requires
        simple_cycle(g, base, c),
        2 <= c.len() <= max,
        path_weight(c) < 0,
        floor <= 0,
        forall|k: int| 0 <= k < g.len() ==> floor <= (#[trigger] g[k]).weight,
        0 <= j < c.len(),
        0 <= i <= idx < g.len(),
        g[idx] == c[j],
    ensures
        scan(g, base, max, floor, c.subrange(0, j), i).contains(c),
    decreases max - j, g.len() - i,
{
    let p = c.subrange(0, j);
    let rest = scan(g, base, max, floor, p, i + 1);
    let s = scan(g, base, max, floor, p, i);
    if i < idx {
        lemma_scan_complete(g, base, max, floor, c, j, i + 1, idx);
        let t = choose|t: int| 0 <= t < rest.len() && rest[t] == c;
        let e = g[i];
        if e.from != current(p, base) || p.len() >= max || uses_pool(p, e.pool_id) {
        } else {
            let q = p.push(e);
            if e.to == base {
                if q.len() >= 2 && path_weight(q) < 0 {
                    assert(s[t + 1] == c);
                }
            } else if visits(p, e.to) || q.len() >= max || hopeless(
                path_weight(q),
                q.len() as int,
                max as int,
                floor,
            ) {
            } else {
                let d = scan(g, base, max, floor, q, 0);
                assert(s[d.len() + t] == c);
            }
        }
    } else {
        let e = c[j];
        assert(e.from == current(p, base)) by {
            if j > 0 {
                assert(c[j - 1].to == c[j].from);
            }
        };
        assert(!uses_pool(p, e.pool_id)) by {
            if uses_pool(p, e.pool_id) {
                let k = choose|k: int| 0 <= k < p.len() && p[k].pool_id == e.pool_id;
                assert(c[k].pool_id == c[j].pool_id);
            }
        };
        let q = p.push(e);
        assert(q =~= c.subrange(0, j + 1));
        if e.to == base {
            if j < c.len() - 1 {
                assert(c[j].to == c[j + 1].from);
                assert(c[0].from != c[j + 1].from);
            }
            assert(q =~= c);
            assert(s[0] == c);
        } else {
            assert(j < c.len() - 1);
            assert(!visits(p, e.to)) by {
                assert(c[j].to == c[j + 1].from);
                if visits(p, e.to) {
                    let k = choose|k: int| 0 <= k < p.len() && p[k].from == e.to;
                    assert(c[k].from == c[j + 1].from);
                }
            };
            let tail = c.subrange(j + 1, c.len() as int);
            assert(c =~= q + tail);
            lemma_path_weight_concat(q, tail);
            assert forall|k: int| 0 <= k < tail.len() implies floor <= (#[trigger] tail[k]).weight by {
                assert(g.contains(c[j + 1 + k]));
                let x = choose|x: int| 0 <= x < g.len() && g[x] == c[j + 1 + k];
                assert(floor <= g[x].weight);
            };
            lemma_path_weight_at_least(tail, floor);
            assert((max - q.len()) * floor <= tail.len() * floor) by (nonlinear_arith)
                requires
                    floor <= 0,
                    tail.len() <= max - q.len(),
            ;
            assert(!hopeless(path_weight(q), q.len() as int, max as int, floor));
            assert(g.contains(c[j + 1]));
            let nidx = choose|x: int| 0 <= x < g.len() && g[x] == c[j + 1];
            lemma_scan_complete(g, base, max, floor, c, j + 1, 0, nidx);
            let d = scan(g, base, max, floor, q, 0);
            let t = choose|t: int| 0 <= t < d.len() && d[t] == c;
            assert(s == d + rest);
            assert(s[t] == c);
        }
    }
}

/// The search misses no cycle: every simple cycle through `base` over the snapshot's
/// edges, with a negative summed weight and between two and `max_hops` hops, is among
/// the cycles it returns.
pub proof fn lemma_cycles_complete(g: GraphSnapshot, base: AssetId, max_hops: usize, c: Seq<Edge>)
    requires
        simple_cycle(g.edges@, base, c),
        2 <= c.len() <= max_hops,
        path_weight(c) < 0,
    ensures
        cycles(g.edges@, base, max_hops as nat).contains(c),
{
    lemma_weight_floor_below(g.edges@);
    assert(g.edges@.contains(c[0]));
    let idx = choose|x: int| 0 <= x < g.edges@.len() && g.edges@[x] == c[0];
    lemma_scan_complete(g.edges@, base, max_hops as nat, weight_floor(g.edges@), c, 0, 0, idx);
    assert(c.subrange(0, 0) =~= Seq::<Edge>::empty());
}

/// A cycle that is negative only under a pending transaction's overlay: the search of
/// the base snapshot returns only cycles whose weight there is negative, and the search
/// of the overlay snapshot returns every simple negative cycle of that snapshot within
/// the hop bound, so it returns this one.
pub proof fn lemma_overlay_search(
    reg: PoolRegistry,
    tx: PendingTx,
    plain: GraphSnapshot,
    overlaid: GraphSnapshot,
    base: AssetId,
    max_hops: usize,
    c: Seq<Edge>,
)
    requires
        plain.wf(),
        overlaid.wf(),
        plain.edges@ == snapshot_edges(reg.pools()),
        overlaid.edges@ == snapshot_edges(overlay_pools(reg.pools(), tx.swaps@)),
        simple_cycle(overlaid.edges@, base, c),
        2 <= c.len() <= max_hops,
        path_weight(c) < 0,
    ensures
        forall|k: int|
            0 <= k < cycles(plain.edges@, base, max_hops as nat).len() ==> path_weight(
                #[trigger] cycles(plain.edges@, base, max_hops as nat)[k],
            ) < 0,
        cycles(overlaid.edges@, base, max_hops as nat).contains(c),
{
    lemma_cycles_negative_within_bound(plain, base, max_hops);
    lemma_cycles_complete(overlaid, base, max_hops, c);
}

} // verus!
