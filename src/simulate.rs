use crate::graph::{copy_edges, Edge};
use crate::pool::{swap_out, swap_output, Pool, PoolId};
use crate::registry::{has_id, lookup, PoolRegistry};
use vstd::prelude::*;

verus! {

/// The fatal condition of a simulation: the path names a pool that the registry lacks.
#[derive(Clone, Copy, Debug, PartialEq, Eq, Structural)]
pub enum SimError {
    MissingPool(PoolId),
}

/// Limits that a simulation applies.
#[derive(Clone, Copy, Debug, PartialEq, Eq, Structural)]
pub struct SimSettings {
    /// A pool last updated more than this long before `now` is stale.
    pub freshness_bound: u64,
    /// Execution overhead charged against the output, in units of the base asset.
    pub gas_cost: u64,
}

/// What a simulation found for one candidate path.
pub struct SimulationResult {
    pub path: Vec<Edge>,
    pub input: u64,
    /// Amount of the base asset at the end of the path; zero where the path cannot be traded.
    pub gross_output: u64,
    /// Execution overhead charged. Pool fees are not part of it: each hop already takes
    /// its fee out of its output, so `gross_output` is net of fees.
    pub cost: u64,
    /// `gross_output - input - cost`.
    pub net_profit: i128,
    pub profitable: bool,
}

impl SimulationResult {
    pub open spec fn wf(&self) -> bool {
        &&& self.net_profit == self.gross_output as int - self.input as int - self.cost as int
        &&& self.profitable ==> self.net_profit > 0
    }
}

/// `p` was last updated more than `bound` before `now`.
pub open spec fn is_stale(p: Pool, now: u64, bound: u64) -> bool {
    now > p.updated_at && now - p.updated_at > bound
}

/// Output of one hop along `e` through `p` on `amount`; `None` where the pool is stale,
/// does not join the edge's assets, holds nothing on the side sold into, or yields nothing.
pub open spec fn hop_output(p: Pool, e: Edge, amount: int, now: u64, bound: u64) -> Option<int> {
    let out = if e.from == p.asset_a && e.to == p.asset_b {
        swap_out(amount, p.reserve_a as int, p.reserve_b as int, p.fee_bps as int)
    } else {
        swap_out(amount, p.reserve_b as int, p.reserve_a as int, p.fee_bps as int)
    };
    if is_stale(p, now, bound) {
        None
    } else if !(e.from == p.asset_a && e.to == p.asset_b) && !(e.from == p.asset_b && e.to
        == p.asset_a) {
        None
    } else if (if e.from == p.asset_a {
        p.reserve_a
    } else {
        p.reserve_b
    }) == 0 {
        None
    } else if out <= 0 {
        None
    } else {
        Some(out)
    }
}

/// Output of trading `input` along the whole path against `pools`, hop after hop;
/// `None` where some hop cannot be traded.
pub open spec fn path_output(pools: Seq<Pool>, path: Seq<Edge>, input: int, now: u64, bound: u64) -> Option<
    int,
>
    decreases path.len(),
{
    if path.len() == 0 {
        Some(input)
    } else {
        match path_output(pools, path.drop_last(), input, now, bound) {
            None => None,
            Some(a) => match lookup(pools, path.last().pool_id) {
                None => None,
                Some(p) => hop_output(p, path.last(), a, now, bound),
            },
        }
    }
}

/// Every pool that the path names is in `pools`.
pub open spec fn all_present(pools: Seq<Pool>, path: Seq<Edge>) -> bool {
    forall|k: int| 0 <= k < path.len() ==> has_id(pools, #[trigger] path[k].pool_id)
}

/// `r` is the outcome of simulating `path` on `input` against `pools`.
pub open spec fn simulated(
    pools: Seq<Pool>,
    path: Seq<Edge>,
    input: u64,
    now: u64,
    settings: SimSettings,
    r: Result<SimulationResult, SimError>,
) -> bool {
    match r {
        Err(SimError::MissingPool(id)) => exists|k: int|
            0 <= k < path.len() && path[k].pool_id == id && !has_id(pools, id) && forall|j: int|
                0 <= j < k ==> has_id(pools, #[trigger] path[j].pool_id),
        Ok(s) => {
            &&& all_present(pools, path)
            &&& s.path@ == path
            &&& s.input == input
            &&& s.cost == settings.gas_cost
            &&& s.gross_output as int == match path_output(
                pools,
                path,
                input as int,
                now,
                settings.freshness_bound,
            ) {
                Some(o) => o,
                None => 0,
            }
            &&& s.net_profit == s.gross_output as int - input as int - settings.gas_cost as int
            &&& s.profitable == (path_output(pools, path, input as int, now, settings.freshness_bound)
                is Some && s.net_profit > 0)
        },
    }
}

fn hop(p: &Pool, e: &Edge, amount: u64, now: u64, bound: u64) -> (r: Option<u64>)
    requires
        p.wf(),
    ensures
        r matches Some(o) ==> hop_output(*p, *e, amount as int, now, bound) == Some(o as int),
        r is None ==> hop_output(*p, *e, amount as int, now, bound) is None,
{
    if now > p.updated_at && now - p.updated_at > bound {
        return None;
    }
    let out = if e.from == p.asset_a && e.to == p.asset_b {
        if p.reserve_a == 0 {
            return None;
        }
        swap_output(amount, p.reserve_a, p.reserve_b, p.fee_bps)
    } else if e.from == p.asset_b && e.to == p.asset_a {
        if p.reserve_b == 0 {
            return None;
        }
        swap_output(amount, p.reserve_b, p.reserve_a, p.fee_bps)
    } else {
        return None;
    };
    if out == 0 {
        None
    } else {
        Some(out)
    }
}

impl PoolRegistry {
    /// Trades `input` of the base asset along `path` against the current pool states,
    /// without changing them. A pool that the registry lacks is an error; a stale pool,
    /// an edge that the pool does not join, or a hop that yields nothing makes the
    /// result unprofitable.
    pub fn simulate(&self, path: &Vec<Edge>, input: u64, now: u64, settings: SimSettings) -> (r:
        Result<SimulationResult, SimError>)
        requires
            self.wf(),
        ensures
            simulated(self.pools(), path@, input, now, settings, r),
            r matches Ok(s) ==> s.wf(),
    {
        let mut k: usize = 0;
        while k < path.len()
            invariant
                self.wf(),
                0 <= k <= path@.len(),
                forall|j: int| 0 <= j < k ==> has_id(self.pools(), #[trigger] path@[j].pool_id),
            decreases path@.len() - k,
        {
            if self.get(path[k].pool_id).is_none() {
                return Err(SimError::MissingPool(path[k].pool_id));
            }
            k = k + 1;
        }
        let mut amount: u64 = input;
        let mut ok = true;
        let mut i: usize = 0;
        while i < path.len()
            invariant
                self.wf(),
                0 <= i <= path@.len(),
                all_present(self.pools(), path@),
                ok ==> path_output(
                    self.pools(),
                    path@.subrange(0, i as int),
                    input as int,
                    now,
                    settings.freshness_bound,
                ) == Some(amount as int),
                !ok ==> path_output(
                    self.pools(),
                    path@.subrange(0, i as int),
                    input as int,
                    now,
                    settings.freshness_bound,
                ) is None,
            decreases path@.len() - i,
        {
            proof {
                assert(path@.subrange(0, i + 1).drop_last() =~= path@.subrange(0, i as int));
                assert(has_id(self.pools(), path@[i as int].pool_id));
            }
            if ok {
                match self.get(path[i].pool_id) {
                    Some(p) => match hop(&p, &path[i], amount, now, settings.freshness_bound) {
                        Some(o) => {
                            amount = o;
                        },
                        None => {
                            ok = false;
                        },
                    },
                    None => {
                        ok = false;
                    },
                }
            }
            i = i + 1;
        }
        proof {
            assert(path@.subrange(0, path@.len() as int) =~= path@);
        }
        let gross: u64 = if ok {
            amount
        } else {
            0
        };
        let net: i128 = gross as i128 - input as i128 - settings.gas_cost as i128;
        Ok(
            SimulationResult {
                path: copy_edges(path),
                input,
                gross_output: gross,
                cost: settings.gas_cost,
                net_profit: net,
                profitable: ok && net > 0,
            },
        )
    }
}

} // verus!
