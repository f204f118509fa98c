use crate::graph::{copy_edges, overlay_pools, snapshot_edges, Edge, PendingTx};
use crate::pool::{AssetId, BPS_DENOM};
use crate::registry::PoolRegistry;
use crate::search::{cycles, views};
use crate::simulate::{simulated, SimError, SimSettings, SimulationResult};
use vstd::prelude::*;

verus! {

/// Scale of the gating signal: a score of `SCORE_SCALE` stands for 1.0, and scores
/// lie in `[-SCORE_SCALE, SCORE_SCALE]`.
pub const SCORE_SCALE: i64 = 1000000;

/// What the gating collaborator answered for one candidate.
#[derive(Clone, Copy, Debug, PartialEq, Eq, Structural)]
pub enum GateReading {
    Score(i64),
    TimedOut,
    Failed,
}

/// Why a candidate was not submitted.
#[derive(Clone, Copy, Debug, PartialEq, Eq, Structural)]
pub enum Disqualification {
    NotProfitable,
    GateTimedOut,
    /// The collaborator failed or answered outside the score range.
    GateFailed,
    BelowThreshold,
}

/// The single atomic action handed to the submission channels: the trade steps in
/// order, the amount committed, and the priority payment offered.
pub struct ActionBundle {
    pub steps: Vec<Edge>,
    pub amount_in: u64,
    pub priority_payment: u64,
}

pub enum StrikeDecision {
    Submit(ActionBundle),
    Disqualified(Disqualification),
}

/// Settings of the orchestrator.
#[derive(Clone, Copy, Debug, PartialEq, Eq, Structural)]
pub struct StrikeSettings {
    /// A candidate proceeds only on a score strictly above this.
    pub min_score: i64,
    /// Share of the net profit offered as priority payment, in basis points.
    pub priority_bps: u64,
}

/// The answer of one submission channel.
#[derive(Clone, Copy, Debug, PartialEq, Eq, Structural)]
pub enum ChannelResult {
    Accepted,
    Rejected,
    Unknown,
}

/// The two outcomes of a saturation submission that are observable from outside.
#[derive(Clone, Copy, Debug, PartialEq, Eq, Structural)]
pub enum StrikeOutcome {
    Landed,
    Missed,
}

/// The disqualification, if any, of a candidate with the given simulation and reading.
pub open spec fn disqualification(profitable: bool, gate: GateReading, min_score: i64) -> Option<
    Disqualification,
> {
    if !profitable {
        Some(Disqualification::NotProfitable)
    } else {
        match gate {
            GateReading::TimedOut => Some(Disqualification::GateTimedOut),
            GateReading::Failed => Some(Disqualification::GateFailed),
            GateReading::Score(s) => if s < -SCORE_SCALE || s > SCORE_SCALE {
                Some(Disqualification::GateFailed)
            } else if s <= min_score {
                Some(Disqualification::BelowThreshold)
            } else {
                None
            },
        }
    }
}

/// Priority payment offered for a net profit of `net`.
pub open spec fn priority_payment_of(net: int, bps: int) -> int {
    net * bps / (BPS_DENOM as int)
}

/// Decides whether a simulated candidate is submitted, failing closed on any
/// collaborator timeout or error.
pub fn decide(sim: &SimulationResult, gate: GateReading, settings: StrikeSettings) -> (r: StrikeDecision)
    requires
        sim.wf(),
        settings.priority_bps <= BPS_DENOM,
    ensures
        disqualification(sim.profitable, gate, settings.min_score) matches Some(d) ==> r
            == StrikeDecision::Disqualified(d),
        disqualification(sim.profitable, gate, settings.min_score) is None ==> (r matches StrikeDecision::Submit(
            b,
        ) && b.steps@ == sim.path@ && b.amount_in == sim.input && b.priority_payment as int
            == priority_payment_of(sim.net_profit as int, settings.priority_bps as int)),
{
    if !sim.profitable {
        return StrikeDecision::Disqualified(Disqualification::NotProfitable);
    }
    match gate {
        GateReading::TimedOut => {
            return StrikeDecision::Disqualified(Disqualification::GateTimedOut);
        },
        GateReading::Failed => {
            return StrikeDecision::Disqualified(Disqualification::GateFailed);
        },
        GateReading::Score(s) => {
            if s < -SCORE_SCALE || s > SCORE_SCALE {
                return StrikeDecision::Disqualified(Disqualification::GateFailed);
            }
            if s <= settings.min_score {
                return StrikeDecision::Disqualified(Disqualification::BelowThreshold);
            }
        },
    }
    let net = sim.net_profit as u128;
    let bps = settings.priority_bps as u128;
    proof {
        assert(net <= 0xffff_ffff_ffff_ffff);
        assert(net * bps <= net * 10000) by (nonlinear_arith)
            requires
                bps <= 10000,
        ;
        assert(net * 10000 <= 0xffff_ffff_ffff_ffff * 10000) by (nonlinear_arith)
            requires
                net <= 0xffff_ffff_ffff_ffff,
        ;
        vstd::arithmetic::div_mod::lemma_div_is_ordered(
            (net * bps) as int,
            (net * 10000) as int,
            10000,
        );
        vstd::arithmetic::div_mod::lemma_div_multiples_vanish(net as int, 10000);
        assert((net * 10000) as int == 10000 * (net as int)) by (nonlinear_arith);
    }
    let payment = (net * bps / (BPS_DENOM as u128)) as u64;
    let steps = copy_edges(&sim.path);
    StrikeDecision::Submit(ActionBundle { steps, amount_in: sim.input, priority_payment: payment })
}

/// Combines the answers of the channels a bundle was offered to: it landed exactly
/// where some channel accepted it.
pub fn saturation_outcome(results: &Vec<ChannelResult>) -> (r: StrikeOutcome)
    ensures
        r == StrikeOutcome::Landed <==> exists|k: int|
            0 <= k < results@.len() && results@[k] == ChannelResult::Accepted,
        r == StrikeOutcome::Landed || r == StrikeOutcome::Missed,
{
    let mut i: usize = 0;
    while i < results.len()
        invariant
            0 <= i <= results@.len(),
            forall|k: int| 0 <= k < i ==> results@[k] != ChannelResult::Accepted,
        decreases results@.len() - i,
    {
        if results[i] == ChannelResult::Accepted {
            return StrikeOutcome::Landed;
        }
        i = i + 1;
    }
    StrikeOutcome::Missed
}

/// Settings of one analysis of a pending transaction.
#[derive(Clone, Copy, Debug, PartialEq, Eq, Structural)]
pub struct AnalysisSettings {
    pub base: AssetId,
    pub max_hops: usize,
    /// Amount of the base asset committed to each candidate.
    pub input: u64,
    pub sim: SimSettings,
}

/// Analyses one pending transaction: searches the snapshot overlaid with `tx` for
/// cycles through the base asset and simulates each against the registry's current
/// state. A missing pool fails only the candidate that names it.
pub fn analyze_pending(reg: &PoolRegistry, tx: &PendingTx, now: u64, settings: AnalysisSettings) -> (r:
    Vec<Result<SimulationResult, SimError>>)
    requires
        reg.wf(),
    ensures
        ({
            let found = cycles(
                snapshot_edges(overlay_pools(reg.pools(), tx.swaps@)),
                settings.base,
                settings.max_hops as nat,
            );
            &&& r@.len() == found.len()
            &&& forall|k: int|
                0 <= k < found.len() ==> simulated(
                    reg.pools(),
                    #[trigger] found[k],
                    settings.input,
                    now,
                    settings.sim,
                    r@[k],
                )
        }),
        forall|k: int| 0 <= k < r@.len() ==> ((#[trigger] r@[k]) matches Ok(s) ==> s.wf()),
{
    let g = reg.build_with_overlay(tx);
    let found = g.find_cycles(settings.base, settings.max_hops);
    let mut out: Vec<Result<SimulationResult, SimError>> = Vec::new();
    let mut i: usize = 0;
    while i < found.len()
        invariant
            reg.wf(),
            0 <= i <= found@.len(),
            views(found@) == cycles(
                snapshot_edges(overlay_pools(reg.pools(), tx.swaps@)),
                settings.base,
                settings.max_hops as nat,
            ),
            out@.len() == i,
            forall|k: int|
                0 <= k < i ==> simulated(
                    reg.pools(),
                    #[trigger] views(found@)[k],
                    settings.input,
                    now,
                    settings.sim,
                    out@[k],
                ),
            forall|k: int| 0 <= k < i ==> ((#[trigger] out@[k]) matches Ok(s) ==> s.wf()),
        decreases found@.len() - i,
    {
        let s = reg.simulate(&found[i], settings.input, now, settings.sim);
        out.push(s);
        assert(views(found@)[i as int] == found@[i as int]@);
        i = i + 1;
    }
    out
}

} // verus!
