//! The decision gate: opportunity quality, the entry checklist with the action
//! it leads to, and the chance that an option reaches a target premium.

use crate::algebra;
use crate::black_scholes::{self, BsInputs, BsTerms};
use crate::closeness::{self, close};
use crate::consts::{HALF, HUNDRED, ONE, TWO, ZERO};
use crate::decimal::{self, decimal};
use crate::exact;
use crate::first_passage::{self, TouchTerms};
use crate::market::OptionRight;
use crate::num::Num;
use crate::risk::{self, LiquidityScore, ModelTrust, TailRisk};
use crate::state::{BinaryState, Readout};
use crate::worth::{self, share};
use vstd::arithmetic::power2::*;
use vstd::prelude::*;

verus! {

/// Least number of similar trades to enter.
pub const GATE_SAMPLE_MIN: u64 = 30;

/// Most bisection steps of the spot search.
pub const INVERT_MAX_ITER: u32 = 200;

/// Expected value that scores nothing (0.0).
pub const EV_FLOOR: u64 = 0x0000_0000_0000_0000;

/// Expected value that scores in full (0.3).
pub const EV_CEILING: u64 = 0x3FD3_3333_3333_3333;

/// Points of expected value (25.0).
pub const OQ_W_EV: u64 = 0x4039_0000_0000_0000;

/// Points of the calibrated probability (20.0).
pub const OQ_W_PCAL: u64 = 0x4034_0000_0000_0000;

/// Points of low tail risk (15.0).
pub const OQ_W_TAIL: u64 = 0x402E_0000_0000_0000;

/// Points of liquidity (15.0).
pub const OQ_W_LIQ: u64 = 0x402E_0000_0000_0000;

/// Points of model trust (10.0).
pub const OQ_W_TRUST: u64 = 0x4024_0000_0000_0000;

/// Points of sample strength (10.0).
pub const OQ_W_SAMPLE: u64 = 0x4024_0000_0000_0000;

/// Points of regime stability (5.0).
pub const OQ_W_REGIME: u64 = 0x4014_0000_0000_0000;

/// Thesis stability below which a position is invalid (40.0).
pub const GATE_STABILITY_FLOOR: u64 = 0x4044_0000_0000_0000;

/// Probability below which a position is invalid (0.5).
pub const GATE_PCAL_FLOOR: u64 = 0x3FE0_0000_0000_0000;

/// Liquidity below which a position is invalid (30.0).
pub const GATE_LIQ_FLOOR_OPEN: u64 = 0x403E_0000_0000_0000;

/// Trust below which a position is invalid (0.2).
pub const GATE_TRUST_FLOOR_OPEN: u64 = 0x3FC9_9999_9999_999A;

/// Thesis stability below which a position is trimmed (70.0).
pub const GATE_STABILITY_REDUCE: u64 = 0x4051_8000_0000_0000;

/// Greatest tail risk to hold or enter (0.7).
pub const GATE_TAIL_MAX: u64 = 0x3FE6_6666_6666_6666;

/// Dealer positioning below which a position is trimmed (0.5).
pub const GATE_DEALER_REDUCE: u64 = 0x3FE0_0000_0000_0000;

/// Probability to be exceeded to enter (0.62).
pub const GATE_PCAL_BUY: u64 = 0x3FE3_D70A_3D70_A3D7;

/// Reward to risk to be exceeded to enter (1.5).
pub const GATE_RR_MIN: u64 = 0x3FF8_0000_0000_0000;

/// Least liquidity to enter (60.0).
pub const GATE_LIQ_BUY: u64 = 0x404E_0000_0000_0000;

/// Least trust to enter (0.4).
pub const GATE_TRUST_BUY: u64 = 0x3FD9_9999_9999_999A;

/// Least dealer positioning to enter (0.6).
pub const GATE_DEALER_BUY: u64 = 0x3FE3_3333_3333_3333;

/// Lower end of the spot search, points (1e-06).
pub const INVERT_SPOT_LO: u64 = 0x3EB0_C6F7_A0B5_ED8D;

/// Upper end of the spot search, multiple of spot (5.0).
pub const INVERT_SPOT_HI_MULT: u64 = 0x4014_0000_0000_0000;

/// Tolerance of the spot search (1e-07).
pub const INVERT_TOL: u64 = 0x3E7A_D7F2_9ABC_AF48;

/// What to do.
#[derive(Debug, Clone, Copy, PartialEq, Eq, Structural)]
pub enum DecisionAction {
    /// No position, every entry condition passes.
    Enter,
    /// No position, some entry condition fails.
    Wait,
    /// Open position, structure intact.
    Hold,
    /// Open position, structure degraded.
    Reduce,
    /// Open position, invalidated.
    Exit,
}

/// One condition of the decision.
#[derive(Debug, PartialEq)]
pub struct Condition {
    /// The predicate in words.
    pub label: String,
    /// The measured value.
    pub value: Num,
    /// Whether the predicate holds.
    pub pass: bool,
}

/// Inputs of the decision.
#[derive(Debug, Clone, Copy, PartialEq)]
pub struct GateInputs {
    /// Whether a position is open.
    pub position_open: bool,
    /// Expected value, fractional return.
    pub ev: Num,
    /// Calibrated win probability.
    pub p_cal: Num,
    /// Reward to risk; NaN fails.
    pub reward_risk: Num,
    /// Tail-risk score, from 0 to 1.
    pub tail_risk: Num,
    /// Liquidity score, from 0 to 100.
    pub liquidity: Num,
    /// Similar trades.
    pub n_samples: u64,
    /// Model trust, from 0 to 1.
    pub trust: Num,
    /// Dealer positioning, from 0 to 1.
    pub dealer01: Num,
    /// Thesis stability, from 0 to 100.
    pub thesis_stability: Num,
}

/// Inputs of opportunity quality beyond the decision.
#[derive(Debug, Clone, Copy, PartialEq)]
pub struct QualityInputs {
    /// Sample strength, from 0 to 1.
    pub sample_strength: Num,
    /// Regime stability, from 0 to 1.
    pub regime_stability: Num,
}

/// The decision with its reasons.
#[derive(Debug, PartialEq)]
pub struct DecisionReadout {
    /// Active when every entry condition passes; the score is the quality.
    pub opportunity: Readout,
    /// What to do.
    pub action: DecisionAction,
    /// Opportunity quality, from 0 to 100.
    pub quality: Num,
    /// The conditions, in gate order.
    pub conditions: Vec<Condition>,
}

/// A number moved into `[0, 1]`.
pub open spec fn unit(v: Num) -> Num {
    v.fclamp(Num::of(ZERO), Num::of(ONE))
}

fn clamp01(v: Num) -> (r: Num)
    ensures
        r == unit(v),
{
    v.clamp(Num::of(ZERO), Num::of(ONE))
}

/// Opportunity quality before it is moved into range.
pub open spec fn quality_points(
    ev: Num,
    p_cal: Num,
    tail: Num,
    liquidity: Num,
    trust: Num,
    q: QualityInputs,
) -> Num {
    let norm_ev = unit(
        ev.fsub(Num::of(EV_FLOOR)).fdiv(Num::of(EV_CEILING).fsub(Num::of(EV_FLOOR))),
    );
    Num::of(OQ_W_EV).fmul(norm_ev).fadd(Num::of(OQ_W_PCAL).fmul(unit(p_cal))).fadd(
        Num::of(OQ_W_TAIL).fmul(Num::of(ONE).fsub(unit(tail))),
    ).fadd(Num::of(OQ_W_LIQ).fmul(unit(liquidity.fdiv(Num::of(HUNDRED))))).fadd(
        Num::of(OQ_W_TRUST).fmul(unit(trust)),
    ).fadd(Num::of(OQ_W_SAMPLE).fmul(unit(q.sample_strength))).fadd(
        Num::of(OQ_W_REGIME).fmul(unit(q.regime_stability)),
    )
}

/// Opportunity quality, from 0 to 100.
pub open spec fn quality_of(
    gate: GateInputs,
    q: QualityInputs,
    liquidity: LiquidityScore,
    trust: ModelTrust,
    tail: TailRisk,
) -> Num {
    quality_points(gate.ev, gate.p_cal, tail.score, liquidity.total, trust.score, q).fclamp(
        Num::of(ZERO),
        Num::of(HUNDRED),
    )
}

/// Opportunity quality, from 0 to 100.
pub fn opportunity_quality(
    gate: &GateInputs,
    quality: &QualityInputs,
    liquidity: &LiquidityScore,
    trust: &ModelTrust,
    tail: &TailRisk,
) -> (r: Num)
    ensures
        r == quality_of(*gate, *quality, *liquidity, *trust, *tail),
{
    let norm_ev = clamp01(
        (gate.ev - Num::of(EV_FLOOR)) / (Num::of(EV_CEILING) - Num::of(EV_FLOOR)),
    );
    let score = Num::of(OQ_W_EV) * norm_ev + Num::of(OQ_W_PCAL) * clamp01(gate.p_cal) + Num::of(
        OQ_W_TAIL,
    ) * (Num::of(ONE) - clamp01(tail.score)) + Num::of(OQ_W_LIQ) * clamp01(
        liquidity.total / Num::of(HUNDRED),
    ) + Num::of(OQ_W_TRUST) * clamp01(trust.score) + Num::of(OQ_W_SAMPLE) * clamp01(
        quality.sample_strength,
    ) + Num::of(OQ_W_REGIME) * clamp01(quality.regime_stability);
    score.clamp(Num::of(ZERO), Num::of(HUNDRED))
}

/// Opportunity quality lies between 0 and 100 whenever its inputs are numbers.
pub proof fn law_quality_bounded(
    gate: GateInputs,
    q: QualityInputs,
    liquidity: LiquidityScore,
    trust: ModelTrust,
    tail: TailRisk,
)
    requires
        !gate.ev.nan(),
        !gate.p_cal.nan(),
        !tail.score.nan(),
        !liquidity.total.nan(),
        !trust.score.nan(),
        !q.sample_strength.nan(),
        !q.regime_stability.nan(),
    ensures
        Num::of(ZERO).fle(quality_of(gate, q, liquidity, trust, tail)),
        quality_of(gate, q, liquidity, trust, tail).fle(Num::of(HUNDRED)),
{
    let (floor, ceiling) = (Num::of(EV_FLOOR), Num::of(EV_CEILING));
    algebra::law_add_zero(gate.ev);
    algebra::law_add_zero(ceiling);
    algebra::lemma_div_finite(gate.ev.fsub(floor), ceiling.fsub(floor));
    algebra::lemma_div_finite(liquidity.total, Num::of(HUNDRED));
    let norm_ev = unit(gate.ev.fsub(floor).fdiv(ceiling.fsub(floor)));
    let norm_liq = unit(liquidity.total.fdiv(Num::of(HUNDRED)));
    let rest = Num::of(ONE).fsub(unit(tail.score));
    risk::lemma_complement(unit(tail.score));
    let v1 = Num::of(OQ_W_EV).fmul(norm_ev);
    let v2 = Num::of(OQ_W_PCAL).fmul(unit(gate.p_cal));
    let v3 = Num::of(OQ_W_TAIL).fmul(rest);
    let v4 = Num::of(OQ_W_LIQ).fmul(norm_liq);
    let v5 = Num::of(OQ_W_TRUST).fmul(unit(trust.score));
    let v6 = Num::of(OQ_W_SAMPLE).fmul(unit(q.sample_strength));
    let v7 = Num::of(OQ_W_REGIME).fmul(unit(q.regime_stability));
    algebra::lemma_weighted(Num::of(OQ_W_EV), norm_ev);
    algebra::lemma_weighted(Num::of(OQ_W_PCAL), unit(gate.p_cal));
    algebra::lemma_weighted(Num::of(OQ_W_TAIL), rest);
    algebra::lemma_weighted(Num::of(OQ_W_LIQ), norm_liq);
    algebra::lemma_weighted(Num::of(OQ_W_TRUST), unit(trust.score));
    algebra::lemma_weighted(Num::of(OQ_W_SAMPLE), unit(q.sample_strength));
    algebra::lemma_weighted(Num::of(OQ_W_REGIME), unit(q.regime_stability));
    algebra::lemma_add_finite(v1, v2);
    algebra::lemma_add_finite(v1.fadd(v2), v3);
    algebra::lemma_add_finite(v1.fadd(v2).fadd(v3), v4);
    algebra::lemma_add_finite(v1.fadd(v2).fadd(v3).fadd(v4), v5);
    algebra::lemma_add_finite(v1.fadd(v2).fadd(v3).fadd(v4).fadd(v5), v6);
    algebra::lemma_add_finite(v1.fadd(v2).fadd(v3).fadd(v4).fadd(v5).fadd(v6), v7);
}

impl GateInputs {
    /// Whether an open position is no longer valid.
    pub open spec fn invalidated(self) -> bool {
        ||| self.thesis_stability.flt(Num::of(GATE_STABILITY_FLOOR))
        ||| self.p_cal.flt(Num::of(GATE_PCAL_FLOOR))
        ||| self.ev.flt(Num::of(ZERO))
        ||| self.liquidity.flt(Num::of(GATE_LIQ_FLOOR_OPEN))
        ||| self.trust.flt(Num::of(GATE_TRUST_FLOOR_OPEN))
    }

    /// Whether an open position is degraded.
    pub open spec fn degraded(self) -> bool {
        ||| self.thesis_stability.flt(Num::of(GATE_STABILITY_REDUCE))
        ||| Num::of(GATE_TAIL_MAX).flt(self.tail_risk)
        ||| self.dealer01.flt(Num::of(GATE_DEALER_REDUCE))
    }

    /// Words, value and outcome of each entry condition.
    pub open spec fn checklist(self) -> Seq<(Seq<char>, Num, bool)> {
        seq![
            ("ev > 0"@, self.ev, Num::of(ZERO).flt(self.ev)),
            ("p_cal > 0.62"@, self.p_cal, Num::of(GATE_PCAL_BUY).flt(self.p_cal)),
            ("r:r > 1.50"@, self.reward_risk, Num::of(GATE_RR_MIN).flt(self.reward_risk)),
            ("tail <= 0.70"@, self.tail_risk, self.tail_risk.fle(Num::of(GATE_TAIL_MAX))),
            ("liq >= 60"@, self.liquidity, Num::of(GATE_LIQ_BUY).fle(self.liquidity)),
            (
                "n >= 30"@,
                Num::whole(false, self.n_samples as nat),
                self.n_samples >= GATE_SAMPLE_MIN,
            ),
            ("trust >= 0.40"@, self.trust, Num::of(GATE_TRUST_BUY).fle(self.trust)),
            ("dealer01 >= 0.60"@, self.dealer01, Num::of(GATE_DEALER_BUY).fle(self.dealer01)),
        ]
    }

    /// Whether every entry condition passes.
    pub open spec fn all_pass(self) -> bool {
        forall|i: int| 0 <= i < self.checklist().len() ==> (#[trigger] self.checklist()[i]).2
    }

    /// What to do.
    pub open spec fn action(self) -> DecisionAction {
        if self.position_open {
            if self.invalidated() {
                DecisionAction::Exit
            } else if self.degraded() {
                DecisionAction::Reduce
            } else {
                DecisionAction::Hold
            }
        } else if self.all_pass() {
            DecisionAction::Enter
        } else {
            DecisionAction::Wait
        }
    }
}

impl Condition {
    /// Whether a condition has the given parts.
    pub open spec fn is(self, parts: (Seq<char>, Num, bool)) -> bool {
        self.label@ == parts.0 && self.value == parts.1 && self.pass == parts.2
    }
}

fn cond(label: &str, value: Num, pass: bool) -> (r: Condition)
    ensures
        r.is((label@, value, pass)),
{
    Condition { label: label.to_owned(), value, pass }
}

/// Makes the decision.  The opportunity is active when the entry checklist
/// passes in full.
pub fn decision_gate(gate: &GateInputs, quality_score: Num) -> (r: DecisionReadout)
    ensures
        r.opportunity == (Readout {
            state: if gate.all_pass() {
                BinaryState::Active
            } else {
                BinaryState::Inactive
            },
            score: quality_score,
        }),
        r.action == gate.action(),
        r.quality == quality_score,
        r.conditions@.len() == gate.checklist().len(),
        forall|i: int|
            0 <= i < gate.checklist().len() ==> (#[trigger] r.conditions@[i]).is(
                gate.checklist()[i],
            ),
{
    let zero = Num::of(ZERO);
    let invalidated = gate.thesis_stability < Num::of(GATE_STABILITY_FLOOR) || gate.p_cal
        < Num::of(GATE_PCAL_FLOOR) || gate.ev < zero || gate.liquidity < Num::of(
        GATE_LIQ_FLOOR_OPEN,
    ) || gate.trust < Num::of(GATE_TRUST_FLOOR_OPEN);
    let ev_ok = gate.ev > zero;
    let p_ok = gate.p_cal > Num::of(GATE_PCAL_BUY);
    let rr_ok = gate.reward_risk > Num::of(GATE_RR_MIN);
    let tail_ok = gate.tail_risk <= Num::of(GATE_TAIL_MAX);
    let liq_ok = gate.liquidity >= Num::of(GATE_LIQ_BUY);
    let n_ok = gate.n_samples >= GATE_SAMPLE_MIN;
    let trust_ok = gate.trust >= Num::of(GATE_TRUST_BUY);
    let dealer_ok = gate.dealer01 >= Num::of(GATE_DEALER_BUY);
    let mut conditions: Vec<Condition> = Vec::new();
    conditions.push(cond("ev > 0", gate.ev, ev_ok));
    conditions.push(cond("p_cal > 0.62", gate.p_cal, p_ok));
    conditions.push(cond("r:r > 1.50", gate.reward_risk, rr_ok));
    conditions.push(cond("tail <= 0.70", gate.tail_risk, tail_ok));
    conditions.push(cond("liq >= 60", gate.liquidity, liq_ok));
    conditions.push(cond("n >= 30", Num::from_u64(gate.n_samples), n_ok));
    conditions.push(cond("trust >= 0.40", gate.trust, trust_ok));
    conditions.push(cond("dealer01 >= 0.60", gate.dealer01, dealer_ok));
    let all_pass = ev_ok && p_ok && rr_ok && tail_ok && liq_ok && n_ok && trust_ok && dealer_ok;
    proof {
        let list = gate.checklist();
        assert(all_pass == (list[0].2 && list[1].2 && list[2].2 && list[3].2 && list[4].2
            && list[5].2 && list[6].2 && list[7].2));
        assert(all_pass == gate.all_pass());
    }
    let action = if gate.position_open {
        if invalidated {
            DecisionAction::Exit
        } else if gate.thesis_stability < Num::of(GATE_STABILITY_REDUCE) || gate.tail_risk
            > Num::of(GATE_TAIL_MAX) || gate.dealer01 < Num::of(GATE_DEALER_REDUCE) {
            DecisionAction::Reduce
        } else {
            DecisionAction::Hold
        }
    } else if all_pass {
        DecisionAction::Enter
    } else {
        DecisionAction::Wait
    };
    let state = if all_pass {
        BinaryState::Active
    } else {
        BinaryState::Inactive
    };
    DecisionReadout {
        opportunity: Readout { state, score: quality_score },
        action,
        quality: quality_score,
        conditions,
    }
}

/// Without a position, the decision says to enter exactly when the opportunity is
/// active, and never manages a position that is not there.
pub proof fn law_enter_means_opportunity(gate: GateInputs)
    requires
        !gate.position_open,
    ensures
        gate.action() is Enter <==> gate.all_pass(),
        gate.action() is Enter || gate.action() is Wait,
{
}

/// An open position is managed: held, reduced or left, never entered again;
/// an invalid one is always left.
pub proof fn law_open_position_is_managed(gate: GateInputs)
    requires
        gate.position_open,
    ensures
        gate.action() is Hold || gate.action() is Reduce || gate.action() is Exit,
        gate.invalidated() <==> gate.action() is Exit,
{
}

/// Any one of five failings invalidates an open position, and nothing else
/// does: a thesis stability below 40, a calibrated probability below 0.5, a
/// negative expected value, a liquidity below 30 or a trust below 0.2.  One
/// that is left is neither held nor reduced.
pub proof fn law_each_invalidation_forces_the_exit(gate: GateInputs)
    requires
        gate.position_open,
    ensures
        gate.action() is Exit <==> {
            ||| gate.thesis_stability.flt(decimal(40, 1))
            ||| gate.p_cal.flt(decimal(1, 2))
            ||| gate.ev.flt(Num::of(ZERO))
            ||| gate.liquidity.flt(decimal(30, 1))
            ||| gate.trust.flt(decimal(1, 5))
        },
{
    lemma2_to64_rest();
    decimal::lemma_decimal(GATE_STABILITY_FLOOR, 40, 1, 47);
    decimal::lemma_decimal(GATE_PCAL_FLOOR, 1, 2, 53);
    decimal::lemma_decimal(GATE_LIQ_FLOOR_OPEN, 30, 1, 48);
    decimal::lemma_decimal(GATE_TRUST_FLOOR_OPEN, 1, 5, 55);
}

/// A valid open position is reduced on a thesis stability below 70, a tail risk
/// above 0.7 or a dealer positioning below 0.5, and held otherwise.
pub proof fn law_each_degradation_trims_the_position(gate: GateInputs)
    requires
        gate.position_open,
        !(gate.action() is Exit),
    ensures
        gate.action() is Reduce <==> {
            ||| gate.thesis_stability.flt(decimal(70, 1))
            ||| decimal(7, 10).flt(gate.tail_risk)
            ||| gate.dealer01.flt(decimal(1, 2))
        },
        gate.action() is Hold <==> !(gate.action() is Reduce),
{
    lemma2_to64_rest();
    decimal::lemma_decimal(GATE_STABILITY_REDUCE, 70, 1, 46);
    decimal::lemma_decimal(GATE_TAIL_MAX, 7, 10, 53);
    decimal::lemma_decimal(GATE_DEALER_REDUCE, 1, 2, 53);
}

/// Without a position, the decision says to enter exactly where all eight hold:
/// a positive expected value, a calibrated probability above 0.62, a reward to
/// risk above 1.5, a tail risk up to 0.7, a liquidity from 60 on, thirty similar
/// trades, a trust from 0.4 on and a dealer positioning from 0.6 on.
pub proof fn law_entry_takes_all_conditions(gate: GateInputs)
    requires
        !gate.position_open,
    ensures
        gate.action() is Enter <==> {
            &&& Num::of(ZERO).flt(gate.ev)
            &&& decimal(31, 50).flt(gate.p_cal)
            &&& decimal(3, 2).flt(gate.reward_risk)
            &&& gate.tail_risk.fle(decimal(7, 10))
            &&& decimal(60, 1).fle(gate.liquidity)
            &&& gate.n_samples >= 30
            &&& decimal(2, 5).fle(gate.trust)
            &&& decimal(3, 5).fle(gate.dealer01)
        },
{
    lemma2_to64_rest();
    decimal::lemma_decimal(GATE_TAIL_MAX, 7, 10, 53);
    decimal::lemma_decimal(GATE_PCAL_BUY, 31, 50, 53);
    decimal::lemma_decimal(GATE_RR_MIN, 3, 2, 52);
    decimal::lemma_decimal(GATE_LIQ_BUY, 60, 1, 47);
    decimal::lemma_decimal(GATE_TRUST_BUY, 2, 5, 54);
    decimal::lemma_decimal(GATE_DEALER_BUY, 3, 5, 53);
    let list = gate.checklist();
    assert(gate.all_pass() == (list[0].2 && list[1].2 && list[2].2 && list[3].2 && list[4].2
        && list[5].2 && list[6].2 && list[7].2));
}

/// A weight times a share.
proof fn lemma_points(w: Num, x: real, v: Num, y: real)
    requires
        w.finite(),
        w.exact() == x,
        1real <= x <= 25real,
        v.finite(),
        0real <= y <= 1real,
        exact::rabs(v.exact() - y) <= 17_000real * exact::eps(),
    ensures
        close(w.fmul(v), x * y, 17_003real, x),
{
    lemma2_to64_rest();
    lemma_pow2_strictly_increases(53, 400);
    closeness::lemma_close_self(w, x);
    assert((17_000real * exact::eps()) * 1real == 17_000real * exact::eps());
    closeness::lemma_product(w, x, v, y, 0real, 17_000real, x, 1real);
    assert(x * 1real == x);
}

/// Opportunity quality is worth, up to rounding, 25 points of expected value (in
/// full at 0.3), 20 of the calibrated probability, 15 of what the tail risk
/// leaves, 15 of liquidity (in full at 100), 10 of trust, 10 of the sample and 5
/// of the regime's stability.
pub proof fn law_quality_is_the_worth_of_its_parts(
    gate: GateInputs,
    q: QualityInputs,
    liquidity: LiquidityScore,
    trust: ModelTrust,
    tail: TailRisk,
)
    requires
        gate.ev.finite() && exact::rabs(gate.ev.exact()) <= 1000real,
        liquidity.total.finite() && exact::rabs(liquidity.total.exact()) <= 1000real,
        gate.p_cal.finite(),
        tail.score.finite(),
        trust.score.finite(),
        q.sample_strength.finite(),
        q.regime_stability.finite(),
    ensures
        ({
            let x = 25real * share(gate.ev.exact() / (3real / 10real)) + 20real * share(
                gate.p_cal.exact(),
            ) + 15real * (1real - share(tail.score.exact())) + 15real * share(
                liquidity.total.exact() / 100real,
            ) + 10real * share(trust.score.exact()) + 10real * share(q.sample_strength.exact())
                + 5real * share(q.regime_stability.exact());
            let r = quality_of(gate, q, liquidity, trust, tail);
            r.finite() && exact::rabs(r.exact() - x) <= 1_710_000real * exact::eps()
        }),
{
    let (floor, ceiling) = (Num::of(EV_FLOOR), Num::of(EV_CEILING));
    let (zero, one, hundred) = (Num::of(ZERO), Num::of(ONE), Num::of(HUNDRED));
    let e = exact::eps();
    lemma2_to64_rest();
    lemma_pow2_strictly_increases(53, 400);
    decimal::lemma_decimal(EV_CEILING, 3, 10, 54);
    decimal::lemma_decimal(OQ_W_EV, 25, 1, 48);
    decimal::lemma_decimal(OQ_W_PCAL, 20, 1, 48);
    decimal::lemma_decimal(OQ_W_TAIL, 15, 1, 49);
    decimal::lemma_decimal(OQ_W_LIQ, 15, 1, 49);
    decimal::lemma_decimal(OQ_W_TRUST, 10, 1, 49);
    decimal::lemma_decimal(OQ_W_SAMPLE, 10, 1, 49);
    decimal::lemma_decimal(OQ_W_REGIME, 5, 1, 50);
    decimal::lemma_decimal(HUNDRED, 100, 1, 46);
    decimal::lemma_decimal(ONE, 1, 1, 52);
    algebra::law_add_zero(gate.ev);
    algebra::law_add_zero(ceiling);
    let (ev, liq) = (gate.ev.exact(), liquidity.total.exact());
    closeness::lemma_close_self(gate.ev, 1000real);
    closeness::lemma_close_self(liquidity.total, 1000real);
    closeness::lemma_quotient(gate.ev, ev, ceiling, 3real / 10real, 0real, 1000real, 4000real);
    closeness::lemma_quotient(liquidity.total, liq, hundred, 100real, 0real, 1000real, 10real);
    let (a, b) = (gate.ev.fdiv(ceiling), liquidity.total.fdiv(hundred));
    worth::lemma_share(a, ev / (3real / 10real), 17_000real * e);
    worth::lemma_share(b, liq / 100real, 17_000real * e);
    worth::lemma_share(gate.p_cal, gate.p_cal.exact(), 17_000real * e);
    worth::lemma_share(tail.score, tail.score.exact(), 0real);
    worth::lemma_share(trust.score, trust.score.exact(), 17_000real * e);
    worth::lemma_share(q.sample_strength, q.sample_strength.exact(), 17_000real * e);
    worth::lemma_share(q.regime_stability, q.regime_stability.exact(), 17_000real * e);
    let t = unit(tail.score);
    risk::lemma_complement(t);
    let rest = one.fsub(t);
    exact::lemma_exact_neg(t);
    exact::lemma_exact_add(one, t.fneg());
    exact::lemma_times(exact::rabs(1real - t.exact()), 1real, e);
    let (y1, y2, y3, y4) = (
        share(ev / (3real / 10real)),
        share(gate.p_cal.exact()),
        1real - share(tail.score.exact()),
        share(liq / 100real),
    );
    let (y5, y6, y7) = (
        share(trust.score.exact()),
        share(q.sample_strength.exact()),
        share(q.regime_stability.exact()),
    );
    let (v1, v2, v3, v4) = (
        Num::of(OQ_W_EV).fmul(unit(a)),
        Num::of(OQ_W_PCAL).fmul(unit(gate.p_cal)),
        Num::of(OQ_W_TAIL).fmul(rest),
        Num::of(OQ_W_LIQ).fmul(unit(b)),
    );
    let (v5, v6, v7) = (
        Num::of(OQ_W_TRUST).fmul(unit(trust.score)),
        Num::of(OQ_W_SAMPLE).fmul(unit(q.sample_strength)),
        Num::of(OQ_W_REGIME).fmul(unit(q.regime_stability)),
    );
    lemma_points(Num::of(OQ_W_EV), 25real, unit(a), y1);
    lemma_points(Num::of(OQ_W_PCAL), 20real, unit(gate.p_cal), y2);
    lemma_points(Num::of(OQ_W_TAIL), 15real, rest, y3);
    lemma_points(Num::of(OQ_W_LIQ), 15real, unit(b), y4);
    lemma_points(Num::of(OQ_W_TRUST), 10real, unit(trust.score), y5);
    lemma_points(Num::of(OQ_W_SAMPLE), 10real, unit(q.sample_strength), y6);
    lemma_points(Num::of(OQ_W_REGIME), 5real, unit(q.regime_stability), y7);
    let k = 17_003real;
    let (x1, x2, x3, x4) = (25real * y1, 20real * y2, 15real * y3, 15real * y4);
    let (x5, x6, x7) = (10real * y5, 10real * y6, 5real * y7);
    closeness::lemma_sum(v1, x1, v2, x2, k, 25real, 20real);
    let (s2, z2) = (v1.fadd(v2), x1 + x2);
    closeness::lemma_close_more(v3, x3, k, k + 2real, 15real, 15real);
    closeness::lemma_sum(s2, z2, v3, x3, k + 2real, 45real, 15real);
    let (s3, z3) = (s2.fadd(v3), z2 + x3);
    closeness::lemma_close_more(v4, x4, k, k + 4real, 15real, 15real);
    closeness::lemma_sum(s3, z3, v4, x4, k + 4real, 60real, 15real);
    let (s4, z4) = (s3.fadd(v4), z3 + x4);
    closeness::lemma_close_more(v5, x5, k, k + 6real, 10real, 10real);
    closeness::lemma_sum(s4, z4, v5, x5, k + 6real, 75real, 10real);
    let (s5, z5) = (s4.fadd(v5), z4 + x5);
    closeness::lemma_close_more(v6, x6, k, k + 8real, 10real, 10real);
    closeness::lemma_sum(s5, z5, v6, x6, k + 8real, 85real, 10real);
    let (s6, z6) = (s5.fadd(v6), z5 + x6);
    closeness::lemma_close_more(v7, x7, k, k + 10real, 5real, 5real);
    closeness::lemma_sum(s6, z6, v7, x7, k + 10real, 95real, 5real);
    let s7 = s6.fadd(v7);
    exact::lemma_exact_zero(zero);
    exact::lemma_exact_order(s7, zero);
    exact::lemma_exact_order(hundred, s7);
}

/// Log drift of a touch probability: none, or the drift less half the variance.
pub open spec fn log_drift(sigma: Num, drift: Option<Num>) -> Num {
    match drift {
        None => Num::of(ZERO),
        Some(rq) => rq.fsub(sigma.fmul(sigma).fdiv(Num::of(TWO))),
    }
}

/// Log drift of a touch probability, at which the machine's terms are taken.
pub fn touch_drift(sigma: Num, drift: Option<Num>) -> (r: Num)
    ensures
        r == log_drift(sigma, drift),
{
    match drift {
        None => Num::of(ZERO),
        Some(rq) => rq - sigma * sigma / Num::of(TWO),
    }
}

/// Probability of touching a barrier before `tau` years pass; driftless unless
/// a drift is given.
pub fn barrier_touch_prob(
    spot: Num,
    k: Num,
    sigma: Num,
    tau: Num,
    drift: Option<Num>,
    t: &TouchTerms,
) -> (r: Num)
    ensures
        r == first_passage::touch_chance(spot, k, sigma, tau, log_drift(sigma, drift), *t),
{
    let nu = touch_drift(sigma, drift);
    first_passage::gbm_touch_probability(spot, k, sigma, tau, nu, t)
}

/// Where the search for the spot of a target premium stands.
#[derive(Debug, Clone, Copy, PartialEq)]
pub enum SpotSearch {
    /// Wants the price at the lower end.
    Low,
    /// Wants the price at the upper end; the lower one misses by `f_lo`.
    High { f_lo: Num },
    /// Bisection of `[lo, hi]`, with `left` steps to go.
    Bisect { lo: Num, hi: Num, f_lo: Num, left: u32 },
    /// The search ended with this spot.
    Found(Num),
    /// The target cannot be reached.
    Unreachable,
}

impl SpotSearch {
    /// The middle of an interval.
    pub open spec fn middle(lo: Num, hi: Num) -> Num {
        Num::of(HALF).fmul(lo.fadd(hi))
    }

    /// The spot at which the next price is wanted.
    pub open spec fn wanted(self, inputs: BsInputs) -> Option<Num> {
        match self {
            SpotSearch::Low => Some(Num::of(INVERT_SPOT_LO)),
            SpotSearch::High { .. } => Some(Num::of(INVERT_SPOT_HI_MULT).fmul(inputs.spot)),
            SpotSearch::Bisect { lo, hi, .. } => Some(SpotSearch::middle(lo, hi)),
            _ => None,
        }
    }

    /// The contract whose price is wanted next, until the search has ended.
    pub fn probe(&self, inputs: &BsInputs) -> (r: Option<BsInputs>)
        ensures
            r == (match self.wanted(*inputs) {
                Some(s) => Some(BsInputs { spot: s, ..*inputs }),
                None => None,
            }),
    {
        match *self {
            SpotSearch::Low => Some(BsInputs { spot: Num::of(INVERT_SPOT_LO), ..*inputs }),
            SpotSearch::High { .. } => Some(
                BsInputs { spot: Num::of(INVERT_SPOT_HI_MULT) * inputs.spot, ..*inputs },
            ),
            SpotSearch::Bisect { lo, hi, .. } => Some(
                BsInputs { spot: Num::of(HALF) * (lo + hi), ..*inputs },
            ),
            _ => None,
        }
    }

    /// Steps that are left at most.
    pub open spec fn steps_left(self) -> nat {
        match self {
            SpotSearch::Low => 2 + INVERT_MAX_ITER as nat,
            SpotSearch::High { .. } => 1 + INVERT_MAX_ITER as nat,
            SpotSearch::Bisect { left, .. } => left as nat,
            _ => 0,
        }
    }

    /// What follows once the price at the wanted spot misses the target by `f`.
    pub open spec fn after(self, inputs: BsInputs, f: Num) -> SpotSearch {
        match self {
            SpotSearch::Low => SpotSearch::High { f_lo: f },
            SpotSearch::High { f_lo } => if Num::of(ZERO).flt(f_lo.fmul(f)) {
                SpotSearch::Unreachable
            } else {
                SpotSearch::Bisect {
                    lo: Num::of(INVERT_SPOT_LO),
                    hi: Num::of(INVERT_SPOT_HI_MULT).fmul(inputs.spot),
                    f_lo,
                    left: INVERT_MAX_ITER,
                }
            },
            SpotSearch::Bisect { lo, hi, f_lo, left } => {
                let mid = SpotSearch::middle(lo, hi);
                if f.fabs().flt(Num::of(INVERT_TOL)) || hi.fsub(lo).flt(Num::of(INVERT_TOL)) || left
                    <= 1 {
                    SpotSearch::Found(mid)
                } else if Num::of(ZERO).flt(f.fmul(f_lo)) {
                    SpotSearch::Bisect { lo: mid, hi, f_lo: f, left: (left - 1) as u32 }
                } else {
                    SpotSearch::Bisect { lo, hi: mid, f_lo, left: (left - 1) as u32 }
                }
            },
            other => other,
        }
    }

    /// Takes one step, given the machine's terms of the wanted contract.
    pub fn advance(
        &self,
        target_premium: Num,
        inputs: &BsInputs,
        right: OptionRight,
        t: &BsTerms,
    ) -> (r: SpotSearch)
        ensures
            match self.wanted(*inputs) {
                Some(s) => {
                    let at = BsInputs { spot: s, ..*inputs };
                    if at.in_domain() {
                        r == self.after(*inputs, at.value(right, *t).fsub(target_premium))
                    } else {
                        r == SpotSearch::Unreachable
                    }
                },
                None => r == *self,
            },
    {
        let at = match self.probe(inputs) {
            Some(at) => at,
            None => return *self,
        };
        let f = match black_scholes::price(&at, right, t) {
            Ok(p) => p - target_premium,
            Err(_) => return SpotSearch::Unreachable,
        };
        match *self {
            SpotSearch::Low => SpotSearch::High { f_lo: f },
            SpotSearch::High { f_lo } => if f_lo * f > Num::of(ZERO) {
                SpotSearch::Unreachable
            } else {
                SpotSearch::Bisect {
                    lo: Num::of(INVERT_SPOT_LO),
                    hi: at.spot,
                    f_lo,
                    left: INVERT_MAX_ITER,
                }
            },
            SpotSearch::Bisect { lo, hi, f_lo, left } => {
                let mid = at.spot;
                if f.abs() < Num::of(INVERT_TOL) || hi - lo < Num::of(INVERT_TOL) || left <= 1 {
                    SpotSearch::Found(mid)
                } else if f * f_lo > Num::of(ZERO) {
                    SpotSearch::Bisect { lo: mid, hi, f_lo: f, left: left - 1 }
                } else {
                    SpotSearch::Bisect { lo, hi: mid, f_lo, left: left - 1 }
                }
            },
            other => other,
        }
    }

    /// The spot that was found.
    pub open spec fn outcome(self) -> Option<Num> {
        match self {
            SpotSearch::Found(s) => Some(s),
            _ => None,
        }
    }

    /// The spot that was found, if the search has ended with one.
    pub fn found(&self) -> (r: Option<Num>)
        ensures
            r == self.outcome(),
    {
        match *self {
            SpotSearch::Found(s) => Some(s),
            _ => None,
        }
    }
}

/// Starts the search for the spot at which an option has a target premium.  A
/// target that is not positive and finite cannot be reached.
///
/// The search alternates with the machine: `probe` names a contract, the
/// machine evaluates its terms, `advance` takes the next step.
pub fn spot_for_target_premium(target_premium: Num) -> (r: SpotSearch)
    ensures
        r == (if target_premium.fle(Num::of(ZERO)) || !target_premium.finite() {
            SpotSearch::Unreachable
        } else {
            SpotSearch::Low
        }),
{
    if target_premium <= Num::of(ZERO) || !target_premium.is_finite() {
        SpotSearch::Unreachable
    } else {
        SpotSearch::Low
    }
}

/// Every step of the spot search leaves fewer to go, so that it ends.
pub proof fn law_spot_search_ends(s: SpotSearch, inputs: BsInputs, f: Num)
    requires
        s.wanted(inputs) is Some,
        s matches SpotSearch::Bisect { left, .. } ==> left > 0,
    ensures
        s.after(inputs, f).steps_left() < s.steps_left(),
        s.after(inputs, f) matches SpotSearch::Bisect { left, .. } ==> left > 0,
{
}

/// A bisection narrows its interval: the next one lies inside the last, and what
/// is found lies inside too.
pub proof fn law_spot_search_narrows(s: SpotSearch, inputs: BsInputs, f: Num)
    requires
        s matches SpotSearch::Bisect { lo, hi, .. } && lo.fle(hi) && algebra::halvable(lo)
            && algebra::halvable(hi),
    ensures
        match s.after(inputs, f) {
            SpotSearch::Bisect { lo, hi, .. } => s->Bisect_lo.fle(lo) && lo.fle(hi) && hi.fle(
                s->Bisect_hi,
            ),
            SpotSearch::Found(spot) => s->Bisect_lo.fle(spot) && spot.fle(s->Bisect_hi),
            _ => false,
        },
{
    algebra::law_middle_lies_between(s->Bisect_lo, s->Bisect_hi);
}

/// The premium that is aimed for.
pub fn target_premium(entry_premium: Num, target_mult: Num) -> (r: Num)
    ensures
        r == entry_premium.fmul(target_mult),
{
    entry_premium * target_mult
}

/// Probability that an option's premium reaches a target before expiry, with
/// the spot that implies.
///
/// `spot_star` is where the search for `target_premium` ended, `t` the terms of
/// touching it.
pub fn prob_option_hits_target(
    inputs: &BsInputs,
    drift: Option<Num>,
    spot_star: Option<Num>,
    t: &TouchTerms,
) -> (r: (Num, Option<Num>))
    ensures
        r.0 == (match spot_star {
            Some(s) => first_passage::touch_chance(
                inputs.spot,
                s,
                inputs.vol,
                inputs.t_years,
                log_drift(inputs.vol, drift),
                *t,
            ),
            None => Num::of(ZERO),
        }),
        r.1 == spot_star,
{
    match spot_star {
        Some(s) => (
            barrier_touch_prob(inputs.spot, s, inputs.vol, inputs.t_years, drift, t),
            Some(s),
        ),
        None => (Num::of(ZERO), None),
    }
}

} // verus!
