//! Dealer dynamics: vanna, charm, migration, gamma and open-interest flow.
//!
//! Each sub-engine gives a signed score, a descriptive direction, and a
//! readout of whether the flow is in force.  The direction is instantaneous
//! and the readout hysteretic, so inside a band the two may briefly disagree.
//! History lives with the caller: prior aggregates are parameters.

use crate::algebra;
use crate::bounds;
use crate::consts::{ONE, ZERO};
use crate::num::Num;
use crate::state::{BinaryState, HysteresisBand, Readout};
use crate::zones::{self, fin};
use vstd::prelude::*;

verus! {

/// Zero band of the neutral tests (1e-09).
pub const DEALER_EPS: u64 = 0x3E11_2E0B_E826_D695;

/// Vanna change that trends, fraction of net vanna (0.02).
pub const VANNA_TREND_REL_THRESH: u64 = 0x3F94_7AE1_47AE_147B;

/// Centre-of-mass shift that scores 1, fraction of spot (0.01).
pub const MIGRATION_FULL_SCALE_PCT: u64 = 0x3F84_7AE1_47AE_147B;

/// Migration score below which the centre is stable (0.05).
pub const MIGRATION_STABLE_BAND: u64 = 0x3FA9_9999_9999_999A;

/// Gamma velocity that leaves the stable band, fraction of net gamma (0.03).
pub const GAMMA_VEL_REL_THRESH: u64 = 0x3F9E_B851_EB85_1EB8;

/// Least stable band of the open-interest velocity, contracts per minute (1.0).
pub const OI_VEL_ABS_FLOOR: u64 = 0x3FF0_0000_0000_0000;

/// Stable band of the open-interest velocity, fraction of the book (0.005).
pub const OI_VEL_REL_THRESH: u64 = 0x3F74_7AE1_47AE_147B;

/// Least minute delta (1e-06).
pub const DT_MIN_FLOOR: u64 = 0x3EB0_C6F7_A0B5_ED8D;

/// Normalized score at which a flow activates (1.0).
pub const FLOW_ACTIVE_AT: u64 = 0x3FF0_0000_0000_0000;

/// Normalized score at which a flow deactivates (0.85).
pub const FLOW_DEACTIVATE_AT: u64 = 0x3FEB_3333_3333_3333;

/// -1.0.
pub const MINUS_ONE: u64 = 0xBFF0_0000_0000_0000;

/// Band of the relative flow readouts.
#[verifier::allow_in_spec]
pub fn flow_active_band() -> HysteresisBand
    returns
        (HysteresisBand {
            activate_at: Num::of(FLOW_ACTIVE_AT),
            deactivate_at: Num::of(FLOW_DEACTIVATE_AT),
        }),
{
    HysteresisBand::new(Num::of(FLOW_ACTIVE_AT), Num::of(FLOW_DEACTIVATE_AT))
}

/// Band of the magnitude readouts.
#[verifier::allow_in_spec]
pub fn engaged_band() -> HysteresisBand
    returns
        (HysteresisBand { activate_at: Num::of(DEALER_EPS), deactivate_at: Num::of(ZERO) }),
{
    HysteresisBand::new(Num::of(DEALER_EPS), Num::of(ZERO))
}

/// Direction of the vanna velocity.
#[derive(Debug, Clone, Copy, PartialEq, Eq, Structural)]
pub enum TrendDirection {
    /// Score at or above 1.
    Rising,
    /// Score at or below -1.
    Falling,
    /// Within the trend band.
    Flat,
}

/// Vanna hedge-flow direction.
#[derive(Debug, Clone, Copy, PartialEq, Eq, Structural)]
pub enum FlowDirection {
    /// Positive net vanna: falling vol makes dealers buy.
    Supportive,
    /// Negative net vanna: falling vol makes dealers sell.
    Pressuring,
    /// Net vanna within the zero band.
    Neutral,
}

/// Charm bias direction.
#[derive(Debug, Clone, Copy, PartialEq, Eq, Structural)]
pub enum BiasDirection {
    /// Positive net charm.
    Bullish,
    /// Negative net charm.
    Bearish,
    /// Net charm within the zero band.
    Neutral,
}

/// Gamma centre-of-mass migration direction.
#[derive(Debug, Clone, Copy, PartialEq, Eq, Structural)]
pub enum MigrationDirection {
    /// Migrating up.
    Bullish,
    /// Migrating down.
    Bearish,
    /// Within the stable band.
    Stable,
}

/// Gamma hedging direction.
#[derive(Debug, Clone, Copy, PartialEq, Eq, Structural)]
pub enum GammaHedgeDirection {
    /// Net gamma rising.
    AddingHedges,
    /// Net gamma falling.
    RemovingHedges,
    /// Within the stable band.
    Stable,
}

/// Open-interest flow direction.
#[derive(Debug, Clone, Copy, PartialEq, Eq, Structural)]
pub enum OiFlowDirection {
    /// Open interest building.
    Building,
    /// Open interest unwinding.
    Unwinding,
    /// Within the stable band.
    Stable,
}

/// Vanna hedge flow.
#[derive(Debug, Clone, Copy, PartialEq)]
pub struct VannaFlow {
    /// Net dealer vanna.
    pub net: Num,
    /// Change since the prior tick; 0 without one.
    pub velocity: Num,
    /// Velocity over the trend threshold.
    pub trend_score: Num,
    /// Trend direction.
    pub trend: TrendDirection,
    /// Hedge-flow direction.
    pub direction: FlowDirection,
    /// Whether the flow is in force; the score is the absolute net vanna.
    pub engaged: Readout,
}

/// Charm decay.
#[derive(Debug, Clone, Copy, PartialEq)]
pub struct CharmBias {
    /// Net dealer charm per day.
    pub net_per_day: Num,
    /// Absolute charm over its prior maximum, at most 1; 0 without a maximum.
    pub intensity: Num,
    /// Bias direction.
    pub bias: BiasDirection,
    /// Whether the bias is in force; the score is the absolute net charm.
    pub engaged: Readout,
}

/// Gamma centre-of-mass migration.
#[derive(Debug, Clone, Copy, PartialEq)]
pub struct Migration {
    /// Current centre of mass, points.
    pub com_current: Num,
    /// Prior centre of mass; the current one without a prior tick.
    pub com_previous: Num,
    /// Shift since the prior tick, points.
    pub shift: Num,
    /// Shift over one percent of spot, in [-1, 1].
    pub score: Num,
    /// Migration direction.
    pub direction: MigrationDirection,
    /// Whether the centre is migrating.
    pub migrating: Readout,
}

/// Gamma velocity and acceleration.
#[derive(Debug, Clone, Copy, PartialEq)]
pub struct GammaDynamics {
    /// Change of net gamma since the prior tick; 0 without one.
    pub velocity: Num,
    /// Change of the velocity.
    pub acceleration: Num,
    /// Velocity over the stable band.
    pub velocity_score: Num,
    /// Hedging direction.
    pub direction: GammaHedgeDirection,
    /// Whether dealers are adjusting hedges.
    pub hedging_active: Readout,
}

/// Open-interest flow.
#[derive(Debug, Clone, Copy, PartialEq)]
pub struct OiFlow {
    /// Total open interest, contracts.
    pub total_oi: Num,
    /// Contracts per minute.
    pub velocity: Num,
    /// Velocity over the stable band.
    pub velocity_score: Num,
    /// Flow direction.
    pub direction: OiFlowDirection,
    /// Whether open interest is flowing.
    pub flowing: Readout,
}

/// States of the prior tick.
#[derive(Debug, Clone, Copy, PartialEq, Eq, Structural)]
pub struct DealerPrevStates {
    /// Prior vanna state.
    pub vanna: BinaryState,
    /// Prior charm state.
    pub charm: BinaryState,
    /// Prior migration state.
    pub migration: BinaryState,
    /// Prior gamma state.
    pub gamma: BinaryState,
    /// Prior open-interest state.
    pub oi_flow: BinaryState,
}

impl Default for DealerPrevStates {
    /// Cold start: everything inactive.
    fn default() -> (r: DealerPrevStates)
        ensures
            r == (DealerPrevStates {
                vanna: BinaryState::Inactive,
                charm: BinaryState::Inactive,
                migration: BinaryState::Inactive,
                gamma: BinaryState::Inactive,
                oi_flow: BinaryState::Inactive,
            }),
    {
        DealerPrevStates {
            vanna: BinaryState::Inactive,
            charm: BinaryState::Inactive,
            migration: BinaryState::Inactive,
            gamma: BinaryState::Inactive,
            oi_flow: BinaryState::Inactive,
        }
    }
}

/// Combined input to `dealer_dynamics`; prior values are `None` on the first tick.
#[derive(Debug, Clone, Copy, PartialEq)]
pub struct DealerDynamicsInput {
    /// Underlying spot, points.
    pub spot: Num,
    /// Current net dealer gamma.
    pub net_gex: Num,
    /// Current net dealer vanna.
    pub net_vanna: Num,
    /// Current net dealer charm per day.
    pub net_charm: Num,
    /// Current gamma centre of mass, points.
    pub gex_com: Num,
    /// Current total open interest, contracts.
    pub total_oi: Num,
    /// Net gamma of the prior tick.
    pub prev_net_gex: Option<Num>,
    /// Net gamma two ticks ago.
    pub prev2_net_gex: Option<Num>,
    /// Net vanna of the prior tick.
    pub prev_net_vanna: Option<Num>,
    /// Centre of mass of the prior tick.
    pub prev_gex_com: Option<Num>,
    /// Open interest of the prior tick.
    pub prev_total_oi: Option<Num>,
    /// Largest absolute charm of the lookback window; 0 before there is one.
    pub prior_max_abs_charm: Num,
    /// Minutes since the prior tick.
    pub dt_min: Num,
    /// States of the prior tick.
    pub prev_states: DealerPrevStates,
}

/// The five sub-engines resolved together.
#[derive(Debug, Clone, Copy, PartialEq)]
pub struct DealerDynamics {
    /// Vanna hedge flow.
    pub vanna: VannaFlow,
    /// Charm decay.
    pub charm: CharmBias,
    /// Gamma centre-of-mass migration.
    pub migration: Migration,
    /// Gamma velocity and acceleration.
    pub gamma: GammaDynamics,
    /// Open-interest flow.
    pub oi_flow: OiFlow,
}

/// Change since a prior value; 0 without one.
pub open spec fn change_since(now: Num, prev: Option<Num>) -> Num {
    match prev {
        Some(p) => now.fsub(zones::finite_or_zero(p)),
        None => Num::of(ZERO),
    }
}

fn change(now: Num, prev: Option<Num>) -> (r: Num)
    ensures
        r == change_since(now, prev),
{
    match prev {
        Some(p) => now - fin(p),
        None => Num::of(ZERO),
    }
}

/// Inside (-1, 1): neither up nor down.
pub open spec fn within_unit(score: Num) -> bool {
    score.fabs().flt(Num::of(ONE))
}

impl VannaFlow {
    /// The vanna flow of a tick.
    pub open spec fn of_tick(net_vanna: Num, prev: Option<Num>, previous: BinaryState) -> VannaFlow {
        let zero = Num::of(ZERO);
        let net = zones::finite_or_zero(net_vanna);
        let velocity = change_since(net, prev);
        let trend_score = velocity.fdiv(
            Num::of(VANNA_TREND_REL_THRESH).fmul(net.fabs()).fmax(Num::of(DEALER_EPS)),
        );
        VannaFlow {
            net,
            velocity,
            trend_score,
            trend: if within_unit(trend_score) {
                TrendDirection::Flat
            } else if zero.flt(trend_score) {
                TrendDirection::Rising
            } else {
                TrendDirection::Falling
            },
            direction: if net.fabs().flt(Num::of(DEALER_EPS)) {
                FlowDirection::Neutral
            } else if zero.flt(net) {
                FlowDirection::Supportive
            } else {
                FlowDirection::Pressuring
            },
            engaged: Readout::resolved_from(engaged_band(), net.fabs(), previous),
        }
    }
}

/// Vanna hedge-flow sub-engine.
pub fn vanna_flow(net_vanna: Num, prev_net_vanna: Option<Num>, previous: BinaryState) -> (r:
    VannaFlow)
    ensures
        r == VannaFlow::of_tick(net_vanna, prev_net_vanna, previous),
{
    let zero = Num::of(ZERO);
    let net = fin(net_vanna);
    let velocity = change(net, prev_net_vanna);
    let trend_thresh = (Num::of(VANNA_TREND_REL_THRESH) * net.abs()).max(Num::of(DEALER_EPS));
    let trend_score = velocity / trend_thresh;
    let trend = if trend_score.abs() < Num::of(ONE) {
        TrendDirection::Flat
    } else if trend_score > zero {
        TrendDirection::Rising
    } else {
        TrendDirection::Falling
    };
    let direction = if net.abs() < Num::of(DEALER_EPS) {
        FlowDirection::Neutral
    } else if net > zero {
        FlowDirection::Supportive
    } else {
        FlowDirection::Pressuring
    };
    let engaged = Readout::resolve_from(&engaged_band(), net.abs(), previous);
    VannaFlow { net, velocity, trend_score, trend, direction, engaged }
}

impl CharmBias {
    /// The charm bias of a tick.
    pub open spec fn of_tick(net_charm: Num, prior_max: Num, previous: BinaryState) -> CharmBias {
        let zero = Num::of(ZERO);
        let net = zones::finite_or_zero(net_charm);
        let max = zones::finite_or_zero(prior_max);
        CharmBias {
            net_per_day: net,
            intensity: if zero.flt(max) {
                net.fabs().fdiv(max).fmin(Num::of(ONE))
            } else {
                zero
            },
            bias: if net.fabs().flt(Num::of(DEALER_EPS)) {
                BiasDirection::Neutral
            } else if zero.flt(net) {
                BiasDirection::Bullish
            } else {
                BiasDirection::Bearish
            },
            engaged: Readout::resolved_from(engaged_band(), net.fabs(), previous),
        }
    }
}

/// Charm-decay sub-engine.
pub fn charm_bias(net_charm: Num, prior_max_abs_charm: Num, previous: BinaryState) -> (r: CharmBias)
    ensures
        r == CharmBias::of_tick(net_charm, prior_max_abs_charm, previous),
{
    let zero = Num::of(ZERO);
    let net_per_day = fin(net_charm);
    let prior_max = fin(prior_max_abs_charm);
    let intensity = if prior_max > zero {
        (net_per_day.abs() / prior_max).min(Num::of(ONE))
    } else {
        zero
    };
    let bias = if net_per_day.abs() < Num::of(DEALER_EPS) {
        BiasDirection::Neutral
    } else if net_per_day > zero {
        BiasDirection::Bullish
    } else {
        BiasDirection::Bearish
    };
    let engaged = Readout::resolve_from(&engaged_band(), net_per_day.abs(), previous);
    CharmBias { net_per_day, intensity, bias, engaged }
}

impl Migration {
    /// The migration of a tick.
    pub open spec fn of_tick(
        gex_com: Num,
        prev: Option<Num>,
        spot: Num,
        previous: BinaryState,
    ) -> Migration {
        let zero = Num::of(ZERO);
        let now = zones::finite_or_zero(gex_com);
        let before = match prev {
            Some(p) => zones::finite_or_zero(p),
            None => now,
        };
        let shift = now.fsub(before);
        let score = if zero.flt(spot) {
            shift.fdiv(spot.fmul(Num::of(MIGRATION_FULL_SCALE_PCT))).fclamp(
                Num::of(MINUS_ONE),
                Num::of(ONE),
            )
        } else {
            zero
        };
        Migration {
            com_current: now,
            com_previous: before,
            shift,
            score,
            direction: if score.fabs().flt(Num::of(MIGRATION_STABLE_BAND)) {
                MigrationDirection::Stable
            } else if zero.flt(score) {
                MigrationDirection::Bullish
            } else {
                MigrationDirection::Bearish
            },
            migrating: Readout::resolved_from(
                flow_active_band(),
                score.fabs().fdiv(Num::of(MIGRATION_STABLE_BAND)),
                previous,
            ),
        }
    }
}

/// Gamma centre-of-mass migration sub-engine.
pub fn oi_migration(gex_com: Num, prev_gex_com: Option<Num>, spot: Num, previous: BinaryState) -> (r:
    Migration)
    ensures
        r == Migration::of_tick(gex_com, prev_gex_com, spot, previous),
{
    let zero = Num::of(ZERO);
    let com_current = fin(gex_com);
    let com_previous = match prev_gex_com {
        Some(p) => fin(p),
        None => com_current,
    };
    let shift = com_current - com_previous;
    let score = if spot > zero {
        (shift / (spot * Num::of(MIGRATION_FULL_SCALE_PCT))).clamp(
            Num::of(MINUS_ONE),
            Num::of(ONE),
        )
    } else {
        zero
    };
    let direction = if score.abs() < Num::of(MIGRATION_STABLE_BAND) {
        MigrationDirection::Stable
    } else if score > zero {
        MigrationDirection::Bullish
    } else {
        MigrationDirection::Bearish
    };
    let migrating = Readout::resolve_from(
        &flow_active_band(),
        score.abs() / Num::of(MIGRATION_STABLE_BAND),
        previous,
    );
    Migration { com_current, com_previous, shift, score, direction, migrating }
}

impl GammaDynamics {
    /// The gamma dynamics of a tick.
    pub open spec fn of_tick(
        net_gex: Num,
        prev: Option<Num>,
        prev2: Option<Num>,
        previous: BinaryState,
    ) -> GammaDynamics {
        let zero = Num::of(ZERO);
        let net = zones::finite_or_zero(net_gex);
        let velocity = change_since(net, prev);
        let before = match (prev, prev2) {
            (Some(p), Some(p2)) => zones::finite_or_zero(p).fsub(zones::finite_or_zero(p2)),
            _ => zero,
        };
        let score = velocity.fdiv(
            Num::of(GAMMA_VEL_REL_THRESH).fmul(net.fabs()).fmax(Num::of(DEALER_EPS)),
        );
        GammaDynamics {
            velocity,
            acceleration: velocity.fsub(before),
            velocity_score: score,
            direction: if within_unit(score) {
                GammaHedgeDirection::Stable
            } else if zero.flt(score) {
                GammaHedgeDirection::AddingHedges
            } else {
                GammaHedgeDirection::RemovingHedges
            },
            hedging_active: Readout::resolved_from(flow_active_band(), score.fabs(), previous),
        }
    }
}

/// Gamma velocity and acceleration sub-engine; the stable band is purely relative.
pub fn gamma_dynamics(
    net_gex: Num,
    prev_net_gex: Option<Num>,
    prev2_net_gex: Option<Num>,
    previous: BinaryState,
) -> (r: GammaDynamics)
    ensures
        r == GammaDynamics::of_tick(net_gex, prev_net_gex, prev2_net_gex, previous),
{
    let zero = Num::of(ZERO);
    let net = fin(net_gex);
    let velocity = change(net, prev_net_gex);
    let prior_velocity = match (prev_net_gex, prev2_net_gex) {
        (Some(p), Some(p2)) => fin(p) - fin(p2),
        _ => zero,
    };
    let acceleration = velocity - prior_velocity;
    let thresh = (Num::of(GAMMA_VEL_REL_THRESH) * net.abs()).max(Num::of(DEALER_EPS));
    let velocity_score = velocity / thresh;
    let direction = if velocity_score.abs() < Num::of(ONE) {
        GammaHedgeDirection::Stable
    } else if velocity_score > zero {
        GammaHedgeDirection::AddingHedges
    } else {
        GammaHedgeDirection::RemovingHedges
    };
    let hedging_active = Readout::resolve_from(
        &flow_active_band(),
        velocity_score.abs(),
        previous,
    );
    GammaDynamics { velocity, acceleration, velocity_score, direction, hedging_active }
}

impl OiFlow {
    /// The open-interest flow of a tick.
    pub open spec fn of_tick(
        total_oi: Num,
        prev: Option<Num>,
        dt_min: Num,
        previous: BinaryState,
    ) -> OiFlow {
        let zero = Num::of(ZERO);
        let total = zones::finite_or_zero(total_oi).fmax(zero);
        let dt = if dt_min.finite() && Num::of(DT_MIN_FLOOR).flt(dt_min) {
            dt_min
        } else {
            Num::of(DT_MIN_FLOOR)
        };
        let velocity = match prev {
            Some(p) => total.fsub(zones::finite_or_zero(p)).fdiv(dt),
            None => zero,
        };
        let score = velocity.fdiv(
            Num::of(OI_VEL_REL_THRESH).fmul(total).fmax(Num::of(OI_VEL_ABS_FLOOR)),
        );
        OiFlow {
            total_oi: total,
            velocity,
            velocity_score: score,
            direction: if within_unit(score) {
                OiFlowDirection::Stable
            } else if zero.flt(score) {
                OiFlowDirection::Building
            } else {
                OiFlowDirection::Unwinding
            },
            flowing: Readout::resolved_from(flow_active_band(), score.fabs(), previous),
        }
    }
}

/// Open-interest flow sub-engine.
pub fn oi_flow(total_oi: Num, prev_total_oi: Option<Num>, dt_min: Num, previous: BinaryState) -> (r:
    OiFlow)
    ensures
        r == OiFlow::of_tick(total_oi, prev_total_oi, dt_min, previous),
{
    let zero = Num::of(ZERO);
    let total = fin(total_oi).max(zero);
    let dt = if dt_min.is_finite() && dt_min > Num::of(DT_MIN_FLOOR) {
        dt_min
    } else {
        Num::of(DT_MIN_FLOOR)
    };
    let velocity = match prev_total_oi {
        Some(p) => (total - fin(p)) / dt,
        None => zero,
    };
    let thresh = (Num::of(OI_VEL_REL_THRESH) * total).max(Num::of(OI_VEL_ABS_FLOOR));
    let velocity_score = velocity / thresh;
    let direction = if velocity_score.abs() < Num::of(ONE) {
        OiFlowDirection::Stable
    } else if velocity_score > zero {
        OiFlowDirection::Building
    } else {
        OiFlowDirection::Unwinding
    };
    let flowing = Readout::resolve_from(&flow_active_band(), velocity_score.abs(), previous);
    OiFlow { total_oi: total, velocity, velocity_score, direction, flowing }
}

/// Resolves all five sub-engines from one snapshot.
pub fn dealer_dynamics(input: &DealerDynamicsInput) -> (r: DealerDynamics)
    ensures
        r.vanna == VannaFlow::of_tick(
            input.net_vanna,
            input.prev_net_vanna,
            input.prev_states.vanna,
        ),
        r.charm == CharmBias::of_tick(
            input.net_charm,
            input.prior_max_abs_charm,
            input.prev_states.charm,
        ),
        r.migration == Migration::of_tick(
            input.gex_com,
            input.prev_gex_com,
            input.spot,
            input.prev_states.migration,
        ),
        r.gamma == GammaDynamics::of_tick(
            input.net_gex,
            input.prev_net_gex,
            input.prev2_net_gex,
            input.prev_states.gamma,
        ),
        r.oi_flow == OiFlow::of_tick(
            input.total_oi,
            input.prev_total_oi,
            input.dt_min,
            input.prev_states.oi_flow,
        ),
{
    DealerDynamics {
        vanna: vanna_flow(input.net_vanna, input.prev_net_vanna, input.prev_states.vanna),
        charm: charm_bias(input.net_charm, input.prior_max_abs_charm, input.prev_states.charm),
        migration: oi_migration(
            input.gex_com,
            input.prev_gex_com,
            input.spot,
            input.prev_states.migration,
        ),
        gamma: gamma_dynamics(
            input.net_gex,
            input.prev_net_gex,
            input.prev2_net_gex,
            input.prev_states.gamma,
        ),
        oi_flow: oi_flow(
            input.total_oi,
            input.prev_total_oi,
            input.dt_min,
            input.prev_states.oi_flow,
        ),
    }
}

/// On a cold start a vanna or charm flow is in force exactly where it has a
/// direction.
pub proof fn law_cold_bias_matches_direction(net: Num, prev: Option<Num>, prior_max: Num)
    ensures
        ({
            let v = VannaFlow::of_tick(net, prev, BinaryState::Inactive);
            let c = CharmBias::of_tick(net, prior_max, BinaryState::Inactive);
            &&& v.engaged.state is Active <==> v.direction !is Neutral
            &&& c.engaged.state is Active <==> c.bias !is Neutral
        }),
{
}

/// On a cold start a migration is in force exactly where it is not stable,
/// unless its score is not a number.
pub proof fn law_cold_migration_matches_direction(com: Num, prev: Option<Num>, spot: Num)
    ensures
        ({
            let m = Migration::of_tick(com, prev, spot, BinaryState::Inactive);
            !m.score.nan() ==> (m.migrating.state is Active <==> m.direction !is Stable)
        }),
{
    let m = Migration::of_tick(com, prev, spot, BinaryState::Inactive);
    let (s, band) = (m.score.fabs(), Num::of(MIGRATION_STABLE_BAND));
    if !m.score.nan() {
        if s.flt(band) {
            algebra::law_div_below_one(s, band);
        } else {
            algebra::law_div_monotone(band, s, band);
            algebra::law_div_self(band);
            bounds::lemma_power(0);
            bounds::lemma_power(-5);
            bounds::lemma_div_within(s, band, 0, -5);
        }
    }
}

/// On a cold start a gamma or open-interest flow is in force exactly where its
/// direction is not stable, unless the score overflows.
pub proof fn law_cold_flow_matches_direction(
    net: Num,
    prev: Option<Num>,
    prev2: Option<Num>,
    dt_min: Num,
)
    ensures
        ({
            let g = GammaDynamics::of_tick(net, prev, prev2, BinaryState::Inactive);
            let o = OiFlow::of_tick(net, prev, dt_min, BinaryState::Inactive);
            &&& g.velocity_score.finite() ==> (g.hedging_active.state is Active <==> g.direction
                !is Stable)
            &&& o.velocity_score.finite() ==> (o.flowing.state is Active <==> o.direction !is Stable)
        }),
{
}

/// Charm intensity lies between 0 and 1, and is 0 before there is a maximum.
pub proof fn law_charm_intensity_bounded(net: Num, prior_max: Num, previous: BinaryState)
    ensures
        ({
            let c = CharmBias::of_tick(net, prior_max, previous);
            &&& Num::of(ZERO).fle(c.intensity) && c.intensity.fle(Num::of(ONE))
            &&& !Num::of(ZERO).flt(prior_max) ==> c.intensity == Num::of(ZERO)
        }),
{
    let (n, m) = (zones::finite_or_zero(net), zones::finite_or_zero(prior_max));
    if Num::of(ZERO).flt(m) {
        algebra::law_div_antitone(n.fabs(), m, m);
    }
}

/// A migration score that is a number lies between -1 and 1.
pub proof fn law_migration_bounded(com: Num, prev: Option<Num>, spot: Num, previous: BinaryState)
    ensures
        ({
            let m = Migration::of_tick(com, prev, spot, previous);
            m.score.nan() || (Num::of(MINUS_ONE).fle(m.score) && m.score.fle(Num::of(ONE)))
        }),
{
}

/// A first tick has no velocity, whatever it holds.
pub proof fn law_first_tick_is_still(net: Num, com: Num, oi: Num, spot: Num, dt: Num, p: BinaryState)
    ensures
        VannaFlow::of_tick(net, None, p).velocity == Num::of(ZERO),
        GammaDynamics::of_tick(net, None, None, p).velocity == Num::of(ZERO),
        OiFlow::of_tick(oi, None, dt, p).velocity == Num::of(ZERO),
        Migration::of_tick(com, None, spot, p).com_previous == Migration::of_tick(
            com,
            None,
            spot,
            p,
        ).com_current,
{
}

} // verus!
