//! Strike gravity, dealer zones and wall zone-states.
//!
//! A wall is in force while price has not crossed it: its state is resolved
//! from the signed margin on the defended side, in units of the testing band.
//! A score below 0 is a breach, from 0 to 1 the wall is being tested, from 1
//! on it holds.

use crate::algebra;
use crate::bounds;
use crate::consts::{HUNDRED, ONE, ZERO};
use crate::exact;
use crate::num::{Num, NAN_BITS};
use crate::sorting;
use crate::state::{BinaryState, HysteresisBand, Readout};
use crate::sums;
use vstd::prelude::*;

verus! {

/// Default gravity weight of absolute gamma (0.4).
pub const GRAVITY_W_GEX: u64 = 0x3FD9_9999_9999_999A;

/// Default gravity weight of open interest (0.2).
pub const GRAVITY_W_OI: u64 = 0x3FC9_9999_9999_999A;

/// Default gravity weight of volume (0.2).
pub const GRAVITY_W_VOL: u64 = 0x3FC9_9999_9999_999A;

/// Default gravity weight of proximity to spot (0.2).
pub const GRAVITY_W_PROX: u64 = 0x3FC9_9999_9999_999A;

/// Default number of top strikes that are clustered into zones.
pub const GRAVITY_TOP_N: usize = 10;

/// Proximity decay scale, fraction of spot (0.04).
pub const GRAVITY_PROXIMITY_SCALE: u64 = 0x3FA4_7AE1_47AE_147B;

/// Half-width of the at-the-money band, fraction of spot (0.001).
pub const GRAVITY_ATM_BAND_PCT: u64 = 0x3F50_624D_D2F1_A9FC;

/// Quantile of the strike gaps that estimates the step (0.25).
pub const STRIKE_STEP_QUANTILE: u64 = 0x3FD0_0000_0000_0000;

/// Strike step without positive gaps, fraction of spot (0.005).
pub const STRIKE_STEP_FALLBACK_PCT: u64 = 0x3F74_7AE1_47AE_147B;

/// Strike steps within which strikes cluster (2.5).
pub const ZONE_GAP_STEP_MULT: u64 = 0x4004_0000_0000_0000;

/// Least zone gap, fraction of spot (0.001).
pub const ZONE_GAP_MIN_PCT: u64 = 0x3F50_624D_D2F1_A9FC;

/// Divisor of the cluster score without gravity (1.0).
pub const TOTAL_GRAVITY_FLOOR: u64 = 0x3FF0_0000_0000_0000;

/// Testing band of a wall, fraction of spot (0.005).
pub const WALL_TESTING_BAND_PCT: u64 = 0x3F74_7AE1_47AE_147B;

/// Score at which a wall is in force (0.0).
pub const WALL_ACTIVATE_AT_SCORE: u64 = 0x0000_0000_0000_0000;

/// Score at which a wall in force is given up (-0.1).
pub const WALL_DEACTIVATE_AT_SCORE: u64 = 0xBFB9_9999_9999_999A;

/// Band that resolves the zone-state of a wall.
#[verifier::allow_in_spec]
pub fn wall_zone_band() -> HysteresisBand
    returns
        (HysteresisBand {
            activate_at: Num::of(WALL_ACTIVATE_AT_SCORE),
            deactivate_at: Num::of(WALL_DEACTIVATE_AT_SCORE),
        }),
{
    HysteresisBand::new(Num::of(WALL_ACTIVATE_AT_SCORE), Num::of(WALL_DEACTIVATE_AT_SCORE))
}

/// Which side of the book a strike sits on relative to spot.
#[derive(Debug, Clone, Copy, PartialEq, Eq, Structural)]
pub enum GravitySide {
    /// Below spot.
    Support,
    /// Above spot.
    Resistance,
    /// Within the at-the-money band.
    Atm,
}

/// Which side of spot a clustered zone occupies.
#[derive(Debug, Clone, Copy, PartialEq, Eq, Structural)]
pub enum ZoneSide {
    /// Entire zone below spot.
    Support,
    /// Entire zone above spot.
    Resistance,
    /// Zone straddles spot.
    Straddle,
}

/// Which dealer wall a zone-state describes.
#[derive(Debug, Clone, Copy, PartialEq, Eq, Structural)]
pub enum WallKind {
    /// Intact while its strike is at or above spot.
    Call,
    /// Intact while its strike is at or below spot.
    Put,
}

/// One strike's raw inputs to the gravity map.
#[derive(Debug, Clone, Copy, PartialEq)]
pub struct GravityStrikeInput {
    /// Strike price, points.
    pub strike: Num,
    /// Signed net dealer gamma exposure.
    pub net_gex: Num,
    /// Call open interest, contracts.
    pub call_oi: Num,
    /// Put open interest, contracts.
    pub put_oi: Num,
    /// Call volume, contracts.
    pub call_volume: Num,
    /// Put volume, contracts.
    pub put_volume: Num,
}

/// Gravity weights, normalized.
#[derive(Debug, Clone, Copy, PartialEq)]
pub struct GravityWeights {
    /// Weight of the gamma axis.
    pub gex: Num,
    /// Weight of the open-interest axis.
    pub oi: Num,
    /// Weight of the volume axis.
    pub volume: Num,
    /// Weight of the proximity axis.
    pub proximity: Num,
}

/// Gravity configuration.
#[derive(Debug, Clone, Copy, PartialEq)]
pub struct GravityConfig {
    /// Raw weight of the gamma axis.
    pub w_gex: Num,
    /// Raw weight of the open-interest axis.
    pub w_oi: Num,
    /// Raw weight of the volume axis.
    pub w_volume: Num,
    /// Raw weight of the proximity axis, always kept.
    pub w_proximity: Num,
    /// Number of top strikes to rank and cluster.
    pub top_n: usize,
    /// Proximity decay scale as a fraction of spot.
    pub proximity_scale: Num,
}

impl Default for GravityConfig {
    fn default() -> (r: GravityConfig)
        ensures
            r == (GravityConfig {
                w_gex: Num::of(GRAVITY_W_GEX),
                w_oi: Num::of(GRAVITY_W_OI),
                w_volume: Num::of(GRAVITY_W_VOL),
                w_proximity: Num::of(GRAVITY_W_PROX),
                top_n: GRAVITY_TOP_N,
                proximity_scale: Num::of(GRAVITY_PROXIMITY_SCALE),
            }),
    {
        GravityConfig {
            w_gex: Num::of(GRAVITY_W_GEX),
            w_oi: Num::of(GRAVITY_W_OI),
            w_volume: Num::of(GRAVITY_W_VOL),
            w_proximity: Num::of(GRAVITY_W_PROX),
            top_n: GRAVITY_TOP_N,
            proximity_scale: Num::of(GRAVITY_PROXIMITY_SCALE),
        }
    }
}

/// One scored strike in the gravity map.
#[derive(Debug, Clone, Copy, PartialEq)]
pub struct GravityStrike {
    /// Strike price, points.
    pub strike: Num,
    /// Weighted blend of the four axes.
    pub gravity_score: Num,
    /// Signed net dealer gamma exposure.
    pub net_gex: Num,
    /// Signed distance from spot as a fraction.
    pub distance_pct: Num,
    /// Gamma relative to the largest.
    pub gex_weight: Num,
    /// Open interest relative to the largest.
    pub oi_weight: Num,
    /// Volume relative to the largest.
    pub volume_weight: Num,
    /// Proximity to spot.
    pub proximity_weight: Num,
    /// Side relative to spot.
    pub side: GravitySide,
}

/// A contiguous band of strikes.
#[derive(Debug, Clone, Copy, PartialEq)]
pub struct GravityZone {
    /// Lowest strike in the zone, points.
    pub lo: Num,
    /// Highest strike in the zone, points.
    pub hi: Num,
    /// Net gamma summed over the zone.
    pub net_gex: Num,
    /// Gravity summed over the zone.
    pub gravity: Num,
    /// Side relative to spot.
    pub side: ZoneSide,
}

/// Strike-gravity map.
#[derive(Debug, PartialEq)]
pub struct StrikeGravity {
    /// Underlying spot, points.
    pub spot: Num,
    /// Every scored strike, by gravity descending, then by strike ascending.
    pub strikes: Vec<GravityStrike>,
    /// Highest-gravity strike, if any.
    pub primary_magnet: Option<Num>,
    /// Highest-gravity strike above spot, if any.
    pub upper_magnet: Option<Num>,
    /// Highest-gravity strike below spot, if any.
    pub lower_magnet: Option<Num>,
    /// Zones of the ranked strikes, by gravity descending.
    pub zones: Vec<GravityZone>,
    /// Highest-gravity zone of the ranked strikes below spot.
    pub support_wall: Option<GravityZone>,
    /// Highest-gravity zone of the ranked strikes above spot.
    pub resistance_wall: Option<GravityZone>,
    /// Share of the ranked gravity that the top zone holds, at most 1.
    pub cluster_score: Num,
    /// Weights that were applied.
    pub weights: GravityWeights,
}

/// Zone-state of one dealer wall.
#[derive(Debug, Clone, Copy, PartialEq)]
pub struct WallZone {
    /// Which wall.
    pub kind: WallKind,
    /// Wall strike, points.
    pub strike: Num,
    /// Signed margin on the defended side, as a fraction of spot.
    pub margin: Num,
    /// Whether the wall is in force; the score is the margin in testing bands.
    pub readout: Readout,
    /// Wall strength, 0 to 100.
    pub strength_0_100: Num,
}

/// One wall's inputs to `zone_structure`.
#[derive(Debug, Clone, Copy, PartialEq)]
pub struct WallInput {
    /// Wall strike, points.
    pub strike: Num,
    /// Wall strength, 0 to 100.
    pub strength_0_100: Num,
    /// State on the previous tick.
    pub previous_state: BinaryState,
}

/// Combined input to `zone_structure`.
#[derive(Debug, PartialEq)]
pub struct ZoneInput {
    /// Underlying spot, points.
    pub spot: Num,
    /// Per-strike gravity inputs.
    pub strikes: Vec<GravityStrikeInput>,
    /// Gravity configuration.
    pub config: GravityConfig,
    /// Call-wall inputs.
    pub call_wall: WallInput,
    /// Put-wall inputs.
    pub put_wall: WallInput,
}

/// The gravity map and both wall zone-states.
#[derive(Debug, PartialEq)]
pub struct ZoneStructure {
    /// Strike-gravity map.
    pub gravity: StrikeGravity,
    /// Call-wall zone-state.
    pub call_wall: WallZone,
    /// Put-wall zone-state.
    pub put_wall: WallZone,
}

/// A number, or 0 where it is not finite.
pub open spec fn finite_or_zero(v: Num) -> Num {
    if v.finite() {
        v
    } else {
        Num::of(ZERO)
    }
}

/// A number, or 0 where it is not finite.
pub fn fin(v: Num) -> (r: Num)
    ensures
        r == finite_or_zero(v),
{
    if v.is_finite() {
        v
    } else {
        Num::of(ZERO)
    }
}

/// A strike that takes part, with its proximity to spot.
#[derive(Debug, Clone, Copy, PartialEq)]
pub struct Kept {
    pub strike: Num,
    pub net_gex: Num,
    pub oi: Num,
    pub volume: Num,
    pub proximity: Num,
}

pub open spec fn kept_row(r: GravityStrikeInput, proximity: Num) -> Kept {
    Kept {
        strike: r.strike,
        net_gex: finite_or_zero(r.net_gex),
        oi: finite_or_zero(r.call_oi).fadd(finite_or_zero(r.put_oi)),
        volume: finite_or_zero(r.call_volume).fadd(finite_or_zero(r.put_volume)),
        proximity,
    }
}

/// The strikes that take part: those with a positive strike, in order.
pub open spec fn kept_rows(rows: Seq<GravityStrikeInput>, prox: Seq<Num>) -> Seq<Kept>
    decreases rows.len(),
{
    if rows.len() == 0 {
        Seq::empty()
    } else {
        let rest = kept_rows(rows.drop_last(), prox);
        if Num::of(ZERO).flt(rows.last().strike) {
            rest.push(kept_row(rows.last(), prox[rows.len() - 1]))
        } else {
            rest
        }
    }
}

/// The largest value of each axis, from 0.
#[derive(Debug, Clone, Copy, PartialEq)]
pub struct AxisMaxima {
    pub gex: Num,
    pub oi: Num,
    pub volume: Num,
}

pub open spec fn maxima(rows: Seq<Kept>) -> AxisMaxima
    decreases rows.len(),
{
    if rows.len() == 0 {
        AxisMaxima { gex: Num::of(ZERO), oi: Num::of(ZERO), volume: Num::of(ZERO) }
    } else {
        let m = maxima(rows.drop_last());
        let k = rows.last();
        AxisMaxima {
            gex: m.gex.fmax(k.net_gex.fabs()),
            oi: m.oi.fmax(k.oi),
            volume: m.volume.fmax(k.volume),
        }
    }
}

pub open spec fn positive(v: Num) -> bool {
    Num::of(ZERO).flt(v)
}

/// Weights with the axes that carry no signal zeroed, divided by their sum.
pub open spec fn applied_weights(config: GravityConfig, m: AxisMaxima) -> GravityWeights {
    let zero = Num::of(ZERO);
    let g = if positive(m.gex) {
        config.w_gex
    } else {
        zero
    };
    let o = if positive(m.oi) {
        config.w_oi
    } else {
        zero
    };
    let v = if positive(m.volume) {
        config.w_volume
    } else {
        zero
    };
    let p = config.w_proximity;
    let sum = g.fadd(o).fadd(v).fadd(p);
    let d = if positive(sum) {
        sum
    } else {
        Num::of(ONE)
    };
    GravityWeights { gex: g.fdiv(d), oi: o.fdiv(d), volume: v.fdiv(d), proximity: p.fdiv(d) }
}

/// A value relative to the largest of its axis; 0 on an axis without signal.
pub open spec fn relative(v: Num, max: Num) -> Num {
    if positive(max) {
        v.fdiv(max)
    } else {
        Num::of(ZERO)
    }
}

/// The scored form of a strike.
pub open spec fn score_strike(k: Kept, m: AxisMaxima, w: GravityWeights, spot: Num) -> GravityStrike {
    let distance = k.strike.fsub(spot).fdiv(spot);
    let g = relative(k.net_gex.fabs(), m.gex);
    let o = relative(k.oi, m.oi);
    let v = relative(k.volume, m.volume);
    GravityStrike {
        strike: k.strike,
        gravity_score: w.gex.fmul(g).fadd(w.oi.fmul(o)).fadd(w.volume.fmul(v)).fadd(
            w.proximity.fmul(k.proximity),
        ),
        net_gex: k.net_gex,
        distance_pct: distance,
        gex_weight: g,
        oi_weight: o,
        volume_weight: v,
        proximity_weight: k.proximity,
        side: if distance.fabs().flt(Num::of(GRAVITY_ATM_BAND_PCT)) {
            GravitySide::Atm
        } else if positive(distance) {
            GravitySide::Resistance
        } else {
            GravitySide::Support
        },
    }
}

/// No value of an axis exceeds its maximum.
proof fn lemma_maxima(rows: Seq<Kept>, i: int)
    requires
        0 <= i < rows.len(),
    ensures
        ({
            let (m, k) = (maxima(rows), rows[i]);
            &&& !m.gex.nan() && !m.oi.nan() && !m.volume.nan()
            &&& !k.net_gex.nan() ==> k.net_gex.fabs().fle(m.gex)
            &&& !k.oi.nan() ==> k.oi.fle(m.oi)
            &&& !k.volume.nan() ==> k.volume.fle(m.volume)
        }),
    decreases rows.len(),
{
    if i < rows.len() - 1 {
        lemma_maxima(rows.drop_last(), i);
        assert(rows.drop_last()[i] == rows[i]);
    } else {
        lemma_maxima_numbers(rows.drop_last());
    }
}

proof fn lemma_maxima_numbers(rows: Seq<Kept>)
    ensures
        ({
            let m = maxima(rows);
            !m.gex.nan() && !m.oi.nan() && !m.volume.nan()
        }),
    decreases rows.len(),
{
    if rows.len() > 0 {
        lemma_maxima_numbers(rows.drop_last());
    }
}

/// The normalized weights of a strike lie between 0 and 1.
pub proof fn law_axis_weights_bounded(
    rows: Seq<Kept>,
    i: int,
    w: GravityWeights,
    spot: Num,
)
    requires
        0 <= i < rows.len(),
        rows[i].net_gex.finite(),
        Num::of(ZERO).fle(rows[i].oi),
        Num::of(ZERO).fle(rows[i].volume),
        maxima(rows).gex.finite(),
        maxima(rows).oi.finite(),
        maxima(rows).volume.finite(),
    ensures
        ({
            let s = score_strike(rows[i], maxima(rows), w, spot);
            let (zero, one) = (Num::of(ZERO), Num::of(ONE));
            &&& zero.fle(s.gex_weight) && s.gex_weight.fle(one)
            &&& zero.fle(s.oi_weight) && s.oi_weight.fle(one)
            &&& zero.fle(s.volume_weight) && s.volume_weight.fle(one)
        }),
{
    let (k, m) = (rows[i], maxima(rows));
    lemma_maxima(rows, i);
    lemma_relative(k.net_gex.fabs(), m.gex);
    lemma_relative(k.oi, m.oi);
    lemma_relative(k.volume, m.volume);
}

proof fn lemma_relative(v: Num, max: Num)
    requires
        Num::of(ZERO).fle(v),
        v.fle(max),
        max.finite(),
    ensures
        Num::of(ZERO).fle(relative(v, max)),
        relative(v, max).fle(Num::of(ONE)),
{
    if positive(max) {
        algebra::law_div_antitone(v, max, max);
        algebra::law_div_monotone(v, max, max);
        algebra::law_div_self(max);
    }
}

/// More gravity first, then the lower strike.
pub open spec fn ranks_before(a: GravityStrike, b: GravityStrike) -> bool {
    ||| b.gravity_score.flt(a.gravity_score)
    ||| !a.gravity_score.flt(b.gravity_score) && a.strike.flt(b.strike)
}

pub open spec fn lower_strike(a: GravityStrike, b: GravityStrike) -> bool {
    a.strike.flt(b.strike)
}

pub open spec fn more_gravity(a: GravityZone, b: GravityZone) -> bool {
    b.gravity.flt(a.gravity)
}

/// Every strike that takes part, scored, in ranking order.
pub open spec fn ranking(
    rows: Seq<GravityStrikeInput>,
    prox: Seq<Num>,
    spot: Num,
    config: GravityConfig,
) -> Seq<GravityStrike> {
    let kept = kept_rows(rows, prox);
    let m = maxima(kept);
    let w = applied_weights(config, m);
    sorting::stable_sorted(
        kept.map_values(|k: Kept| score_strike(k, m, w, spot)),
        |a: GravityStrike, b: GravityStrike| ranks_before(a, b),
    )
}

/// The last strike of the cluster that starts at `i`.
pub open spec fn cluster_end(rows: Seq<GravityStrike>, i: int, gap: Num) -> int
    decreases rows.len() - i,
{
    if i + 1 < rows.len() && rows[i + 1].strike.fsub(rows[i].strike).fle(gap) {
        cluster_end(rows, i + 1, gap)
    } else {
        i
    }
}

pub proof fn lemma_cluster_end(rows: Seq<GravityStrike>, i: int, gap: Num)
    requires
        0 <= i < rows.len(),
    ensures
        i <= cluster_end(rows, i, gap) < rows.len(),
    decreases rows.len() - i,
{
    if i + 1 < rows.len() && rows[i + 1].strike.fsub(rows[i].strike).fle(gap) {
        lemma_cluster_end(rows, i + 1, gap);
    }
}

/// The zone of a cluster of ascending strikes.
pub open spec fn zone_of(cluster: Seq<GravityStrike>, spot: Num) -> GravityZone {
    let (lo, hi) = (cluster[0].strike, cluster.last().strike);
    GravityZone {
        lo,
        hi,
        net_gex: sums::sum(cluster.map_values(|s: GravityStrike| s.net_gex)),
        gravity: sums::sum(cluster.map_values(|s: GravityStrike| s.gravity_score)),
        side: if hi.flt(spot) {
            ZoneSide::Support
        } else if spot.flt(lo) {
            ZoneSide::Resistance
        } else {
            ZoneSide::Straddle
        },
    }
}

/// The zones of ascending strikes from `i` on.
pub open spec fn zones_from(rows: Seq<GravityStrike>, i: int, spot: Num, gap: Num) -> Seq<
    GravityZone,
>
    decreases rows.len() - i,
{
    if i < 0 || i >= rows.len() {
        Seq::empty()
    } else {
        proof {
            lemma_cluster_end(rows, i, gap);
        }
        let j = cluster_end(rows, i, gap);
        seq![zone_of(rows.subrange(i, j + 1), spot)] + zones_from(rows, j + 1, spot, gap)
    }
}

/// The zones of strikes in any order: sorted by strike, neighbours within the gap clustered.
pub open spec fn zones_of(rows: Seq<GravityStrike>, spot: Num, gap: Num) -> Seq<GravityZone> {
    zones_from(
        sorting::stable_sorted(rows, |a: GravityStrike, b: GravityStrike| lower_strike(a, b)),
        0,
        spot,
        gap,
    )
}

/// Clusters strikes into contiguous zones.
fn build_zones(rows: &Vec<GravityStrike>, spot: Num, zone_gap: Num) -> (r: Vec<GravityZone>)
    ensures
        r@ == zones_of(rows@, spot, zone_gap),
{
    let ghost order = |a: GravityStrike, b: GravityStrike| lower_strike(a, b);
    let less = |a: GravityStrike, b: GravityStrike| -> (c: bool)
        ensures
            c == lower_strike(a, b),
        { a.strike < b.strike };
    let sorted = sorting::sort_stable(rows, less, Ghost(order));
    let mut zones: Vec<GravityZone> = Vec::new();
    let mut i: usize = 0;
    let n: usize = sorted.len();
    let ghost want = zones_of(rows@, spot, zone_gap);
    proof {
        assert(zones@ + zones_from(sorted@, 0, spot, zone_gap) =~= want);
    }
    while i < n
        invariant
            i <= n == sorted@.len(),
            zones@ + zones_from(sorted@, i as int, spot, zone_gap) == want,
        decreases n - i,
    {
        let mut j: usize = i;
        let mut gex: Vec<Num> = Vec::new();
        let mut grav: Vec<Num> = Vec::new();
        gex.push(sorted[i].net_gex);
        grav.push(sorted[i].gravity_score);
        while j + 1 < n && sorted[j + 1].strike - sorted[j].strike <= zone_gap
            invariant
                i <= j < n == sorted@.len(),
                cluster_end(sorted@, i as int, zone_gap) == cluster_end(
                    sorted@,
                    j as int,
                    zone_gap,
                ),
                gex@.len() == j + 1 - i,
                grav@.len() == j + 1 - i,
                forall|k: int| 0 <= k < gex@.len() ==> gex@[k] == sorted@[i + k].net_gex,
                forall|k: int| 0 <= k < grav@.len() ==> grav@[k] == sorted@[i + k].gravity_score,
            decreases n - j,
        {
            j = j + 1;
            gex.push(sorted[j].net_gex);
            grav.push(sorted[j].gravity_score);
        }
        let (lo, hi) = (sorted[i].strike, sorted[j].strike);
        let side = if hi < spot {
            ZoneSide::Support
        } else if lo > spot {
            ZoneSide::Resistance
        } else {
            ZoneSide::Straddle
        };
        let zone = GravityZone {
            lo,
            hi,
            net_gex: sums::total(&gex),
            gravity: sums::total(&grav),
            side,
        };
        let ghost before = zones@;
        zones.push(zone);
        proof {
            let cluster = sorted@.subrange(i as int, j + 1);
            assert(cluster.map_values(|s: GravityStrike| s.net_gex) =~= gex@);
            assert(cluster.map_values(|s: GravityStrike| s.gravity_score) =~= grav@);
            assert(zone == zone_of(cluster, spot));
            assert(before + (seq![zone] + zones_from(sorted@, j + 1, spot, zone_gap))
                =~= zones@ + zones_from(sorted@, j + 1, spot, zone_gap));
        }
        i = j + 1;
    }
    proof {
        assert(zones@ + zones_from(sorted@, i as int, spot, zone_gap) =~= zones@);
    }
    zones
}

/// The positive gaps between neighbours among the first `n`.
pub open spec fn positive_gaps(s: Seq<Num>, n: nat) -> Seq<Num>
    decreases n,
{
    if n < 2 {
        Seq::empty()
    } else {
        let rest = positive_gaps(s, (n - 1) as nat);
        let g = s[n - 1].fsub(s[n - 2]);
        if positive(g) {
            rest.push(g)
        } else {
            rest
        }
    }
}

/// The quantile index into `n` sorted gaps.
pub open spec fn gap_index(n: nat) -> nat {
    let q = Num::whole(false, n).fmul(Num::of(STRIKE_STEP_QUANTILE)).ffloor().trunc_u64() as nat;
    if q < n {
        q
    } else {
        (n - 1) as nat
    }
}

/// The strike step: a low quantile of the positive gaps between the sorted strikes.
pub open spec fn step_of(strikes: Seq<Num>, spot: Num) -> Num {
    let levels = sorting::sorted(strikes);
    let gaps = positive_gaps(levels, levels.len());
    if gaps.len() == 0 {
        spot.fmul(Num::of(STRIKE_STEP_FALLBACK_PCT))
    } else {
        sorting::sorted(gaps)[gap_index(gaps.len()) as int]
    }
}

pub open spec fn strikes_of(rows: Seq<GravityStrike>) -> Seq<Num> {
    rows.map_values(|s: GravityStrike| s.strike)
}

/// Estimates the strike step from the scored strikes.
fn estimate_step(scored: &Vec<GravityStrike>, spot: Num) -> (r: Num)
    ensures
        r == step_of(strikes_of(scored@), spot),
{
    let mut strikes: Vec<Num> = Vec::new();
    let mut i: usize = 0;
    while i < scored.len()
        invariant
            i <= scored@.len(),
            strikes@.len() == i,
            forall|k: int| 0 <= k < i ==> strikes@[k] == scored@[k].strike,
        decreases scored@.len() - i,
    {
        strikes.push(scored[i].strike);
        i = i + 1;
    }
    proof {
        assert(strikes@ =~= strikes_of(scored@));
    }
    let levels = sorting::sort(&strikes);
    let mut gaps: Vec<Num> = Vec::new();
    let mut n: usize = 1;
    proof {
        assert(gaps@ =~= positive_gaps(levels@, 1));
    }
    while n < levels.len()
        invariant
            1 <= n,
            n <= levels@.len() || n == 1,
            gaps@ == positive_gaps(levels@, n as nat),
        decreases levels@.len() - n,
    {
        let g = levels[n] - levels[n - 1];
        if g > Num::of(ZERO) {
            gaps.push(g);
        }
        n = n + 1;
    }
    proof {
        if levels@.len() == 0 {
            assert(positive_gaps(levels@, 0) =~= positive_gaps(levels@, 1));
        }
    }
    if gaps.len() == 0 {
        return spot * Num::of(STRIKE_STEP_FALLBACK_PCT);
    }
    let sorted_gaps = sorting::sort(&gaps);
    let len: usize = gaps.len();
    let q: u64 = (Num::from_u64(len as u64) * Num::of(STRIKE_STEP_QUANTILE)).floor().to_u64();
    let idx: usize = if q < len as u64 {
        q as usize
    } else {
        len - 1
    };
    sorted_gaps[idx]
}

/// The zone with the most gravity; of equals the last.
pub open spec fn strongest(zones: Seq<GravityZone>) -> Option<GravityZone>
    decreases zones.len(),
{
    if zones.len() == 0 {
        None
    } else {
        match strongest(zones.drop_last()) {
            Some(b) => if zones.last().gravity.flt(b.gravity) {
                Some(b)
            } else {
                Some(zones.last())
            },
            None => Some(zones.last()),
        }
    }
}

fn strongest_zone(zones: &Vec<GravityZone>) -> (r: Option<GravityZone>)
    ensures
        r == strongest(zones@),
{
    let mut best: Option<GravityZone> = None;
    let mut i: usize = 0;
    proof {
        assert(zones@.take(0) =~= Seq::<GravityZone>::empty());
    }
    while i < zones.len()
        invariant
            i <= zones@.len(),
            best == strongest(zones@.take(i as int)),
        decreases zones@.len() - i,
    {
        proof {
            assert(zones@.take(i + 1).drop_last() =~= zones@.take(i as int));
        }
        let z = zones[i];
        best = match best {
            Some(b) => if b.gravity > z.gravity {
                Some(b)
            } else {
                Some(z)
            },
            None => Some(z),
        };
        i = i + 1;
    }
    proof {
        assert(zones@.take(i as int) =~= zones@);
    }
    best
}

/// Whether a strike lies on one side of spot.
pub open spec fn on_side(strike: Num, spot: Num, below: bool) -> bool {
    (below && strike.flt(spot)) || (!below && spot.flt(strike))
}

/// The ranked strikes on one side of spot, in order.
pub open spec fn side_rows(rows: Seq<GravityStrike>, spot: Num, below: bool) -> Seq<GravityStrike>
    decreases rows.len(),
{
    if rows.len() == 0 {
        Seq::empty()
    } else {
        let rest = side_rows(rows.drop_last(), spot, below);
        let s = rows.last();
        if on_side(s.strike, spot, below) {
            rest.push(s)
        } else {
            rest
        }
    }
}

fn rows_on_side(rows: &Vec<GravityStrike>, spot: Num, below: bool) -> (r: Vec<GravityStrike>)
    ensures
        r@ == side_rows(rows@, spot, below),
{
    let mut r: Vec<GravityStrike> = Vec::new();
    let mut i: usize = 0;
    proof {
        assert(rows@.take(0) =~= Seq::<GravityStrike>::empty());
        assert(r@ =~= side_rows(rows@.take(0), spot, below));
    }
    while i < rows.len()
        invariant
            i <= rows@.len(),
            r@ == side_rows(rows@.take(i as int), spot, below),
        decreases rows@.len() - i,
    {
        proof {
            assert(rows@.take(i + 1).drop_last() =~= rows@.take(i as int));
        }
        let s = rows[i];
        if (below && s.strike < spot) || (!below && s.strike > spot) {
            r.push(s);
        }
        i = i + 1;
    }
    proof {
        assert(rows@.take(i as int) =~= rows@);
    }
    r
}

/// The strike of the first ranked row on one side of spot.
pub open spec fn magnet_on_side(rows: Seq<GravityStrike>, spot: Num, below: bool) -> Option<Num> {
    let s = side_rows(rows, spot, below);
    if s.len() > 0 {
        Some(s[0].strike)
    } else {
        None
    }
}

/// Share of the ranked gravity that the top zone holds.
pub open spec fn cluster_share(zones: Seq<GravityZone>, ranked: Seq<GravityStrike>) -> Num {
    let total = sums::sum(ranked.map_values(|s: GravityStrike| s.gravity_score));
    let d = if positive(total) {
        total
    } else {
        Num::of(TOTAL_GRAVITY_FLOOR)
    };
    if zones.len() > 0 {
        zones[0].gravity.fdiv(d).fmin(Num::of(ONE))
    } else {
        Num::of(ZERO)
    }
}

/// Whether there is anything to map.
pub open spec fn has_gravity(rows: Seq<GravityStrikeInput>, prox: Seq<Num>, spot: Num) -> bool {
    positive(spot) && kept_rows(rows, prox).len() > 0
}

impl StrikeGravity {
    /// The map of nothing.
    pub open spec fn is_empty_map(self, spot: Num) -> bool {
        let zero = Num::of(ZERO);
        &&& self.spot == spot
        &&& self.strikes@.len() == 0
        &&& self.primary_magnet is None
        &&& self.upper_magnet is None
        &&& self.lower_magnet is None
        &&& self.zones@.len() == 0
        &&& self.support_wall is None
        &&& self.resistance_wall is None
        &&& self.cluster_score == zero
        &&& self.weights == (GravityWeights { gex: zero, oi: zero, volume: zero, proximity: zero })
    }

    /// The gravity map of a set of strikes.
    pub open spec fn is_map_of(
        self,
        rows: Seq<GravityStrikeInput>,
        prox: Seq<Num>,
        spot: Num,
        config: GravityConfig,
    ) -> bool {
        let scored = ranking(rows, prox, spot, config);
        let n = if config.top_n < scored.len() {
            config.top_n as int
        } else {
            scored.len() as int
        };
        let ranked = scored.take(n);
        let gap = step_of(strikes_of(scored), spot).fmul(Num::of(ZONE_GAP_STEP_MULT)).fmax(
            spot.fmul(Num::of(ZONE_GAP_MIN_PCT)),
        );
        &&& self.spot == spot
        &&& self.strikes@ == scored
        &&& self.primary_magnet == Some(scored[0].strike)
        &&& self.upper_magnet == magnet_on_side(scored, spot, false)
        &&& self.lower_magnet == magnet_on_side(scored, spot, true)
        &&& self.zones@ == sorting::stable_sorted(
            zones_of(ranked, spot, gap),
            |a: GravityZone, b: GravityZone| more_gravity(a, b),
        )
        &&& self.support_wall == strongest(zones_of(side_rows(ranked, spot, true), spot, gap))
        &&& self.resistance_wall == strongest(zones_of(side_rows(ranked, spot, false), spot, gap))
        &&& self.cluster_score == cluster_share(self.zones@, ranked)
        &&& self.weights == applied_weights(config, maxima(kept_rows(rows, prox)))
    }
}

fn empty_gravity(spot: Num) -> (r: StrikeGravity)
    ensures
        r.is_empty_map(spot),
{
    let zero = Num::of(ZERO);
    StrikeGravity {
        spot,
        strikes: Vec::new(),
        primary_magnet: None,
        upper_magnet: None,
        lower_magnet: None,
        zones: Vec::new(),
        support_wall: None,
        resistance_wall: None,
        cluster_score: zero,
        weights: GravityWeights { gex: zero, oi: zero, volume: zero, proximity: zero },
    }
}

/// The point at which the proximity of a strike needs the exponential.
pub fn proximity_arg(strike: Num, spot: Num, config: &GravityConfig) -> (r: Num)
    ensures
        r == strike.fsub(spot).fdiv(spot).fabs().fneg().fdiv(
            if positive(config.proximity_scale) {
                config.proximity_scale
            } else {
                Num::of(GRAVITY_PROXIMITY_SCALE)
            },
        ),
{
    let scale = if config.proximity_scale > Num::of(ZERO) {
        config.proximity_scale
    } else {
        Num::of(GRAVITY_PROXIMITY_SCALE)
    };
    ((strike - spot) / spot).abs().neg() / scale
}

fn keep_rows(strikes: &Vec<GravityStrikeInput>, proximity: &Vec<Num>) -> (r: Vec<Kept>)
    requires
        proximity@.len() == strikes@.len(),
    ensures
        r@ == kept_rows(strikes@, proximity@),
{
    let mut r: Vec<Kept> = Vec::new();
    let mut i: usize = 0;
    proof {
        assert(strikes@.take(0) =~= Seq::<GravityStrikeInput>::empty());
        assert(r@ =~= kept_rows(strikes@.take(0), proximity@));
    }
    while i < strikes.len()
        invariant
            i <= strikes@.len(),
            proximity@.len() == strikes@.len(),
            r@ == kept_rows(strikes@.take(i as int), proximity@),
        decreases strikes@.len() - i,
    {
        proof {
            assert(strikes@.take(i + 1).drop_last() =~= strikes@.take(i as int));
        }
        let s = strikes[i];
        if s.strike > Num::of(ZERO) {
            r.push(
                Kept {
                    strike: s.strike,
                    net_gex: fin(s.net_gex),
                    oi: fin(s.call_oi) + fin(s.put_oi),
                    volume: fin(s.call_volume) + fin(s.put_volume),
                    proximity: proximity[i],
                },
            );
        }
        i = i + 1;
    }
    proof {
        assert(strikes@.take(i as int) =~= strikes@);
    }
    r
}

fn find_maxima(rows: &Vec<Kept>) -> (r: AxisMaxima)
    ensures
        r == maxima(rows@),
{
    let zero = Num::of(ZERO);
    let mut m = AxisMaxima { gex: zero, oi: zero, volume: zero };
    let mut i: usize = 0;
    proof {
        assert(rows@.take(0) =~= Seq::<Kept>::empty());
    }
    while i < rows.len()
        invariant
            i <= rows@.len(),
            m == maxima(rows@.take(i as int)),
        decreases rows@.len() - i,
    {
        proof {
            assert(rows@.take(i + 1).drop_last() =~= rows@.take(i as int));
        }
        let k = rows[i];
        m = AxisMaxima {
            gex: m.gex.max(k.net_gex.abs()),
            oi: m.oi.max(k.oi),
            volume: m.volume.max(k.volume),
        };
        i = i + 1;
    }
    proof {
        assert(rows@.take(i as int) =~= rows@);
    }
    m
}

fn weigh(config: &GravityConfig, m: &AxisMaxima) -> (r: GravityWeights)
    ensures
        r == applied_weights(*config, *m),
{
    let zero = Num::of(ZERO);
    let g = if m.gex > zero {
        config.w_gex
    } else {
        zero
    };
    let o = if m.oi > zero {
        config.w_oi
    } else {
        zero
    };
    let v = if m.volume > zero {
        config.w_volume
    } else {
        zero
    };
    let p = config.w_proximity;
    let sum = g + o + v + p;
    let d = if sum > zero {
        sum
    } else {
        Num::of(ONE)
    };
    GravityWeights { gex: g / d, oi: o / d, volume: v / d, proximity: p / d }
}

fn relative_to(v: Num, max: Num) -> (r: Num)
    ensures
        r == relative(v, max),
{
    if max > Num::of(ZERO) {
        v / max
    } else {
        Num::of(ZERO)
    }
}

fn score_one(k: &Kept, m: &AxisMaxima, w: &GravityWeights, spot: Num) -> (r: GravityStrike)
    ensures
        r == score_strike(*k, *m, *w, spot),
{
    let distance = (k.strike - spot) / spot;
    let g = relative_to(k.net_gex.abs(), m.gex);
    let o = relative_to(k.oi, m.oi);
    let v = relative_to(k.volume, m.volume);
    let gravity_score = w.gex * g + w.oi * o + w.volume * v + w.proximity * k.proximity;
    let side = if distance.abs() < Num::of(GRAVITY_ATM_BAND_PCT) {
        GravitySide::Atm
    } else if distance > Num::of(ZERO) {
        GravitySide::Resistance
    } else {
        GravitySide::Support
    };
    GravityStrike {
        strike: k.strike,
        gravity_score,
        net_gex: k.net_gex,
        distance_pct: distance,
        gex_weight: g,
        oi_weight: o,
        volume_weight: v,
        proximity_weight: k.proximity,
        side,
    }
}

fn rank_strikes(kept: &Vec<Kept>, m: &AxisMaxima, w: &GravityWeights, spot: Num) -> (r: Vec<
    GravityStrike,
>)
    ensures
        r@ == sorting::stable_sorted(
            kept@.map_values(|k: Kept| score_strike(k, *m, *w, spot)),
            |a: GravityStrike, b: GravityStrike| ranks_before(a, b),
        ),
        r@.len() == kept@.len(),
{
    let mut scored: Vec<GravityStrike> = Vec::new();
    let mut i: usize = 0;
    while i < kept.len()
        invariant
            i <= kept@.len(),
            scored@.len() == i,
            forall|j: int| 0 <= j < i ==> scored@[j] == score_strike(kept@[j], *m, *w, spot),
        decreases kept@.len() - i,
    {
        scored.push(score_one(&kept[i], m, w, spot));
        i = i + 1;
    }
    proof {
        assert(scored@ =~= kept@.map_values(|k: Kept| score_strike(k, *m, *w, spot)));
    }
    let ghost order = |a: GravityStrike, b: GravityStrike| ranks_before(a, b);
    let less = |a: GravityStrike, b: GravityStrike| -> (c: bool)
        ensures
            c == ranks_before(a, b),
        {
            b.gravity_score < a.gravity_score || (!(a.gravity_score < b.gravity_score) && a.strike
                < b.strike)
        };
    sorting::sort_stable(&scored, less, Ghost(order))
}

fn gravity_scores(rows: &Vec<GravityStrike>) -> (r: Vec<Num>)
    ensures
        r@ == rows@.map_values(|s: GravityStrike| s.gravity_score),
{
    let mut r: Vec<Num> = Vec::new();
    let mut i: usize = 0;
    while i < rows.len()
        invariant
            i <= rows@.len(),
            r@.len() == i,
            forall|k: int| 0 <= k < i ==> r@[k] == rows@[k].gravity_score,
        decreases rows@.len() - i,
    {
        r.push(rows[i].gravity_score);
        i = i + 1;
    }
    proof {
        assert(r@ =~= rows@.map_values(|s: GravityStrike| s.gravity_score));
    }
    r
}

/// Scores every strike as a dealer magnet and clusters the top strikes into zones.
///
/// `proximity[i]` is the machine's exponential at `proximity_arg` of strike `i`.
pub fn strike_gravity(
    strikes: &Vec<GravityStrikeInput>,
    spot: Num,
    config: &GravityConfig,
    proximity: &Vec<Num>,
) -> (r: StrikeGravity)
    requires
        proximity@.len() == strikes@.len(),
    ensures
        if has_gravity(strikes@, proximity@, spot) {
            r.is_map_of(strikes@, proximity@, spot, *config)
        } else {
            r.is_empty_map(spot)
        },
{
    if strikes.len() == 0 || spot <= Num::of(ZERO) || spot.is_nan() {
        return empty_gravity(spot);
    }
    let kept = keep_rows(strikes, proximity);
    if kept.len() == 0 {
        return empty_gravity(spot);
    }
    let m = find_maxima(&kept);
    let weights = weigh(config, &m);
    let scored = rank_strikes(&kept, &m, &weights, spot);
    let primary_magnet = Some(scored[0].strike);
    let above = rows_on_side(&scored, spot, false);
    let below = rows_on_side(&scored, spot, true);
    let upper_magnet = if above.len() > 0 {
        Some(above[0].strike)
    } else {
        None
    };
    let lower_magnet = if below.len() > 0 {
        Some(below[0].strike)
    } else {
        None
    };
    let n: usize = if config.top_n < scored.len() {
        config.top_n
    } else {
        scored.len()
    };
    let mut ranked: Vec<GravityStrike> = Vec::new();
    let mut i: usize = 0;
    while i < n
        invariant
            i <= n <= scored@.len(),
            ranked@ == scored@.take(i as int),
        decreases n - i,
    {
        ranked.push(scored[i]);
        i = i + 1;
        proof {
            assert(ranked@ =~= scored@.take(i as int));
        }
    }
    let step = estimate_step(&scored, spot);
    let zone_gap = (step * Num::of(ZONE_GAP_STEP_MULT)).max(spot * Num::of(ZONE_GAP_MIN_PCT));
    let ghost order = |a: GravityZone, b: GravityZone| more_gravity(a, b);
    let more = |a: GravityZone, b: GravityZone| -> (c: bool)
        ensures
            c == more_gravity(a, b),
        { b.gravity < a.gravity };
    let zones = sorting::sort_stable(&build_zones(&ranked, spot, zone_gap), more, Ghost(order));
    let support_wall = strongest_zone(
        &build_zones(&rows_on_side(&ranked, spot, true), spot, zone_gap),
    );
    let resistance_wall = strongest_zone(
        &build_zones(&rows_on_side(&ranked, spot, false), spot, zone_gap),
    );
    let total = sums::total(&gravity_scores(&ranked));
    let denom = if total > Num::of(ZERO) {
        total
    } else {
        Num::of(TOTAL_GRAVITY_FLOOR)
    };
    let cluster_score = if zones.len() > 0 {
        (zones[0].gravity / denom).min(Num::of(ONE))
    } else {
        Num::of(ZERO)
    };
    StrikeGravity {
        spot,
        strikes: scored,
        primary_magnet,
        upper_magnet,
        lower_magnet,
        zones,
        support_wall,
        resistance_wall,
        cluster_score,
        weights,
    }
}

impl WallZone {
    /// The signed margin on the defended side; NaN without a positive spot.
    pub open spec fn margin_of(kind: WallKind, spot: Num, strike: Num) -> Num {
        if positive(spot) {
            match kind {
                WallKind::Call => strike.fsub(spot).fdiv(spot),
                WallKind::Put => spot.fsub(strike).fdiv(spot),
            }
        } else {
            Num::of(NAN_BITS)
        }
    }

    /// The zone-state of a wall.
    pub open spec fn of_wall(
        kind: WallKind,
        spot: Num,
        strike: Num,
        strength: Num,
        previous: BinaryState,
    ) -> WallZone {
        let margin = WallZone::margin_of(kind, spot, strike);
        WallZone {
            kind,
            strike,
            margin,
            readout: Readout::resolved_from(
                wall_zone_band(),
                margin.fdiv(Num::of(WALL_TESTING_BAND_PCT)),
                previous,
            ),
            strength_0_100: finite_or_zero(strength).fclamp(Num::of(ZERO), Num::of(HUNDRED)),
        }
    }
}

/// Resolves one wall's zone-state.
pub fn wall_zone(
    kind: WallKind,
    spot: Num,
    strike: Num,
    strength_0_100: Num,
    previous: BinaryState,
) -> (r: WallZone)
    ensures
        r == WallZone::of_wall(kind, spot, strike, strength_0_100, previous),
{
    let margin = if spot > Num::of(ZERO) {
        match kind {
            WallKind::Call => (strike - spot) / spot,
            WallKind::Put => (spot - strike) / spot,
        }
    } else {
        Num::of(NAN_BITS)
    };
    let score = margin / Num::of(WALL_TESTING_BAND_PCT);
    let readout = Readout::resolve_from(&wall_zone_band(), score, previous);
    WallZone {
        kind,
        strike,
        margin,
        readout,
        strength_0_100: fin(strength_0_100).clamp(Num::of(ZERO), Num::of(HUNDRED)),
    }
}

/// Assembles the gravity map and both wall zone-states.
pub fn zone_structure(input: &ZoneInput, proximity: &Vec<Num>) -> (r: ZoneStructure)
    requires
        proximity@.len() == input.strikes@.len(),
    ensures
        if has_gravity(input.strikes@, proximity@, input.spot) {
            r.gravity.is_map_of(input.strikes@, proximity@, input.spot, input.config)
        } else {
            r.gravity.is_empty_map(input.spot)
        },
        r.call_wall == WallZone::of_wall(
            WallKind::Call,
            input.spot,
            input.call_wall.strike,
            input.call_wall.strength_0_100,
            input.call_wall.previous_state,
        ),
        r.put_wall == WallZone::of_wall(
            WallKind::Put,
            input.spot,
            input.put_wall.strike,
            input.put_wall.strength_0_100,
            input.put_wall.previous_state,
        ),
{
    let gravity = strike_gravity(&input.strikes, input.spot, &input.config, proximity);
    let call_wall = wall_zone(
        WallKind::Call,
        input.spot,
        input.call_wall.strike,
        input.call_wall.strength_0_100,
        input.call_wall.previous_state,
    );
    let put_wall = wall_zone(
        WallKind::Put,
        input.spot,
        input.put_wall.strike,
        input.put_wall.strength_0_100,
        input.put_wall.previous_state,
    );
    ZoneStructure { gravity, call_wall, put_wall }
}

/// On a cold start a wall is in force exactly where its score is finite and not negative.
pub proof fn law_cold_wall_active_iff_not_breached(
    kind: WallKind,
    spot: Num,
    strike: Num,
    strength: Num,
)
    ensures
        ({
            let w = WallZone::of_wall(kind, spot, strike, strength, BinaryState::Inactive);
            w.readout.state is Active <==> w.readout.score.finite() && Num::of(ZERO).fle(
                w.readout.score,
            )
        }),
{
}

/// A wall in force survives a breach that is smaller than the hysteresis, and
/// falls once the score reaches its lower edge.
pub proof fn law_wall_hysteresis(kind: WallKind, spot: Num, strike: Num, strength: Num)
    ensures
        ({
            let w = WallZone::of_wall(kind, spot, strike, strength, BinaryState::Active);
            w.readout.score.finite() ==> (w.readout.state is Active <==> Num::of(
                WALL_DEACTIVATE_AT_SCORE,
            ).flt(w.readout.score))
        }),
{
}

/// Without a positive spot no wall is in force.
pub proof fn law_no_spot_no_wall(kind: WallKind, spot: Num, strike: Num, strength: Num, p: BinaryState)
    requires
        !positive(spot),
    ensures
        WallZone::of_wall(kind, spot, strike, strength, p).readout.state is Inactive,
{
    reveal(Num::fdiv);
}

/// The strength of a wall lies in [0, 100].
pub proof fn law_wall_strength_bounded(
    kind: WallKind,
    spot: Num,
    strike: Num,
    strength: Num,
    p: BinaryState,
)
    ensures
        ({
            let w = WallZone::of_wall(kind, spot, strike, strength, p);
            Num::of(ZERO).fle(w.strength_0_100) && w.strength_0_100.fle(Num::of(HUNDRED))
        }),
{
}

/// A weight of an axis: finite and from zero on.
pub open spec fn sound_weight(w: Num) -> bool {
    w.finite() && !w.negative()
}

/// The weights that are applied add up to one, up to 2^-48, where there is
/// anything to weigh.
pub proof fn law_weights_add_up(config: GravityConfig, m: AxisMaxima)
    requires
        sound_weight(config.w_gex),
        sound_weight(config.w_oi),
        sound_weight(config.w_volume),
        sound_weight(config.w_proximity),
        Num::of(ZERO).flt(config.w_proximity),
        config.w_gex.fadd(config.w_oi).fadd(config.w_volume).fadd(config.w_proximity).finite(),
    ensures
        ({
            let w = applied_weights(config, m);
            let total = w.gex.exact() + w.oi.exact() + w.volume.exact() + w.proximity.exact();
            exact::rabs(total - 1real) <= 32real * exact::eps()
        }),
{
    let zero = Num::of(ZERO);
    let g = if positive(m.gex) {
        config.w_gex
    } else {
        zero
    };
    let o = if positive(m.oi) {
        config.w_oi
    } else {
        zero
    };
    let v = if positive(m.volume) {
        config.w_volume
    } else {
        zero
    };
    lemma_kept_sum(config, g, o, v);
    lemma_four_shares(g, o, v, config.w_proximity);
}

/// Leaving out weights keeps their sum finite.
proof fn lemma_kept_sum(config: GravityConfig, g: Num, o: Num, v: Num)
    requires
        sound_weight(config.w_gex),
        sound_weight(config.w_oi),
        sound_weight(config.w_volume),
        sound_weight(config.w_proximity),
        g == config.w_gex || g == Num::of(ZERO),
        o == config.w_oi || o == Num::of(ZERO),
        v == config.w_volume || v == Num::of(ZERO),
        config.w_gex.fadd(config.w_oi).fadd(config.w_volume).fadd(config.w_proximity).finite(),
    ensures
        g.fadd(o).fadd(v).fadd(config.w_proximity).finite(),
        sound_weight(g) && sound_weight(o) && sound_weight(v),
{
    let (a, b, c, p) = (config.w_gex, config.w_oi, config.w_volume, config.w_proximity);
    lemma_pair_below(g, o, a, b);
    lemma_pair_below(g.fadd(o), v, a.fadd(b), c);
    lemma_pair_below(g.fadd(o).fadd(v), p, a.fadd(b).fadd(c), p);
}

/// A sum of smaller weights is not larger.
proof fn lemma_pair_below(x: Num, y: Num, a: Num, b: Num)
    requires
        !x.nan() && !x.negative() && !y.nan() && !y.negative(),
        !a.nan() && !a.negative() && !b.nan() && !b.negative(),
        x.fle(a),
        y.fle(b),
    ensures
        x.fadd(y).fle(a.fadd(b)),
        !x.fadd(y).nan() && !x.fadd(y).negative(),
        !a.fadd(b).nan() && !a.fadd(b).negative(),
{
    algebra::lemma_add_not_negative(x, y);
    algebra::lemma_add_not_negative(a, b);
    algebra::lemma_add_not_negative(a, y);
    algebra::lemma_add_not_negative(y, a);
    algebra::law_add_monotone(x, a, y);
    algebra::law_add_commutes(a, y);
    algebra::law_add_commutes(a, b);
    algebra::law_add_monotone(y, b, a);
}

/// Four shares of their sum add up to one.
proof fn lemma_four_shares(g: Num, o: Num, v: Num, p: Num)
    requires
        sound_weight(g),
        sound_weight(o),
        sound_weight(v),
        sound_weight(p),
        Num::of(ZERO).flt(p),
        g.fadd(o).fadd(v).fadd(p).finite(),
    ensures
        ({
            let d = g.fadd(o).fadd(v).fadd(p);
            let total = g.fdiv(d).exact() + o.fdiv(d).exact() + v.fdiv(d).exact() + p.fdiv(
                d,
            ).exact();
            &&& positive(d)
            &&& exact::rabs(total - 1real) <= 32real * exact::eps()
        }),
{
    let (zero, x, y) = (Num::of(ZERO), g.fadd(o), g.fadd(o).fadd(v));
    let d = y.fadd(p);
    let (a, b, c, q) = (g.exact(), o.exact(), v.exact(), p.exact());
    algebra::lemma_add_not_negative(g, o);
    algebra::lemma_add_not_negative(x, v);
    algebra::lemma_add_not_negative(y, p);
    assert(d.finite() && y.finite() && x.finite());
    exact::lemma_exact_zero(zero);
    exact::lemma_exact_order(zero, g);
    exact::lemma_exact_order(zero, o);
    exact::lemma_exact_order(zero, v);
    exact::lemma_exact_order(zero, p);
    exact::lemma_exact_order(zero, x);
    exact::lemma_exact_order(zero, y);
    exact::lemma_exact_order(zero, d);
    exact::lemma_near_add(g, o);
    exact::lemma_near_add(x, v);
    exact::lemma_near_add(y, p);
    exact::lemma_near_self(c);
    exact::lemma_near_more(c, c, 0real, 1real);
    exact::lemma_near_sum(x.exact(), a + b, c, c, 1real);
    exact::lemma_near_step(y.exact(), x.exact() + c, a + b + c, 1real, 1real);
    exact::lemma_near_self(q);
    exact::lemma_near_more(q, q, 0real, 3real);
    exact::lemma_near_sum(y.exact(), a + b + c, q, q, 3real);
    let (s, t) = (d.exact(), a + b + c + q);
    exact::lemma_near_step(s, y.exact() + q, t, 1real, 3real);
    exact::lemma_still_positive(s, t, 5real);
    exact::lemma_near_self(t);
    exact::lemma_near_quotient(t, t, s, t, 0real, 5real);
    exact::lemma_quotient_is(1real, t, t);
    lemma_share_finite(g, d);
    lemma_share_finite(o, d);
    lemma_share_finite(v, d);
    lemma_share_finite(p, d);
    exact::lemma_share(g, d);
    exact::lemma_share(o, d);
    exact::lemma_share(v, d);
    exact::lemma_share(p, d);
    let (i, j, k, l) = (a / s, b / s, c / s, q / s);
    exact::lemma_over(a, s);
    exact::lemma_over(b, s);
    exact::lemma_over(c, s);
    exact::lemma_over(q, s);
    let all = i + j + k + l;
    assert(all * s == t) by (nonlinear_arith)
        requires
            all == i + j + k + l,
            i * s == a,
            j * s == b,
            k * s == c,
            l * s == q,
            t == a + b + c + q,
    ;
    exact::lemma_quotient_is(all, t, s);
    let e = exact::eps();
    assert(all == t / s && t / t == 1real);
    assert(exact::near(all, 1real, 7real));
    assert(1real - 7real * e <= all <= 1real + 7real * e) by {
        assert(1real * (1real + 7real * e) == 1real + 7real * e) by (nonlinear_arith);
        assert(1real * (1real - 7real * e) == 1real - 7real * e) by (nonlinear_arith);
    }
    exact::lemma_times(all, 2real, e);
    assert(e * all == e * i + e * j + e * k + e * l) by (nonlinear_arith)
        requires
            all == i + j + k + l,
    ;
}

/// A share of a sum is finite.
proof fn lemma_share_finite(v: Num, d: Num)
    requires
        sound_weight(v),
        d.finite(),
        Num::of(ZERO).flt(d),
        v.fle(d),
    ensures
        v.fdiv(d).finite(),
{
    algebra::law_div_monotone(v, d, d);
    algebra::law_div_self(d);
    algebra::law_div_antitone(v, d, d);
}

/// Whether the amounts and the proximity of a strike are not negative.
pub open spec fn sound_at(rows: Seq<GravityStrikeInput>, prox: Seq<Num>, i: int) -> bool {
    &&& algebra::no_less_than_zero(rows[i].call_oi)
    &&& algebra::no_less_than_zero(rows[i].put_oi)
    &&& algebra::no_less_than_zero(rows[i].call_volume)
    &&& algebra::no_less_than_zero(rows[i].put_volume)
    &&& algebra::no_less_than_zero(prox[i])
}

/// Whether the amounts and the proximity of a strike that takes part are not
/// negative.
pub open spec fn sound_kept(k: Kept) -> bool {
    &&& algebra::no_less_than_zero(k.oi)
    &&& algebra::no_less_than_zero(k.volume)
    &&& algebra::no_less_than_zero(k.proximity)
}

/// Strikes that take part have amounts that are not negative.
proof fn lemma_kept_kind(rows: Seq<GravityStrikeInput>, prox: Seq<Num>)
    requires
        rows.len() <= prox.len(),
        forall|i: int| 0 <= i < rows.len() ==> #[trigger] sound_at(rows, prox, i),
    ensures
        forall|i: int|
            0 <= i < kept_rows(rows, prox).len() ==> sound_kept(
                #[trigger] kept_rows(rows, prox)[i],
            ),
    decreases rows.len(),
{
    if rows.len() > 0 {
        let rest = rows.drop_last();
        assert forall|i: int| 0 <= i < rest.len() implies #[trigger] sound_at(rest, prox, i) by {
            assert(sound_at(rows, prox, i));
        }
        lemma_kept_kind(rest, prox);
        let r = rows[rows.len() - 1];
        assert(sound_at(rows, prox, rows.len() - 1));
        algebra::lemma_add_kind(finite_or_zero(r.call_oi), finite_or_zero(r.put_oi));
        algebra::lemma_add_kind(finite_or_zero(r.call_volume), finite_or_zero(r.put_volume));
        assert(sound_kept(kept_row(r, prox[rows.len() - 1])));
        let (all, some) = (kept_rows(rows, prox), kept_rows(rest, prox));
        assert forall|i: int| 0 <= i < all.len() implies sound_kept(#[trigger] all[i]) by {
            if i < some.len() {
                assert(all[i] == some[i]);
            }
        }
    }
}

/// The gravity of a strike is not negative.
proof fn lemma_gravity_kind(k: Kept, m: AxisMaxima, config: GravityConfig, spot: Num)
    requires
        sound_kept(k),
        sound_weight(config.w_gex),
        sound_weight(config.w_oi),
        sound_weight(config.w_volume),
        sound_weight(config.w_proximity),
    ensures
        algebra::no_less_than_zero(
            score_strike(k, m, applied_weights(config, m), spot).gravity_score,
        ),
{
    let zero = Num::of(ZERO);
    let w = applied_weights(config, m);
    let g = if positive(m.gex) {
        config.w_gex
    } else {
        zero
    };
    let o = if positive(m.oi) {
        config.w_oi
    } else {
        zero
    };
    let v = if positive(m.volume) {
        config.w_volume
    } else {
        zero
    };
    let sum = g.fadd(o).fadd(v).fadd(config.w_proximity);
    let d = if positive(sum) {
        sum
    } else {
        Num::of(ONE)
    };
    algebra::lemma_div_kind(g, d);
    algebra::lemma_div_kind(o, d);
    algebra::lemma_div_kind(v, d);
    algebra::lemma_div_kind(config.w_proximity, d);
    if positive(m.gex) {
        algebra::lemma_div_kind(k.net_gex.fabs(), m.gex);
    }
    if positive(m.oi) {
        algebra::lemma_div_kind(k.oi, m.oi);
    }
    if positive(m.volume) {
        algebra::lemma_div_kind(k.volume, m.volume);
    }
    let a = w.gex.fmul(relative(k.net_gex.fabs(), m.gex));
    let b = w.oi.fmul(relative(k.oi, m.oi));
    let c = w.volume.fmul(relative(k.volume, m.volume));
    let e = w.proximity.fmul(k.proximity);
    algebra::lemma_mul_kind(w.gex, relative(k.net_gex.fabs(), m.gex));
    algebra::lemma_mul_kind(w.oi, relative(k.oi, m.oi));
    algebra::lemma_mul_kind(w.volume, relative(k.volume, m.volume));
    algebra::lemma_mul_kind(w.proximity, k.proximity);
    algebra::lemma_add_kind(a, b);
    algebra::lemma_add_kind(a.fadd(b), c);
    algebra::lemma_add_kind(a.fadd(b).fadd(c), e);
}

/// Whether no strike has negative gravity.
pub open spec fn all_pull(rows: Seq<GravityStrike>) -> bool {
    forall|i: int|
        0 <= i < rows.len() ==> algebra::no_less_than_zero((#[trigger] rows[i]).gravity_score)
}

/// Zones of strikes without negative gravity have none.
proof fn lemma_zones_kind(rows: Seq<GravityStrike>, i: int, spot: Num, gap: Num)
    requires
        0 <= i,
        all_pull(rows),
    ensures
        forall|k: int|
            0 <= k < zones_from(rows, i, spot, gap).len() ==> algebra::no_less_than_zero(
                (#[trigger] zones_from(rows, i, spot, gap)[k]).gravity,
            ),
    decreases rows.len() - i,
{
    if i < rows.len() {
        lemma_cluster_end(rows, i, gap);
        let j = cluster_end(rows, i, gap);
        let cluster = rows.subrange(i, j + 1);
        let scores = cluster.map_values(|s: GravityStrike| s.gravity_score);
        assert forall|k: int| 0 <= k < scores.len() implies algebra::no_less_than_zero(
            #[trigger] scores[k],
        ) by {
            assert(cluster[k] == rows[i + k]);
        }
        sums::lemma_sum_kind(scores);
        lemma_zones_kind(rows, j + 1, spot, gap);
    }
}

/// The cluster score lies between 0 and 1, where no weight, amount or proximity
/// is negative.
pub proof fn law_cluster_score_bounded(
    g: StrikeGravity,
    rows: Seq<GravityStrikeInput>,
    prox: Seq<Num>,
    spot: Num,
    config: GravityConfig,
)
    requires
        g.is_map_of(rows, prox, spot, config),
        rows.len() <= prox.len(),
        forall|i: int| 0 <= i < rows.len() ==> #[trigger] sound_at(rows, prox, i),
        sound_weight(config.w_gex),
        sound_weight(config.w_oi),
        sound_weight(config.w_volume),
        sound_weight(config.w_proximity),
    ensures
        Num::of(ZERO).fle(g.cluster_score),
        g.cluster_score.fle(Num::of(ONE)),
{
    let kept = kept_rows(rows, prox);
    let m = maxima(kept);
    let w = applied_weights(config, m);
    let scores = kept.map_values(|k: Kept| score_strike(k, m, w, spot));
    let before = |a: GravityStrike, b: GravityStrike| ranks_before(a, b);
    let scored = ranking(rows, prox, spot, config);
    lemma_kept_kind(rows, prox);
    assert forall|i: int| 0 <= i < scored.len() implies algebra::no_less_than_zero(
        (#[trigger] scored[i]).gravity_score,
    ) by {
        sorting::lemma_stable_member(scores, before, i);
        let k = choose|k: int| 0 <= k < scores.len() && scores[k] == scored[i];
        assert(scores[k] == score_strike(kept[k], m, w, spot));
        lemma_gravity_kind(kept[k], m, config, spot);
    }
    let n = if config.top_n < scored.len() {
        config.top_n as int
    } else {
        scored.len() as int
    };
    let ranked = scored.take(n);
    let gap = step_of(strikes_of(scored), spot).fmul(Num::of(ZONE_GAP_STEP_MULT)).fmax(
        spot.fmul(Num::of(ZONE_GAP_MIN_PCT)),
    );
    let lower = |a: GravityStrike, b: GravityStrike| lower_strike(a, b);
    let more = |a: GravityZone, b: GravityZone| more_gravity(a, b);
    let by_strike = sorting::stable_sorted(ranked, lower);
    assert forall|i: int| 0 <= i < by_strike.len() implies algebra::no_less_than_zero(
        (#[trigger] by_strike[i]).gravity_score,
    ) by {
        sorting::lemma_stable_member(ranked, lower, i);
        let k = choose|k: int| 0 <= k < ranked.len() && ranked[k] == by_strike[i];
        assert(ranked[k] == scored[k]);
    }
    lemma_zones_kind(by_strike, 0, spot, gap);
    let zones = zones_of(ranked, spot, gap);
    if g.zones@.len() > 0 {
        sorting::lemma_stable_member(zones, more, 0);
        let k = choose|k: int| 0 <= k < zones.len() && zones[k] == g.zones@[0];
        assert(algebra::no_less_than_zero(zones[k].gravity));
        let total = sums::sum(ranked.map_values(|s: GravityStrike| s.gravity_score));
        let d = if positive(total) {
            total
        } else {
            Num::of(TOTAL_GRAVITY_FLOOR)
        };
        algebra::lemma_div_kind(g.zones@[0].gravity, d);
    }
}

/// A share of a sum lies between 0 and 1.
proof fn lemma_share_bounded(v: Num, d: Num)
    requires
        sound_weight(v),
        sound_weight(d),
        Num::of(ZERO).flt(d),
        v.fle(d),
    ensures
        sound_weight(v.fdiv(d)),
        v.fdiv(d).fle(Num::of(ONE)),
{
    lemma_share_finite(v, d);
    algebra::law_div_monotone(v, d, d);
    algebra::law_div_self(d);
    reveal(Num::fdiv);
}

/// The weights that are applied lie between 0 and 1.
proof fn lemma_applied_bounded(config: GravityConfig, m: AxisMaxima)
    requires
        sound_weight(config.w_gex),
        sound_weight(config.w_oi),
        sound_weight(config.w_volume),
        sound_weight(config.w_proximity),
        Num::of(ZERO).flt(config.w_proximity),
        config.w_gex.fadd(config.w_oi).fadd(config.w_volume).fadd(config.w_proximity).finite(),
    ensures
        ({
            let (w, one) = (applied_weights(config, m), Num::of(ONE));
            &&& sound_weight(w.gex) && w.gex.fle(one)
            &&& sound_weight(w.oi) && w.oi.fle(one)
            &&& sound_weight(w.volume) && w.volume.fle(one)
            &&& sound_weight(w.proximity) && w.proximity.fle(one)
        }),
{
    let zero = Num::of(ZERO);
    let g = if positive(m.gex) {
        config.w_gex
    } else {
        zero
    };
    let o = if positive(m.oi) {
        config.w_oi
    } else {
        zero
    };
    let v = if positive(m.volume) {
        config.w_volume
    } else {
        zero
    };
    let p = config.w_proximity;
    lemma_kept_sum(config, g, o, v);
    algebra::lemma_add_not_negative(g, o);
    algebra::lemma_add_not_negative(g.fadd(o), v);
    let d = g.fadd(o).fadd(v).fadd(p);
    algebra::lemma_add_not_negative(g.fadd(o).fadd(v), p);
    lemma_share_bounded(g, d);
    lemma_share_bounded(o, d);
    lemma_share_bounded(v, d);
    lemma_share_bounded(p, d);
}

/// A weight times a share is at most the weight.
proof fn lemma_part(w: Num, share: Num)
    requires
        sound_weight(w),
        w.fle(Num::of(ONE)),
        Num::of(ZERO).fle(share),
        share.fle(Num::of(ONE)),
    ensures
        Num::of(ZERO).fle(w.fmul(share)),
        w.fmul(share).fle(w),
        bounds::within(w.fmul(share), 0),
        bounds::within(w, 0),
{
    bounds::lemma_power(0);
    algebra::lemma_weighted(w, share);
}

/// A sum of finite numbers that are not greater is not greater.
proof fn lemma_sum_below(x: Num, y: Num, a: Num, b: Num)
    requires
        x.finite() && y.finite() && a.finite() && b.finite(),
        x.fle(a),
        y.fle(b),
    ensures
        x.fadd(y).fle(a.fadd(b)),
{
    algebra::lemma_add_is_number(x, y);
    algebra::lemma_add_is_number(a, y);
    algebra::lemma_add_is_number(y, a);
    algebra::lemma_add_is_number(b, a);
    algebra::law_add_monotone(x, a, y);
    algebra::law_add_commutes(a, y);
    algebra::law_add_commutes(a, b);
    algebra::law_add_monotone(y, b, a);
}

/// Four weights that add up to one, up to 2^-48, add up to at most one, up to
/// 2^-47, when each addition is rounded.
proof fn lemma_rounded_weights(g: Num, o: Num, v: Num, p: Num)
    requires
        bounds::within(g, 0) && bounds::within(o, 0),
        bounds::within(v, 0) && bounds::within(p, 0),
        sound_weight(g) && sound_weight(o) && sound_weight(v) && sound_weight(p),
        g.exact() + o.exact() + v.exact() + p.exact() <= 1real + 32real * exact::eps(),
    ensures
        g.fadd(o).fadd(v).fadd(p).finite(),
        g.fadd(o).fadd(v).fadd(p).exact() <= 1real + 64real * exact::eps(),
{
    let (zero, x, y) = (Num::of(ZERO), g.fadd(o), g.fadd(o).fadd(v));
    let d = y.fadd(p);
    let (a, b, c, q) = (g.exact(), o.exact(), v.exact(), p.exact());
    bounds::lemma_add_within(g, o, 0);
    bounds::lemma_within_more(v, 0, 1);
    bounds::lemma_add_within(x, v, 1);
    bounds::lemma_within_more(p, 0, 2);
    bounds::lemma_add_within(y, p, 2);
    algebra::lemma_add_not_negative(g, o);
    algebra::lemma_add_not_negative(x, v);
    exact::lemma_exact_zero(zero);
    exact::lemma_exact_order(zero, g);
    exact::lemma_exact_order(zero, o);
    exact::lemma_exact_order(zero, v);
    exact::lemma_exact_order(zero, p);
    exact::lemma_exact_order(zero, x);
    exact::lemma_exact_order(zero, y);
    exact::lemma_near_add(g, o);
    exact::lemma_near_add(x, v);
    exact::lemma_near_add(y, p);
    exact::lemma_near_self(c);
    exact::lemma_near_more(c, c, 0real, 1real);
    exact::lemma_near_sum(x.exact(), a + b, c, c, 1real);
    exact::lemma_near_step(y.exact(), x.exact() + c, a + b + c, 1real, 1real);
    exact::lemma_near_self(q);
    exact::lemma_near_more(q, q, 0real, 3real);
    exact::lemma_near_sum(y.exact(), a + b + c, q, q, 3real);
    let (t, e) = (a + b + c + q, exact::eps());
    exact::lemma_near_step(d.exact(), y.exact() + q, t, 1real, 3real);
    exact::lemma_times(t, 2real, e);
    assert(t * (1real + 5real * e) == t + 5real * (t * e)) by (nonlinear_arith);
}

/// The gravity of a strike lies between 0 and 1, up to 2^-47, where its amounts
/// are finite and not negative and its proximity lies between 0 and 1.
pub proof fn law_gravity_score_bounded(
    rows: Seq<Kept>,
    i: int,
    config: GravityConfig,
    spot: Num,
)
    requires
        0 <= i < rows.len(),
        rows[i].net_gex.finite(),
        Num::of(ZERO).fle(rows[i].oi),
        Num::of(ZERO).fle(rows[i].volume),
        Num::of(ZERO).fle(rows[i].proximity),
        rows[i].proximity.fle(Num::of(ONE)),
        maxima(rows).gex.finite(),
        maxima(rows).oi.finite(),
        maxima(rows).volume.finite(),
        sound_weight(config.w_gex),
        sound_weight(config.w_oi),
        sound_weight(config.w_volume),
        sound_weight(config.w_proximity),
        Num::of(ZERO).flt(config.w_proximity),
        config.w_gex.fadd(config.w_oi).fadd(config.w_volume).fadd(config.w_proximity).finite(),
    ensures
        ({
            let m = maxima(rows);
            let s = score_strike(rows[i], m, applied_weights(config, m), spot).gravity_score;
            &&& s.finite()
            &&& 0real <= s.exact() <= 1real + 64real * exact::eps()
        }),
{
    let (k, m) = (rows[i], maxima(rows));
    let w = applied_weights(config, m);
    let st = score_strike(k, m, w, spot);
    law_axis_weights_bounded(rows, i, w, spot);
    law_weights_add_up(config, m);
    lemma_applied_bounded(config, m);
    let a = w.gex.fmul(st.gex_weight);
    let b = w.oi.fmul(st.oi_weight);
    let c = w.volume.fmul(st.volume_weight);
    let e = w.proximity.fmul(k.proximity);
    lemma_part(w.gex, st.gex_weight);
    lemma_part(w.oi, st.oi_weight);
    lemma_part(w.volume, st.volume_weight);
    lemma_part(w.proximity, k.proximity);
    bounds::lemma_add_within(a, b, 0);
    bounds::lemma_within_more(c, 0, 1);
    bounds::lemma_add_within(a.fadd(b), c, 1);
    bounds::lemma_within_more(e, 0, 2);
    bounds::lemma_add_within(a.fadd(b).fadd(c), e, 2);
    algebra::lemma_add_kind(a, b);
    algebra::lemma_add_kind(a.fadd(b), c);
    algebra::lemma_add_kind(a.fadd(b).fadd(c), e);
    bounds::lemma_add_within(w.gex, w.oi, 0);
    bounds::lemma_within_more(w.volume, 0, 1);
    bounds::lemma_add_within(w.gex.fadd(w.oi), w.volume, 1);
    lemma_sum_below(a, b, w.gex, w.oi);
    lemma_sum_below(a.fadd(b), c, w.gex.fadd(w.oi), w.volume);
    lemma_sum_below(a.fadd(b).fadd(c), e, w.gex.fadd(w.oi).fadd(w.volume), w.proximity);
    lemma_rounded_weights(w.gex, w.oi, w.volume, w.proximity);
    let top = w.gex.fadd(w.oi).fadd(w.volume).fadd(w.proximity);
    exact::lemma_exact_order(st.gravity_score, top);
    exact::lemma_exact_zero(Num::of(ZERO));
    exact::lemma_exact_order(Num::of(ZERO), st.gravity_score);
}

/// Whether the gravity of every strike is a number.
pub open spec fn all_numbers(rows: Seq<GravityStrike>) -> bool {
    forall|i: int| 0 <= i < rows.len() ==> !(#[trigger] rows[i]).gravity_score.nan()
}

/// Whether a magnet is that of its side: the first ranked strike there, which
/// no other there exceeds in gravity; none where there is no strike.
pub open spec fn leads_side(
    magnet: Option<Num>,
    rows: Seq<GravityStrike>,
    spot: Num,
    below: bool,
) -> bool {
    match magnet {
        None => forall|j: int|
            0 <= j < rows.len() ==> !on_side((#[trigger] rows[j]).strike, spot, below),
        Some(strike) => exists|i: int| #[trigger] leads_at(rows, spot, below, i) && rows[i].strike
            == strike,
    }
}

/// Whether row `i` is the first ranked strike of its side and has the most
/// gravity there.
pub open spec fn leads_at(rows: Seq<GravityStrike>, spot: Num, below: bool, i: int) -> bool {
    &&& 0 <= i < rows.len()
    &&& on_side(rows[i].strike, spot, below)
    &&& forall|j: int|
        0 <= j < rows.len() && on_side((#[trigger] rows[j]).strike, spot, below) ==> i <= j
            && rows[j].gravity_score.fle(rows[i].gravity_score)
}

/// The first row on a side.
proof fn lemma_first_on_side(rows: Seq<GravityStrike>, spot: Num, below: bool) -> (i: int)
    ensures
        side_rows(rows, spot, below).len() == 0 ==> forall|j: int|
            0 <= j < rows.len() ==> !on_side((#[trigger] rows[j]).strike, spot, below),
        side_rows(rows, spot, below).len() > 0 ==> {
            &&& 0 <= i < rows.len()
            &&& rows[i] == side_rows(rows, spot, below)[0]
            &&& on_side(rows[i].strike, spot, below)
            &&& forall|j: int|
                0 <= j < rows.len() && on_side((#[trigger] rows[j]).strike, spot, below) ==> i <= j
        },
    decreases rows.len(),
{
    if rows.len() == 0 {
        0
    } else {
        let r = rows.drop_last();
        assert(forall|j: int| 0 <= j < r.len() ==> r[j] == rows[j]);
        let i = lemma_first_on_side(r, spot, below);
        if side_rows(r, spot, below).len() > 0 {
            i
        } else {
            rows.len() - 1
        }
    }
}

/// The magnet of a side is the first ranked strike there.
proof fn lemma_leads(rows: Seq<GravityStrike>, spot: Num, below: bool)
    requires
        forall|i: int, j: int|
            0 <= i <= j < rows.len() ==> (#[trigger] rows[j]).gravity_score.fle(
                (#[trigger] rows[i]).gravity_score,
            ),
    ensures
        leads_side(magnet_on_side(rows, spot, below), rows, spot, below),
{
    let i = lemma_first_on_side(rows, spot, below);
    if side_rows(rows, spot, below).len() > 0 {
        assert(leads_at(rows, spot, below, i));
    }
}

/// The strikes of a gravity map fall in gravity, those of equal gravity rise;
/// the first is the primary magnet, and the magnet of each side is the first
/// there, where the gravities are numbers.
pub proof fn law_strikes_fall_in_gravity(
    g: StrikeGravity,
    rows: Seq<GravityStrikeInput>,
    prox: Seq<Num>,
    spot: Num,
    config: GravityConfig,
)
    requires
        g.is_map_of(rows, prox, spot, config),
        all_numbers(g.strikes@),
    ensures
        forall|i: int, j: int|
            0 <= i < j < g.strikes@.len() ==> {
                &&& (#[trigger] g.strikes@[j]).gravity_score.fle(
                    (#[trigger] g.strikes@[i]).gravity_score,
                )
                &&& g.strikes@[j].gravity_score.feq(g.strikes@[i].gravity_score)
                    ==> g.strikes@[i].strike.fle(g.strikes@[j].strike)
            },
        g.primary_magnet == Some(g.strikes@[0].strike),
        leads_side(g.upper_magnet, g.strikes@, spot, false),
        leads_side(g.lower_magnet, g.strikes@, spot, true),
{
    let kept = kept_rows(rows, prox);
    let m = maxima(kept);
    let w = applied_weights(config, m);
    let scores = kept.map_values(|k: Kept| score_strike(k, m, w, spot));
    let before = |a: GravityStrike, b: GravityStrike| ranks_before(a, b);
    let t = g.strikes@;
    assert(t == sorting::stable_sorted(scores, before));
    sorting::lemma_stable_len(scores, before);
    sorting::law_stable_permutes(scores, before);
    t.to_multiset_ensures();
    scores.to_multiset_ensures();
    assert forall|a: GravityStrike| #[trigger] scores.contains(a) implies !a.gravity_score.nan()
        && !a.strike.nan() by {
        assert(scores.to_multiset().count(a) > 0);
        assert(t.contains(a));
        let i = choose|i: int| 0 <= i < t.len() && t[i] == a;
        let k = choose|k: int| 0 <= k < scores.len() && scores[k] == a;
        lemma_kept_positive(rows, prox, k);
    }
    assert(sorting::suits(scores, before));
    sorting::law_stable_is_ordered(scores, before);
    assert forall|i: int, j: int| 0 <= i <= j < t.len() implies (#[trigger] t[j]).gravity_score.fle(
        (#[trigger] t[i]).gravity_score,
    ) by {
        if i < j {
            assert(!before(t[j], t[i]));
        }
    }
    assert forall|i: int, j: int| 0 <= i < j < t.len() implies ((
    #[trigger] t[j]).gravity_score.feq((#[trigger] t[i]).gravity_score) ==> t[i].strike.fle(
        t[j].strike,
    )) by {
        assert(!before(t[j], t[i]));
        sorting::lemma_stable_member(scores, before, i);
        sorting::lemma_stable_member(scores, before, j);
    }
    lemma_leads(t, spot, false);
    lemma_leads(t, spot, true);
}

/// A strike that takes part is positive.
proof fn lemma_kept_positive(rows: Seq<GravityStrikeInput>, prox: Seq<Num>, k: int)
    requires
        0 <= k < kept_rows(rows, prox).len(),
    ensures
        Num::of(ZERO).flt(kept_rows(rows, prox)[k].strike),
    decreases rows.len(),
{
    if rows.len() > 0 && k < kept_rows(rows.drop_last(), prox).len() {
        lemma_kept_positive(rows.drop_last(), prox, k);
    }
}

} // verus!
