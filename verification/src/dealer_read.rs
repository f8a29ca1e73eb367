//! Dealer-read composites: the 0DTE probability read, the terminal read and
//! the GEX outlook.
//!
//! These are composites over dealer structure that was computed elsewhere:
//! every input is a parameter, nothing upstream is recomputed.  Directional
//! engagement is a `Readout`; bias, regime and outlook are descriptive data.

use crate::algebra;
use crate::arith;
use crate::bounds;
use crate::consts::{HUNDRED, INFINITY, NEG_ZERO, ONE, TWO, ZERO};
use crate::dist;
use crate::exact;
use crate::first_passage;
use crate::integral;
use crate::num::Num;
use crate::risk;
use crate::sorting;
use crate::state::{BinaryState, HysteresisBand, Readout};
use crate::sums;
use vstd::arithmetic::power2::*;
use vstd::prelude::*;

verus! {

/// Trading days per year (252.0).
pub const TRADING_DAYS: u64 = 0x406F_8000_0000_0000;

/// Regular-session hours (6.5).
pub const SESSION_HOURS: u64 = 0x401A_0000_0000_0000;

/// Least intraday year fraction (1e-06).
pub const T_FLOOR: u64 = 0x3EB0_C6F7_A0B5_ED8D;

/// Default risk-free rate of the 0DTE probabilities (0.05).
pub const DEFAULT_RISK_FREE: u64 = 0x3FA9_9999_9999_999A;

/// Pin time ramp at the open (0.4).
pub const PIN_TIME_BASE: u64 = 0x3FD9_9999_9999_999A;

/// Pin time ramp added by the close (0.6).
pub const PIN_TIME_SLOPE: u64 = 0x3FE3_3333_3333_3333;

/// Attenuation of a pin in short gamma (0.35).
pub const PIN_SHORT_GAMMA_FACTOR: u64 = 0x3FD6_6666_6666_6666;

/// Magnet band, in strike spacings (1.5).
pub const MAGNET_BAND_SPACING_MULT: u64 = 0x3FF8_0000_0000_0000;

/// Strike-spacing fallback, fraction of the magnet price (0.0025).
pub const SPACING_FALLBACK_PCT: u64 = 0x3F64_7AE1_47AE_147B;

/// Slope of the settlement vol adjustment (0.25).
pub const SETTLEMENT_VOL_ADJ_SLOPE: u64 = 0x3FD0_0000_0000_0000;

/// Least settlement vol adjustment (0.75).
pub const SETTLEMENT_VOL_ADJ_MIN: u64 = 0x3FE8_0000_0000_0000;

/// Greatest settlement vol adjustment (1.25).
pub const SETTLEMENT_VOL_ADJ_MAX: u64 = 0x3FF4_0000_0000_0000;

/// Closes needed before momentum is read.
pub const MOMENTUM_MIN_CLOSES: usize = 4;

/// Momentum reads up beyond this multiple of the first close (1.0005).
pub const MOMENTUM_BAND_UP: u64 = 0x3FF0_020C_49BA_5E35;

/// Momentum reads down below this multiple of the first close (0.9995).
pub const MOMENTUM_BAND_DOWN: u64 = 0x3FEF_FBE7_6C8B_4396;

/// Weight of the gamma-flip signal (28.0).
pub const W_FLIP: u64 = 0x403C_0000_0000_0000;

/// Weight of the magnet signal in a pin (24.0).
pub const W_MAGNET_PIN: u64 = 0x4038_0000_0000_0000;

/// Weight of the magnet signal in a trend (8.0).
pub const W_MAGNET_TREND: u64 = 0x4020_0000_0000_0000;

/// Magnet dead zone, percent (0.08).
pub const MAGNET_PIN_BAND_PCT: u64 = 0x3FB4_7AE1_47AE_147B;

/// Weight of the wall-cage signal (16.0).
pub const W_WALL: u64 = 0x4030_0000_0000_0000;

/// Relative cage position above which the read leans short (0.72).
pub const WALL_REL_HIGH: u64 = 0x3FE7_0A3D_70A3_D70A;

/// Relative cage position below which the read leans long (0.28).
pub const WALL_REL_LOW: u64 = 0x3FD1_EB85_1EB8_51EC;

/// Weight of the open-interest signal (18.0).
pub const W_POSITIONING: u64 = 0x4032_0000_0000_0000;

/// Call share of open interest that reads call-heavy, percent (55.0).
pub const OI_SKEW_HIGH_PCT: u64 = 0x404B_8000_0000_0000;

/// Call share of open interest that reads put-heavy, percent (45.0).
pub const OI_SKEW_LOW_PCT: u64 = 0x4046_8000_0000_0000;

/// Weight of the momentum signal in a pin (12.0).
pub const W_MOM_PIN: u64 = 0x4028_0000_0000_0000;

/// Weight of the momentum signal in a trend (24.0).
pub const W_MOM_TREND: u64 = 0x4038_0000_0000_0000;

/// Absolute score beyond which the read is directional (18.0).
pub const BIAS_SCORE_THRESH: u64 = 0x4032_0000_0000_0000;

/// Confidence cap of a neutral read (40.0).
pub const NEUTRAL_CONF_CAP: u64 = 0x4044_0000_0000_0000;

/// Scale of the pin proximity, fraction of spot (0.004).
pub const PIN_PROX_SCALE_PCT: u64 = 0x3F70_624D_D2F1_A9FC;

/// Bracket coherence dead zone, fraction of spot (0.0006).
pub const BRACKET_DEADZONE_PCT: u64 = 0x3F43_A92A_3055_3261;

/// Weight of the score in the position strength (0.45).
pub const PS_W_SCORE: u64 = 0x3FDC_CCCC_CCCC_CCCD;

/// Weight of the confidence in the position strength (0.35).
pub const PS_W_CONF: u64 = 0x3FD6_6666_6666_6666;

/// Weight of the regime clarity in the position strength (0.2).
pub const PS_W_CLARITY: u64 = 0x3FC9_9999_9999_999A;

/// Clarity gain of a trend (1.1).
pub const TREND_CLARITY_GAIN: u64 = 0x3FF1_9999_9999_999A;

/// Divisor of the position strength without a trade (2.0).
pub const PS_NOTRADE_DIVISOR: u64 = 0x4000_0000_0000_0000;

/// Score at which a read engages (0.18).
pub const READ_ACTIVATE: u64 = 0x3FC7_0A3D_70A3_D70A;

/// Score at which a read disengages (0.15).
pub const READ_DEACTIVATE: u64 = 0x3FC3_3333_3333_3333;

/// Confidence without usable structure (10.0).
pub const OUTLOOK_CONF_NODATA: u64 = 0x4024_0000_0000_0000;

/// Multiple of the window low beyond which price has turned up (1.0005).
pub const REVERSAL_UP_BAND: u64 = 0x3FF0_020C_49BA_5E35;

/// Greatest distance to the pin target, percent (0.2).
pub const PINNING_DIST_PCT: u64 = 0x3FC9_9999_9999_999A;

/// Least pin strength (40.0).
pub const PINNING_MIN_STRENGTH: u64 = 0x4044_0000_0000_0000;

/// Greatest distance to the call wall, percent (0.6).
pub const SQUEEZE_WALL_DIST_PCT: u64 = 0x3FE3_3333_3333_3333;

/// Fallback confidence in long gamma (35.0).
pub const OUTLOOK_CONF_FALLBACK_LONG: u64 = 0x4041_8000_0000_0000;

/// Fallback confidence in short gamma (30.0).
pub const OUTLOOK_CONF_FALLBACK_SHORT: u64 = 0x403E_0000_0000_0000;

/// -1.0.
pub const MINUS_ONE: u64 = 0xBFF0_0000_0000_0000;

/// -100.0.
pub const MINUS_HUNDRED: u64 = 0xC059_0000_0000_0000;

/// -0.5.
pub const NEG_HALF: u64 = 0xBFE0_0000_0000_0000;

/// 50.0.
pub const FIFTY: u64 = 0x4049_0000_0000_0000;

/// -18.0.
pub const NEG_BIAS_THRESH: u64 = 0xC032_0000_0000_0000;

/// 6.0.
pub const N6: u64 = 0x4018_0000_0000_0000;

/// 8.0.
pub const N8: u64 = 0x4020_0000_0000_0000;

/// 10.0.
pub const N10: u64 = 0x4024_0000_0000_0000;

/// 16.0.
pub const N16: u64 = 0x4030_0000_0000_0000;

/// 20.0.
pub const N20: u64 = 0x4034_0000_0000_0000;

/// 30.0.
pub const N30: u64 = 0x403E_0000_0000_0000;

/// 40.0.
pub const N40: u64 = 0x4044_0000_0000_0000;

/// 45.0.
pub const N45: u64 = 0x4046_8000_0000_0000;

/// 48.0.
pub const N48: u64 = 0x4048_0000_0000_0000;

/// 52.0.
pub const N52: u64 = 0x404A_0000_0000_0000;

/// 54.0.
pub const N54: u64 = 0x404B_0000_0000_0000;

/// 56.0.
pub const N56: u64 = 0x404C_0000_0000_0000;

/// 78.0.
pub const N78: u64 = 0x4053_8000_0000_0000;

/// 86.0.
pub const N86: u64 = 0x4055_8000_0000_0000;

/// 88.0.
pub const N88: u64 = 0x4056_0000_0000_0000;

/// 90.0.
pub const N90: u64 = 0x4056_8000_0000_0000;

/// 92.0.
pub const N92: u64 = 0x4057_0000_0000_0000;

/// 96.0.
pub const N96: u64 = 0x4058_0000_0000_0000;

/// Confidence per point of pin strength while pinning (0.55).
pub const PINNING_GAIN: u64 = 0x3FE1_9999_9999_999A;

/// Confidence per point of pin strength in a range (0.2).
pub const RANGE_GAIN: u64 = 0x3FC9_9999_9999_999A;

/// Band that resolves the engagement of a read.
#[verifier::allow_in_spec]
pub fn read_engaged_band() -> HysteresisBand
    returns
        (HysteresisBand {
            activate_at: Num::of(READ_ACTIVATE),
            deactivate_at: Num::of(READ_DEACTIVATE),
        }),
{
    HysteresisBand::new(Num::of(READ_ACTIVATE), Num::of(READ_DEACTIVATE))
}

/// One strike's signed net gamma exposure.
#[derive(Debug, Clone, Copy, PartialEq)]
pub struct StrikeGex {
    /// Strike price, points.
    pub strike: Num,
    /// Signed net gamma exposure at the strike.
    pub net_gex: Num,
}

/// The dealer structure that the composites read.
#[derive(Debug, PartialEq)]
pub struct ProfileInputs {
    /// Underlying spot, points.
    pub spot: Num,
    /// Net dealer gamma exposure, signed.
    pub net_gex: Num,
    /// Gamma-flip level, points.
    pub gamma_flip: Option<Num>,
    /// Primary magnet strike, points.
    pub magnet: Option<Num>,
    /// Call wall strike, points.
    pub call_wall: Option<Num>,
    /// Put wall strike, points.
    pub put_wall: Option<Num>,
    /// Expected move as a fraction of spot.
    pub expected_move_pct: Option<Num>,
    /// Total call open interest, contracts.
    pub total_call_oi: Num,
    /// Total put open interest, contracts.
    pub total_put_oi: Num,
    /// Per-strike signed net gamma.
    pub strikes: Vec<StrikeGex>,
}

/// Expected-move band at one horizon.
#[derive(Debug, Clone, Copy, PartialEq)]
pub struct EmBand {
    /// Horizon, hours.
    pub hours: Num,
    /// One-sigma move, points.
    pub move_pts: Num,
    /// One-sigma move as a fraction of spot.
    pub move_pct: Num,
    /// Spot plus one sigma.
    pub upper1: Num,
    /// Spot less one sigma.
    pub lower1: Num,
    /// Spot plus two sigma.
    pub upper2: Num,
    /// Spot less two sigma.
    pub lower2: Num,
}

/// Pin diagnostics of the 0DTE read.
#[derive(Debug, Clone, Copy, PartialEq)]
pub struct PinRead {
    /// Magnet level, points.
    pub magnet: Num,
    /// Pin probability in [0, 1].
    pub probability: Num,
    /// Share of the absolute gamma at the magnet band, at most 1.
    pub gamma_share: Num,
    /// Distance from spot to the magnet over spot.
    pub distance_pct: Num,
}

/// The 0DTE probability read.
#[derive(Debug, Clone, Copy, PartialEq)]
pub struct ZeroDte {
    /// Hours until the close.
    pub hours_to_close: Num,
    /// Year fraction to the close.
    pub t_years: Num,
    /// Expected-move bands: one hour and end of day.
    pub bands: [EmBand; 2],
    /// Pin diagnostics.
    pub pin: PinRead,
    /// Centre of mass of the positive gamma, points.
    pub eod_magnet: Num,
    /// Probability of a close beyond one expected move.
    pub settlement_risk: Num,
    /// At-the-money implied vol, annualized decimal.
    pub atm_iv: Num,
}

/// Directional bias.
#[derive(Debug, Clone, Copy, PartialEq, Eq, Structural)]
pub enum Bias {
    /// Score above +18.
    Long,
    /// Score below -18.
    Short,
    /// Score within the neutral band.
    Neutral,
}

/// Dealer regime by the sign of net gamma.
#[derive(Debug, Clone, Copy, PartialEq, Eq, Structural)]
pub enum DealerRegime {
    /// Long gamma: dealers stabilize.
    Pin,
    /// Short gamma: dealers amplify.
    Trend,
}

/// One weighted confluence signal.
#[derive(Debug, PartialEq)]
pub struct ReadSignal {
    /// Signal name.
    pub name: String,
    /// Direction: -1, 0, +1.
    pub dir: i8,
    /// Signal weight.
    pub weight: Num,
}

/// A signal by its contents.
pub struct SignalView {
    pub name: Seq<char>,
    pub dir: i8,
    pub weight: Num,
}

impl View for ReadSignal {
    type V = SignalView;

    open spec fn view(&self) -> SignalView {
        SignalView { name: self.name@, dir: self.dir, weight: self.weight }
    }
}

/// The trade bracket of a read, when coherent.
#[derive(Debug, Clone, Copy, PartialEq)]
pub struct Bracket {
    /// Target level, points.
    pub target: Option<Num>,
    /// Stop level, points.
    pub stop: Option<Num>,
    /// Whether a directional bias lacked a coherent bracket.
    pub no_trade: bool,
}

/// The terminal read: directional confluence over dealer structure.
#[derive(Debug, PartialEq)]
pub struct TerminalRead {
    /// Signed confluence score in [-100, 100].
    pub score: Num,
    /// Directional bias.
    pub bias: Bias,
    /// Dealer regime.
    pub regime: DealerRegime,
    /// Signal-agreement confidence, 0 to 100.
    pub confidence: Num,
    /// Pin strength, 0 to 100; 0 in a trend.
    pub pin_strength: Num,
    /// Position strength, 0 to 100.
    pub position_strength: Num,
    /// The weighted signals behind the score.
    pub signals: Vec<ReadSignal>,
    /// Target and stop.
    pub bracket: Bracket,
    /// Whether the score clears the bias threshold.
    pub engaged: Readout,
}

/// GEX-outlook regime.
#[derive(Debug, Clone, Copy, PartialEq, Eq, Structural)]
pub enum OutlookRegime {
    /// Long gamma, price glued to the pin target.
    Pinning,
    /// Long gamma, pressing the call wall with call-heavy open interest.
    GammaSqueeze,
    /// Short gamma, put-heavy, turning up off the lows.
    ShortSqueeze,
    /// Short gamma, below the flip, momentum down.
    TrendDown,
    /// Short gamma, above the flip, momentum up.
    TrendUp,
    /// Long gamma, caged between the walls.
    Range,
    /// No usable structure.
    Neutral,
}

/// Outlook path bias.
#[derive(Debug, Clone, Copy, PartialEq, Eq, Structural)]
pub enum OutlookBias {
    /// Upward path.
    Up,
    /// Downward path.
    Down,
    /// Sideways path.
    Sideways,
}

/// The GEX outlook: what the dealer book is likely to make price do.
#[derive(Debug, Clone, Copy, PartialEq)]
pub struct GexOutlook {
    /// Regime classification.
    pub regime: OutlookRegime,
    /// Path bias.
    pub bias: OutlookBias,
    /// Target level, points, when the regime implies one.
    pub target: Option<Num>,
    /// Read confidence, 0 to 100.
    pub confidence: Num,
}

/// `max(T_FLOOR, (max(0, hours) / 6.5) / 252)`.
pub open spec fn year_fraction(hours: Num) -> Num {
    hours.fmax(Num::of(ZERO)).fdiv(Num::of(SESSION_HOURS)).fdiv(Num::of(TRADING_DAYS)).fmax(
        Num::of(T_FLOOR),
    )
}

/// Intraday year fraction, never below its floor.
pub fn hours_to_year_fraction(hours: Num) -> (r: Num)
    ensures
        r == year_fraction(hours),
{
    ((hours.max(Num::of(ZERO)) / Num::of(SESSION_HOURS)) / Num::of(TRADING_DAYS)).max(
        Num::of(T_FLOOR),
    )
}

impl EmBand {
    /// The band of a horizon.
    pub open spec fn at(spot: Num, iv: Num, hours: Num) -> EmBand {
        let s = spot.fmul(iv).fmul(year_fraction(hours).fsqrt());
        EmBand {
            hours,
            move_pts: s,
            move_pct: if Num::of(ZERO).flt(spot) {
                s.fdiv(spot)
            } else {
                Num::of(ZERO)
            },
            upper1: spot.fadd(s),
            lower1: spot.fsub(s),
            upper2: spot.fadd(Num::of(TWO).fmul(s)),
            lower2: spot.fsub(Num::of(TWO).fmul(s)),
        }
    }
}

fn em_band(spot: Num, iv: Num, hours: Num) -> (r: EmBand)
    ensures
        r == EmBand::at(spot, iv, hours),
{
    let s = spot * iv * hours_to_year_fraction(hours).sqrt();
    EmBand {
        hours,
        move_pts: s,
        move_pct: if spot > Num::of(ZERO) {
            s / spot
        } else {
            Num::of(ZERO)
        },
        upper1: spot + s,
        lower1: spot - s,
        upper2: spot + Num::of(TWO) * s,
        lower2: spot - Num::of(TWO) * s,
    }
}

/// Moment and mass of the positive gamma over the strikes.
pub open spec fn positive_mass(strikes: Seq<StrikeGex>) -> (Num, Num)
    decreases strikes.len(),
{
    if strikes.len() == 0 {
        (Num::of(ZERO), Num::of(ZERO))
    } else {
        let (num, den) = positive_mass(strikes.drop_last());
        let s = strikes.last();
        let g = s.net_gex.fmax(Num::of(ZERO));
        if Num::of(ZERO).flt(s.strike) && Num::of(ZERO).flt(g) {
            (num.fadd(s.strike.fmul(g)), den.fadd(g))
        } else {
            (num, den)
        }
    }
}

/// Centre of mass of the positive gamma; spot where there is none.
pub open spec fn gamma_centre(strikes: Seq<StrikeGex>, spot: Num) -> Num {
    let (num, den) = positive_mass(strikes);
    if Num::of(ZERO).flt(den) {
        num.fdiv(den)
    } else {
        spot
    }
}

/// Centre of mass of the positive gamma; spot where there is none.
pub fn eod_magnet_target(strikes: &Vec<StrikeGex>, spot: Num) -> (r: Num)
    ensures
        r == gamma_centre(strikes@, spot),
{
    let zero = Num::of(ZERO);
    let mut num = zero;
    let mut den = zero;
    let mut i: usize = 0;
    proof {
        assert(strikes@.take(0) =~= Seq::<StrikeGex>::empty());
    }
    while i < strikes.len()
        invariant
            i <= strikes@.len(),
            zero == Num::of(ZERO),
            (num, den) == positive_mass(strikes@.take(i as int)),
        decreases strikes@.len() - i,
    {
        proof {
            assert(strikes@.take(i + 1).drop_last() =~= strikes@.take(i as int));
        }
        let s = strikes[i];
        let g = s.net_gex.max(zero);
        if s.strike > zero && g > zero {
            num = num + s.strike * g;
            den = den + g;
        }
        i = i + 1;
    }
    proof {
        assert(strikes@.take(i as int) =~= strikes@);
    }
    if den > zero {
        num / den
    } else {
        spot
    }
}

/// The absolute gammas of the strikes.
pub open spec fn abs_gex(strikes: Seq<StrikeGex>) -> Seq<Num> {
    strikes.map_values(|s: StrikeGex| s.net_gex.fabs())
}

/// Total absolute gamma, at least 1.
pub open spec fn total_abs(strikes: Seq<StrikeGex>) -> Num {
    sums::sum(abs_gex(strikes)).fmax(Num::of(ONE))
}

fn abs_values(strikes: &Vec<StrikeGex>) -> (r: Vec<Num>)
    ensures
        r@ == abs_gex(strikes@),
{
    let mut r: Vec<Num> = Vec::new();
    let mut i: usize = 0;
    while i < strikes.len()
        invariant
            i <= strikes@.len(),
            r@.len() == i,
            forall|k: int| 0 <= k < i ==> r@[k] == strikes@[k].net_gex.fabs(),
        decreases strikes@.len() - i,
    {
        r.push(strikes[i].net_gex.abs());
        i = i + 1;
    }
    proof {
        assert(r@ =~= abs_gex(strikes@));
    }
    r
}

/// The positive strikes, in order.
pub open spec fn positive_strikes(strikes: Seq<StrikeGex>) -> Seq<Num>
    decreases strikes.len(),
{
    if strikes.len() == 0 {
        Seq::empty()
    } else {
        let rest = positive_strikes(strikes.drop_last());
        if Num::of(ZERO).flt(strikes.last().strike) {
            rest.push(strikes.last().strike)
        } else {
            rest
        }
    }
}

/// The least positive finite step between neighbours among the first `n`; infinite without one.
pub open spec fn least_step(s: Seq<Num>, n: nat) -> Num
    decreases n,
{
    if n < 2 {
        Num::of(INFINITY)
    } else {
        let rest = least_step(s, (n - 1) as nat);
        let g = s[n - 1].fsub(s[n - 2]);
        if Num::of(ZERO).flt(g) && g.finite() {
            rest.fmin(g)
        } else {
            rest
        }
    }
}

/// Strike spacing: the least step of the sorted strikes, else a fraction of the magnet.
pub open spec fn spacing_of(strikes: Seq<StrikeGex>, magnet: Num) -> Num {
    let levels = sorting::deduped(sorting::sorted(positive_strikes(strikes)));
    let step = least_step(levels, levels.len());
    if step.finite() {
        step
    } else {
        magnet.fmul(Num::of(SPACING_FALLBACK_PCT)).fmax(Num::of(ONE))
    }
}

fn strike_spacing(strikes: &Vec<StrikeGex>, magnet: Num) -> (r: Num)
    ensures
        r == spacing_of(strikes@, magnet),
{
    let zero = Num::of(ZERO);
    let mut pos: Vec<Num> = Vec::new();
    let mut i: usize = 0;
    proof {
        assert(strikes@.take(0) =~= Seq::<StrikeGex>::empty());
        assert(pos@ =~= positive_strikes(strikes@.take(0)));
    }
    while i < strikes.len()
        invariant
            i <= strikes@.len(),
            zero == Num::of(ZERO),
            pos@ == positive_strikes(strikes@.take(i as int)),
        decreases strikes@.len() - i,
    {
        proof {
            assert(strikes@.take(i + 1).drop_last() =~= strikes@.take(i as int));
        }
        if strikes[i].strike > zero {
            pos.push(strikes[i].strike);
        }
        i = i + 1;
    }
    proof {
        assert(strikes@.take(i as int) =~= strikes@);
    }
    let levels = sorting::dedup(&sorting::sort(&pos));
    let mut step = Num::of(INFINITY);
    let mut n: usize = 1;
    while n < levels.len()
        invariant
            1 <= n,
            n <= levels@.len() || n == 1,
            zero == Num::of(ZERO),
            step == least_step(levels@, n as nat),
        decreases levels@.len() - n,
    {
        let g = levels[n] - levels[n - 1];
        if g > zero && g.is_finite() {
            step = step.min(g);
        }
        n = n + 1;
    }
    if step.is_finite() {
        step
    } else {
        (magnet * Num::of(SPACING_FALLBACK_PCT)).max(Num::of(ONE))
    }
}

/// The absolute gammas of the strikes within `band` of the magnet.
pub open spec fn near_abs(strikes: Seq<StrikeGex>, magnet: Num, band: Num) -> Seq<Num>
    decreases strikes.len(),
{
    if strikes.len() == 0 {
        Seq::empty()
    } else {
        let rest = near_abs(strikes.drop_last(), magnet, band);
        let s = strikes.last();
        if s.strike.fsub(magnet).fabs().fle(band) {
            rest.push(s.net_gex.fabs())
        } else {
            rest
        }
    }
}

/// Share of the absolute gamma within one and a half spacings of the magnet.
pub open spec fn magnet_share(strikes: Seq<StrikeGex>, magnet: Num) -> Num {
    let band = spacing_of(strikes, magnet).fmul(Num::of(MAGNET_BAND_SPACING_MULT));
    sums::sum(near_abs(strikes, magnet, band)).fdiv(total_abs(strikes)).fmin(Num::of(ONE))
}

fn gamma_share_of(strikes: &Vec<StrikeGex>, magnet: Num, total: Num) -> (r: Num)
    requires
        total == total_abs(strikes@),
    ensures
        r == magnet_share(strikes@, magnet),
{
    let band = strike_spacing(strikes, magnet) * Num::of(MAGNET_BAND_SPACING_MULT);
    let mut near: Vec<Num> = Vec::new();
    let mut i: usize = 0;
    proof {
        assert(strikes@.take(0) =~= Seq::<StrikeGex>::empty());
        assert(near@ =~= near_abs(strikes@.take(0), magnet, band));
    }
    while i < strikes.len()
        invariant
            i <= strikes@.len(),
            near@ == near_abs(strikes@.take(i as int), magnet, band),
        decreases strikes@.len() - i,
    {
        proof {
            assert(strikes@.take(i + 1).drop_last() =~= strikes@.take(i as int));
        }
        let s = strikes[i];
        if (s.strike - magnet).abs() <= band {
            near.push(s.net_gex.abs());
        }
        i = i + 1;
    }
    proof {
        assert(strikes@.take(i as int) =~= strikes@);
    }
    (sums::total(&near) / total).min(Num::of(ONE))
}

/// The end-of-day expected move that the pin distance is measured in.
pub open spec fn em_eod(spot: Num, atm_iv: Num, hours: Num) -> Num {
    let m = EmBand::at(spot, atm_iv, hours.fmax(Num::of(ZERO))).move_pts;
    if Num::of(ZERO).flt(m) {
        m
    } else {
        spot.fmul(atm_iv).fmul(year_fraction(hours).fsqrt())
    }
}

/// The point at which the pin proximity needs the exponential; `None` where
/// the pin probability is zero without it.
pub open spec fn pin_point(spot: Num, atm_iv: Num, hours: Num, magnet: Num) -> Option<Num> {
    let zero = Num::of(ZERO);
    let em = em_eod(spot, atm_iv, hours);
    if spot.fle(zero) || magnet.fle(zero) || em.fle(zero) {
        None
    } else {
        let z = spot.fsub(magnet).fdiv(em);
        Some(Num::of(NEG_HALF).fmul(z).fmul(z))
    }
}

/// Pin probability from the proximity.
pub open spec fn pin_probability(share: Num, proximity: Num, hours: Num, net_gex: Num) -> Num {
    let (zero, one) = (Num::of(ZERO), Num::of(ONE));
    let elapsed = one.fsub(hours.fdiv(Num::of(SESSION_HOURS)).fclamp(zero, one));
    let time = Num::of(PIN_TIME_BASE).fadd(
        Num::of(PIN_TIME_SLOPE).fmul(elapsed.fclamp(zero, one)),
    );
    let sign = if zero.fle(net_gex) {
        one
    } else {
        Num::of(PIN_SHORT_GAMMA_FACTOR)
    };
    share.fmul(proximity).fmul(time).fmul(sign).fclamp(zero, one)
}

/// The normal quantile that one adjusted expected move stands for.
pub open spec fn settlement_quantile(net_gex: Num, total: Num) -> Num {
    let one = Num::of(ONE);
    let regime = net_gex.fdiv(total).fclamp(Num::of(MINUS_ONE), one);
    let adj = one.fsub(Num::of(SETTLEMENT_VOL_ADJ_SLOPE).fmul(regime)).fclamp(
        Num::of(SETTLEMENT_VOL_ADJ_MIN),
        Num::of(SETTLEMENT_VOL_ADJ_MAX),
    );
    Num::of(MINUS_ONE).fdiv(adj)
}

fn settlement_x(net_gex: Num, total: Num) -> (r: Num)
    ensures
        r == settlement_quantile(net_gex, total),
{
    let one = Num::of(ONE);
    let regime = (net_gex / total).clamp(Num::of(MINUS_ONE), one);
    let adj = (one - Num::of(SETTLEMENT_VOL_ADJ_SLOPE) * regime).clamp(
        Num::of(SETTLEMENT_VOL_ADJ_MIN),
        Num::of(SETTLEMENT_VOL_ADJ_MAX),
    );
    Num::of(MINUS_ONE) / adj
}

fn eod_move(spot: Num, atm_iv: Num, hours: Num) -> (r: Num)
    ensures
        r == em_eod(spot, atm_iv, hours),
{
    let m = em_band(spot, atm_iv, hours.max(Num::of(ZERO))).move_pts;
    if m > Num::of(ZERO) {
        m
    } else {
        spot * atm_iv * hours_to_year_fraction(hours).sqrt()
    }
}

fn pin_arg(spot: Num, atm_iv: Num, hours: Num, magnet: Num) -> (r: Option<Num>)
    ensures
        r == pin_point(spot, atm_iv, hours, magnet),
{
    let zero = Num::of(ZERO);
    let em = eod_move(spot, atm_iv, hours);
    if spot <= zero || magnet <= zero || em <= zero {
        None
    } else {
        let z = (spot - magnet) / em;
        Some(Num::of(NEG_HALF) * z * z)
    }
}

/// The points at which `compute_zero_dte` needs the exponential: for the pin
/// proximity, if there is one, and for the settlement risk.
pub fn zero_dte_args(
    spot: Num,
    atm_iv: Num,
    hours_to_close: Num,
    net_gex: Num,
    magnet: Num,
    strikes: &Vec<StrikeGex>,
) -> (r: (Option<Num>, Num))
    ensures
        r.0 == pin_point(spot, atm_iv, hours_to_close, magnet),
        r.1 == dist::gauss_exponent(
            settlement_quantile(net_gex, total_abs(strikes@)).fabs(),
        ),
{
    let total = sums::total(&abs_values(strikes)).max(Num::of(ONE));
    let x = settlement_x(net_gex, total);
    (pin_arg(spot, atm_iv, hours_to_close, magnet), dist::gauss_arg(x.abs()))
}

impl ZeroDte {
    /// The 0DTE read of a book.
    pub open spec fn is_zero_dte(
        self,
        spot: Num,
        atm_iv: Num,
        hours: Num,
        net_gex: Num,
        magnet: Num,
        strikes: Seq<StrikeGex>,
        pin_exp: Num,
        settlement_exp: Num,
    ) -> bool {
        let (zero, one) = (Num::of(ZERO), Num::of(ONE));
        let share = magnet_share(strikes, magnet);
        &&& self.hours_to_close == hours
        &&& self.t_years == year_fraction(hours)
        &&& self.bands@ == seq![
            EmBand::at(spot, atm_iv, hours.fclamp(zero, one)),
            EmBand::at(spot, atm_iv, hours.fmax(zero)),
        ]
        &&& self.pin.magnet == magnet
        &&& self.pin.gamma_share == share
        &&& self.pin.distance_pct == (if zero.flt(spot) {
            spot.fsub(magnet).fabs().fdiv(spot)
        } else {
            one
        })
        &&& self.pin.probability == (match pin_point(spot, atm_iv, hours, magnet) {
            Some(_) => pin_probability(share, pin_exp, hours, net_gex),
            None => zero,
        })
        &&& self.eod_magnet == gamma_centre(strikes, spot)
        &&& self.settlement_risk == Num::of(TWO).fmul(
            dist::cdf_from(settlement_quantile(net_gex, total_abs(strikes)), settlement_exp),
        ).fclamp(zero, one)
        &&& self.atm_iv == atm_iv
    }
}

/// The 0DTE read.  `pin_exp` and `settlement_exp` are the machine's
/// exponentials at the points of `zero_dte_args`.
pub fn compute_zero_dte(
    spot: Num,
    atm_iv: Num,
    hours_to_close: Num,
    net_gex: Num,
    magnet: Num,
    strikes: &Vec<StrikeGex>,
    pin_exp: Num,
    settlement_exp: Num,
) -> (r: ZeroDte)
    ensures
        r.is_zero_dte(
            spot,
            atm_iv,
            hours_to_close,
            net_gex,
            magnet,
            strikes@,
            pin_exp,
            settlement_exp,
        ),
{
    let (zero, one) = (Num::of(ZERO), Num::of(ONE));
    let t_years = hours_to_year_fraction(hours_to_close);
    let bands = [
        em_band(spot, atm_iv, hours_to_close.clamp(zero, one)),
        em_band(spot, atm_iv, hours_to_close.max(zero)),
    ];
    let eod_magnet = eod_magnet_target(strikes, spot);
    let total = sums::total(&abs_values(strikes)).max(one);
    let gamma_share = gamma_share_of(strikes, magnet, total);
    let distance_pct = if spot > zero {
        (spot - magnet).abs() / spot
    } else {
        one
    };
    let probability = match pin_arg(spot, atm_iv, hours_to_close, magnet) {
        Some(_) => {
            let elapsed = one - (hours_to_close / Num::of(SESSION_HOURS)).clamp(zero, one);
            let time = Num::of(PIN_TIME_BASE) + Num::of(PIN_TIME_SLOPE) * elapsed.clamp(zero, one);
            let sign = if net_gex >= zero {
                one
            } else {
                Num::of(PIN_SHORT_GAMMA_FACTOR)
            };
            (gamma_share * pin_exp * time * sign).clamp(zero, one)
        },
        None => zero,
    };
    let x = settlement_x(net_gex, total);
    let settlement_risk = (Num::of(TWO) * dist::norm_cdf(x, settlement_exp)).clamp(zero, one);
    proof {
        assert(bands@ =~= seq![bands@[0], bands@[1]]);
    }
    ZeroDte {
        hours_to_close,
        t_years,
        bands,
        pin: PinRead { magnet, probability, gamma_share, distance_pct },
        eod_magnet,
        settlement_risk,
        atm_iv,
    }
}

/// The total of the absolute gammas is at least one.
proof fn lemma_total(strikes: Seq<StrikeGex>)
    ensures
        Num::of(ONE).fle(total_abs(strikes)),
{
}

/// The share of the gamma near the magnet lies between 0 and 1.
proof fn lemma_magnet_share(strikes: Seq<StrikeGex>, magnet: Num)
    ensures
        risk::in_unit(magnet_share(strikes, magnet)),
{
    let band = spacing_of(strikes, magnet).fmul(Num::of(MAGNET_BAND_SPACING_MULT));
    let near = near_abs(strikes, magnet, band);
    lemma_near_kind(strikes, magnet, band);
    sums::lemma_sum_kind(near);
    lemma_total(strikes);
    algebra::lemma_div_kind(sums::sum(near), total_abs(strikes));
}

/// Absolute gammas are not negative.
proof fn lemma_near_kind(strikes: Seq<StrikeGex>, magnet: Num, band: Num)
    ensures
        forall|i: int|
            0 <= i < near_abs(strikes, magnet, band).len() ==> algebra::no_less_than_zero(
                #[trigger] near_abs(strikes, magnet, band)[i],
            ),
    decreases strikes.len(),
{
    if strikes.len() > 0 {
        lemma_near_kind(strikes.drop_last(), magnet, band);
        let all = near_abs(strikes, magnet, band);
        let rest = near_abs(strikes.drop_last(), magnet, band);
        assert(algebra::no_less_than_zero(strikes.last().net_gex.fabs()));
        assert forall|i: int| 0 <= i < all.len() implies algebra::no_less_than_zero(
            #[trigger] all[i],
        ) by {
            if i < rest.len() {
                assert(all[i] == rest[i]);
            }
        }
    }
}

/// The time factor of a pin: finite and not negative.
proof fn lemma_pin_time(hours: Num)
    requires
        hours.finite(),
    ensures
        ({
            let (zero, one) = (Num::of(ZERO), Num::of(ONE));
            let elapsed = one.fsub(hours.fdiv(Num::of(SESSION_HOURS)).fclamp(zero, one));
            let time = Num::of(PIN_TIME_BASE).fadd(
                Num::of(PIN_TIME_SLOPE).fmul(elapsed.fclamp(zero, one)),
            );
            time.finite() && zero.fle(time)
        }),
{
    let (zero, one) = (Num::of(ZERO), Num::of(ONE));
    let (base, slope) = (Num::of(PIN_TIME_BASE), Num::of(PIN_TIME_SLOPE));
    algebra::law_div_monotone(hours, hours, Num::of(SESSION_HOURS));
    let part = hours.fdiv(Num::of(SESSION_HOURS)).fclamp(zero, one);
    risk::lemma_complement(part);
    let elapsed = one.fsub(part).fclamp(zero, one);
    algebra::lemma_weighted(slope, elapsed);
    let rise = slope.fmul(elapsed);
    bounds::lemma_power(0);
    bounds::lemma_power(1);
    bounds::lemma_add_within(base, rise, 0);
    algebra::lemma_add_kind(base, rise);
}

/// Pinning with a factor is not surer than with a greater one.
proof fn lemma_pin_order(share: Num, proximity: Num, time: Num, low: Num, high: Num)
    requires
        risk::in_unit(share),
        risk::in_unit(proximity),
        time.finite(),
        Num::of(ZERO).fle(time),
        risk::in_unit(low),
        risk::in_unit(high),
        low.fle(high),
    ensures
        ({
            let (zero, one) = (Num::of(ZERO), Num::of(ONE));
            let x = share.fmul(proximity).fmul(time);
            let (a, b) = (x.fmul(low).fclamp(zero, one), x.fmul(high).fclamp(zero, one));
            risk::in_unit(a) && risk::in_unit(b) && a.fle(b)
        }),
{
    let (zero, one) = (Num::of(ZERO), Num::of(ONE));
    let y = share.fmul(proximity);
    let x = y.fmul(time);
    lemma_unit_product(share, proximity);
    algebra::lemma_mul_is_number(y, time);
    algebra::lemma_mul_is_number(zero, time);
    algebra::lemma_mul_is_number(one, time);
    algebra::lemma_scale_order(zero, y, time);
    algebra::lemma_scale_order(y, one, time);
    algebra::law_zero_mul(zero, time);
    algebra::law_mul_one(time);
    algebra::lemma_mul_is_number(low, x);
    algebra::lemma_mul_is_number(high, x);
    algebra::lemma_scale_order(low, high, x);
    algebra::law_mul_commutes(low, x);
    algebra::law_mul_commutes(high, x);
}

/// A product of shares is a share.
proof fn lemma_unit_product(a: Num, b: Num)
    requires
        risk::in_unit(a),
        risk::in_unit(b),
    ensures
        risk::in_unit(a.fmul(b)),
{
    let (zero, one) = (Num::of(ZERO), Num::of(ONE));
    algebra::lemma_mul_is_number(a, b);
    algebra::lemma_mul_is_number(zero, b);
    algebra::lemma_mul_is_number(one, b);
    algebra::lemma_scale_order(zero, a, b);
    algebra::lemma_scale_order(a, one, b);
    algebra::law_zero_mul(zero, b);
    algebra::law_mul_one(b);
}

/// Long gamma puts the settlement quantile farther out than the same short
/// gamma.
proof fn lemma_quantiles(g: Num, total: Num)
    requires
        g.finite(),
        Num::of(ZERO).flt(g),
        Num::of(ONE).fle(total),
    ensures
        settlement_quantile(g, total).fle(settlement_quantile(g.fneg(), total)),
        settlement_quantile(g, total).finite(),
        settlement_quantile(g.fneg(), total).finite(),
{
    let (one, low, high) = (Num::of(ONE), Num::of(MINUS_ONE), Num::of(SETTLEMENT_VOL_ADJ_SLOPE));
    let (p, q) = (g.fdiv(total), g.fneg().fdiv(total));
    if total.finite() {
        algebra::law_div_monotone(g.fneg(), g, total);
    } else {
        reveal(Num::fdiv);
    }
    let (x, y) = (p.fclamp(low, one), q.fclamp(low, one));
    algebra::lemma_weighted(high, x);
    algebra::lemma_weighted(high, y);
    algebra::law_mul_commutes(high, x);
    algebra::law_mul_commutes(high, y);
    algebra::lemma_scale_order(y, x, high);
    let (a, b) = (high.fmul(x), high.fmul(y));
    algebra::lemma_add_is_number(a.fneg(), one);
    algebra::lemma_add_is_number(b.fneg(), one);
    algebra::law_add_commutes(a.fneg(), one);
    algebra::law_add_commutes(b.fneg(), one);
    algebra::law_add_monotone(a.fneg(), b.fneg(), one);
    let (min, max) = (Num::of(SETTLEMENT_VOL_ADJ_MIN), Num::of(SETTLEMENT_VOL_ADJ_MAX));
    let (u, v) = (one.fsub(a).fclamp(min, max), one.fsub(b).fclamp(min, max));
    algebra::law_div_antitone(one, u, v);
    lemma_minus_over(u);
    lemma_minus_over(v);
    bounds::lemma_power(0);
    bounds::lemma_power(-1);
    bounds::lemma_power(1);
    bounds::lemma_div_within(one, u, 0, -1);
    bounds::lemma_div_within(one, v, 0, -1);
}

/// A negated quotient.
proof fn lemma_minus_over(b: Num)
    requires
        b.finite(),
        Num::of(ZERO).flt(b),
    ensures
        Num::of(MINUS_ONE).fdiv(b) == Num::of(ONE).fdiv(b).fneg(),
{
    reveal(Num::fdiv);
    assert(Num::of(MINUS_ONE).size() == Num::of(ONE).size());
}

/// A product with a finite number other than zero is a number.
proof fn lemma_times_number(w: Num, x: Num)
    requires
        w.finite(),
        w.mag() > 0,
        !x.nan(),
    ensures
        !w.fmul(x).nan(),
        !x.fmul(w).nan(),
{
    reveal(Num::fmul);
}

/// The one-hour band is not wider than that of the day.
proof fn lemma_bands(spot: Num, iv: Num, hours: Num)
    requires
        hours.finite(),
        Num::of(ZERO).flt(spot),
        Num::of(ZERO).flt(iv),
        spot.fmul(iv).finite(),
    ensures
        ({
            let (zero, one) = (Num::of(ZERO), Num::of(ONE));
            EmBand::at(spot, iv, hours.fclamp(zero, one)).move_pts.fle(
                EmBand::at(spot, iv, hours.fmax(zero)).move_pts,
            )
        }),
{
    let (zero, one, w) = (Num::of(ZERO), Num::of(ONE), spot.fmul(iv));
    let (a, b) = (hours.fclamp(zero, one), hours.fmax(zero));
    let (x, y) = (a.fmax(zero), b.fmax(zero));
    let session = Num::of(SESSION_HOURS);
    algebra::law_div_monotone(x, y, session);
    algebra::law_div_monotone(x.fdiv(session), y.fdiv(session), Num::of(TRADING_DAYS));
    let (s, t) = (year_fraction(a), year_fraction(b));
    algebra::law_sqrt_monotone(s, t);
    algebra::law_sqrt_monotone(t, t);
    assert(!w.negative()) by {
        reveal(Num::fmul);
    }
    if w.mag() == 0 {
        algebra::law_div_antitone(y, one, session);
        algebra::law_div_one(y);
        let day = y.fdiv(session);
        algebra::law_div_antitone(day, one, Num::of(TRADING_DAYS));
        algebra::law_div_one(day);
        bounds::lemma_sqrt_finite(s);
        bounds::lemma_sqrt_finite(t);
        algebra::law_zero_mul(w, s.fsqrt());
        algebra::law_zero_mul(w, t.fsqrt());
    } else {
        lemma_times_number(w, s.fsqrt());
        lemma_times_number(w, t.fsqrt());
        algebra::lemma_scale_order(s.fsqrt(), t.fsqrt(), w);
        algebra::law_mul_commutes(w, s.fsqrt());
        algebra::law_mul_commutes(w, t.fsqrt());
    }
}

/// Probabilities of the 0DTE read lie in [0, 1].
pub proof fn law_zero_dte_probabilities_bounded(
    z: ZeroDte,
    spot: Num,
    iv: Num,
    hours: Num,
    net_gex: Num,
    magnet: Num,
    strikes: Seq<StrikeGex>,
    pin_exp: Num,
    settlement_exp: Num,
)
    requires
        z.is_zero_dte(spot, iv, hours, net_gex, magnet, strikes, pin_exp, settlement_exp),
        hours.finite(),
        risk::in_unit(pin_exp),
        !dist::cdf_from(
            settlement_quantile(net_gex, total_abs(strikes)),
            settlement_exp,
        ).nan(),
    ensures
        risk::in_unit(z.pin.probability),
        risk::in_unit(z.pin.gamma_share),
        risk::in_unit(z.settlement_risk),
{
    let (zero, one, two) = (Num::of(ZERO), Num::of(ONE), Num::of(TWO));
    lemma_magnet_share(strikes, magnet);
    lemma_pin_time(hours);
    let elapsed = one.fsub(hours.fdiv(Num::of(SESSION_HOURS)).fclamp(zero, one));
    let time = Num::of(PIN_TIME_BASE).fadd(
        Num::of(PIN_TIME_SLOPE).fmul(elapsed.fclamp(zero, one)),
    );
    let (share, low) = (magnet_share(strikes, magnet), Num::of(PIN_SHORT_GAMMA_FACTOR));
    lemma_pin_order(share, pin_exp, time, low, one);
    let x = settlement_quantile(net_gex, total_abs(strikes));
    lemma_times_number(two, dist::cdf_from(x, settlement_exp));
}

/// Long gamma pins at least as surely as the same short gamma, and puts the
/// settlement quantile farther out, so that the settlement risk is not greater
/// wherever the machine's tail there is not.  The two reads agree on bands and
/// magnet; the one-hour band is not wider than that of the day, and all
/// probabilities lie in [0, 1].
pub proof fn law_long_gamma_pins_harder(
    long: ZeroDte,
    short: ZeroDte,
    spot: Num,
    iv: Num,
    hours: Num,
    g: Num,
    magnet: Num,
    strikes: Seq<StrikeGex>,
    pin_exp: Num,
    long_exp: Num,
    short_exp: Num,
)
    requires
        long.is_zero_dte(spot, iv, hours, g, magnet, strikes, pin_exp, long_exp),
        short.is_zero_dte(spot, iv, hours, g.fneg(), magnet, strikes, pin_exp, short_exp),
        g.finite(),
        Num::of(ZERO).flt(g),
        hours.finite(),
        Num::of(ZERO).flt(spot),
        Num::of(ZERO).flt(iv),
        spot.fmul(iv).finite(),
        risk::in_unit(pin_exp),
        ({
            let total = total_abs(strikes);
            dist::cdf_from(settlement_quantile(g, total), long_exp).fle(
                dist::cdf_from(settlement_quantile(g.fneg(), total), short_exp),
            )
        }),
    ensures
        settlement_quantile(g, total_abs(strikes)).fle(
            settlement_quantile(g.fneg(), total_abs(strikes)),
        ),
        short.pin.probability.fle(long.pin.probability),
        long.settlement_risk.fle(short.settlement_risk),
        risk::in_unit(long.pin.probability),
        risk::in_unit(short.pin.probability),
        risk::in_unit(long.pin.gamma_share),
        risk::in_unit(long.settlement_risk),
        risk::in_unit(short.settlement_risk),
        long.bands@ == short.bands@,
        long.eod_magnet == short.eod_magnet,
        long.bands@[0].hours == hours.fclamp(Num::of(ZERO), Num::of(ONE)),
        long.bands@[1].hours == hours.fmax(Num::of(ZERO)),
        long.bands@[0].move_pts.fle(long.bands@[1].move_pts),
{
    let (zero, one, two) = (Num::of(ZERO), Num::of(ONE), Num::of(TWO));
    let total = total_abs(strikes);
    lemma_total(strikes);
    lemma_quantiles(g, total);
    lemma_bands(spot, iv, hours);
    lemma_magnet_share(strikes, magnet);
    lemma_pin_time(hours);
    let elapsed = one.fsub(hours.fdiv(Num::of(SESSION_HOURS)).fclamp(zero, one));
    let time = Num::of(PIN_TIME_BASE).fadd(
        Num::of(PIN_TIME_SLOPE).fmul(elapsed.fclamp(zero, one)),
    );
    lemma_pin_order(
        magnet_share(strikes, magnet),
        pin_exp,
        time,
        Num::of(PIN_SHORT_GAMMA_FACTOR),
        one,
    );
    let a = dist::cdf_from(settlement_quantile(g, total), long_exp);
    let b = dist::cdf_from(settlement_quantile(g.fneg(), total), short_exp);
    lemma_times_number(two, a);
    lemma_times_number(two, b);
    algebra::lemma_scale_order(a, b, two);
    algebra::law_mul_commutes(two, a);
    algebra::law_mul_commutes(two, b);
}

/// Whether a machine's tail at a point is a probability, and off by at most `d`
/// from a distribution.
pub open spec fn tail_follows(x: Num, e: Num, phi: spec_fn(real) -> real, d: real) -> bool {
    let v = dist::cdf_from(x, e);
    risk::in_unit(v) && exact::rabs(v.exact() - phi(x.exact())) <= d
}

/// The settlement risk of long gamma exceeds that of the same short gamma by no
/// more than what the machine's tails are off from a distribution, and by the
/// rounding of the two.
pub proof fn law_settlement_risk_follows_the_tail(
    long: ZeroDte,
    short: ZeroDte,
    spot: Num,
    iv: Num,
    hours: Num,
    g: Num,
    magnet: Num,
    strikes: Seq<StrikeGex>,
    pin_exp: Num,
    long_exp: Num,
    short_exp: Num,
    phi: spec_fn(real) -> real,
    d: real,
)
    requires
        long.is_zero_dte(spot, iv, hours, g, magnet, strikes, pin_exp, long_exp),
        short.is_zero_dte(spot, iv, hours, g.fneg(), magnet, strikes, pin_exp, short_exp),
        g.finite(),
        Num::of(ZERO).flt(g),
        forall|a: real, b: real| a <= b ==> #[trigger] phi(a) <= #[trigger] phi(b),
        tail_follows(settlement_quantile(g, total_abs(strikes)), long_exp, phi, d),
        tail_follows(settlement_quantile(g.fneg(), total_abs(strikes)), short_exp, phi, d),
    ensures
        long.settlement_risk.exact() <= short.settlement_risk.exact() + 4real * d + 6real
            * exact::eps(),
{
    let total = total_abs(strikes);
    let (x, y) = (settlement_quantile(g, total), settlement_quantile(g.fneg(), total));
    lemma_total(strikes);
    lemma_quantiles(g, total);
    exact::lemma_exact_order(x, y);
    assert(phi(x.exact()) <= phi(y.exact()));
    lemma_doubled(dist::cdf_from(x, long_exp));
    lemma_doubled(dist::cdf_from(y, short_exp));
}

/// Twice a probability, cut off at one.
proof fn lemma_doubled(p: Num)
    requires
        risk::in_unit(p),
    ensures
        ({
            let r = Num::of(TWO).fmul(p).fclamp(Num::of(ZERO), Num::of(ONE)).exact();
            let v = 2real * p.exact();
            &&& r <= v + 3real * exact::eps()
            &&& r <= 1real
            &&& r >= v - 3real * exact::eps() || r == 1real
        }),
{
    let (zero, one, two) = (Num::of(ZERO), Num::of(ONE), Num::of(TWO));
    let v = two.fmul(p);
    exact::lemma_exact_zero(zero);
    lemma2_to64();
    algebra::lemma_one_size();
    exact::lemma_exact_power(one, 0);
    bounds::lemma_power(1);
    exact::lemma_exact_power(two, 1);
    exact::lemma_exact_order(zero, p);
    exact::lemma_exact_order(p, one);
    bounds::lemma_power(0);
    bounds::lemma_mul_within(two, p, 1, 0);
    exact::lemma_exact_mul(two, p);
    exact::lemma_times(exact::rabs(2real * p.exact()), 2real, exact::eps());
    exact::lemma_exact_order(v, zero);
    exact::lemma_exact_order(v, one);
    exact::lemma_exact_order(one, v);
    exact::lemma_small();
    exact::lemma_small_is_small();
    exact::lemma_times(exact::small(), 1real, exact::eps());
}

/// Momentum over the close window: up or down beyond a dead band of 0.05%.
pub open spec fn momentum_of(closes: Seq<Num>) -> i8 {
    if closes.len() < MOMENTUM_MIN_CLOSES {
        0
    } else {
        let (first, last) = (closes[0], closes.last());
        if first.fmul(Num::of(MOMENTUM_BAND_UP)).flt(last) {
            1
        } else if last.flt(first.fmul(Num::of(MOMENTUM_BAND_DOWN))) {
            (-1) as i8
        } else {
            0
        }
    }
}

/// Momentum over the close window: up or down beyond a dead band of 0.05%.
pub fn raw_momentum(closes: &Vec<Num>) -> (r: i8)
    ensures
        r == momentum_of(closes@),
        -1 <= r <= 1,
{
    if closes.len() < MOMENTUM_MIN_CLOSES {
        return 0;
    }
    let (first, last) = (closes[0], closes[closes.len() - 1]);
    if last > first * Num::of(MOMENTUM_BAND_UP) {
        1
    } else if last < first * Num::of(MOMENTUM_BAND_DOWN) {
        -1
    } else {
        0
    }
}

/// Percent distance from spot to a level.
pub open spec fn pct_distance(level: Num, spot: Num) -> Num {
    level.fsub(spot).fdiv(spot).fmul(Num::of(HUNDRED))
}

/// Percent distance from spot to a level.
pub fn pct_to(level: Num, spot: Num) -> (r: Num)
    ensures
        r == pct_distance(level, spot),
{
    (level - spot) / spot * Num::of(HUNDRED)
}

/// The squared gamma shares of the strikes.
pub open spec fn squared_shares(strikes: Seq<StrikeGex>) -> Seq<Num> {
    let tot = total_abs(strikes);
    strikes.map_values(
        |s: StrikeGex|
            {
                let sh = s.net_gex.fabs().fdiv(tot);
                sh.fmul(sh)
            },
    )
}

/// The point at which the pin proximity of a reference strike needs the exponential.
pub open spec fn proximity_point(spot: Num, reference: Num) -> Num {
    let z = spot.fsub(reference).fdiv(spot.fmul(Num::of(PIN_PROX_SCALE_PCT)));
    z.fmul(z).fneg()
}

/// Pin strength from the proximity: concentration of the gamma times proximity.
pub open spec fn pin_strength_from(strikes: Seq<StrikeGex>, spot: Num, prox: Num) -> Num {
    if strikes.len() == 0 || spot.fle(Num::of(ZERO)) {
        Num::of(ZERO)
    } else {
        Num::of(HUNDRED).fmul(sums::sum(squared_shares(strikes)).fsqrt()).fmul(
            prox,
        ).fround().fclamp(Num::of(ZERO), Num::of(HUNDRED))
    }
}

/// Pin strength, 0 to 100; `prox` is the exponential at `proximity_point`.
pub fn pin_strength(strikes: &Vec<StrikeGex>, spot: Num, prox: Num) -> (r: Num)
    ensures
        r == pin_strength_from(strikes@, spot, prox),
{
    if strikes.len() == 0 || spot <= Num::of(ZERO) {
        return Num::of(ZERO);
    }
    let abs = abs_values(strikes);
    let tot = sums::total(&abs).max(Num::of(ONE));
    let mut sq: Vec<Num> = Vec::new();
    let mut i: usize = 0;
    while i < abs.len()
        invariant
            i <= abs@.len(),
            sq@.len() == i,
            forall|k: int| 0 <= k < i ==> sq@[k] == abs@[k].fdiv(tot).fmul(abs@[k].fdiv(tot)),
        decreases abs@.len() - i,
    {
        let sh = abs[i] / tot;
        sq.push(sh * sh);
        i = i + 1;
    }
    proof {
        assert(sq@ =~= squared_shares(strikes@));
    }
    (Num::of(HUNDRED) * sums::total(&sq).sqrt() * prox).round().clamp(
        Num::of(ZERO),
        Num::of(HUNDRED),
    )
}

fn proximity_arg(spot: Num, reference: Num) -> (r: Num)
    ensures
        r == proximity_point(spot, reference),
{
    let z = (spot - reference) / (spot * Num::of(PIN_PROX_SCALE_PCT));
    (z * z).neg()
}

/// The first strike with the largest absolute gamma, as the terminal read picks it.
pub open spec fn top_strike(strikes: Seq<StrikeGex>) -> StrikeGex
    recommends
        strikes.len() > 0,
    decreases strikes.len(),
{
    if strikes.len() <= 1 {
        strikes[0]
    } else {
        let best = top_strike(strikes.drop_last());
        if best.net_gex.fabs().flt(strikes.last().net_gex.fabs()) {
            strikes.last()
        } else {
            best
        }
    }
}

fn find_top_strike(strikes: &Vec<StrikeGex>) -> (r: StrikeGex)
    requires
        strikes@.len() > 0,
    ensures
        r == top_strike(strikes@),
{
    let mut best = strikes[0];
    let mut i: usize = 1;
    while i < strikes.len()
        invariant
            1 <= i <= strikes@.len(),
            best == top_strike(strikes@.take(i as int)),
        decreases strikes@.len() - i,
    {
        proof {
            assert(strikes@.take(i + 1).drop_last() =~= strikes@.take(i as int));
        }
        if strikes[i].net_gex.abs() > best.net_gex.abs() {
            best = strikes[i];
        }
        i = i + 1;
    }
    proof {
        assert(strikes@.take(i as int) =~= strikes@);
    }
    best
}

/// A number standing for a direction.
pub open spec fn dir_num(dir: i8) -> Num {
    if dir > 0 {
        Num::of(ONE)
    } else if dir < 0 {
        Num::of(MINUS_ONE)
    } else {
        Num::of(ZERO)
    }
}

fn dir_value(dir: i8) -> (r: Num)
    ensures
        r == dir_num(dir),
{
    if dir > 0 {
        Num::of(ONE)
    } else if dir < 0 {
        Num::of(MINUS_ONE)
    } else {
        Num::of(ZERO)
    }
}

impl ProfileInputs {
    /// Dealers are long gamma.
    pub open spec fn long_gamma(self) -> bool {
        Num::of(ZERO).fle(self.net_gex)
    }

    /// Spot against the gamma flip.
    pub open spec fn flip_signal(self) -> Option<SignalView> {
        match self.gamma_flip {
            Some(flip) => if Num::of(ZERO).flt(self.spot) && Num::of(ZERO).flt(flip) {
                Some(
                    SignalView {
                        name: "gamma-flip"@,
                        dir: if flip.fle(self.spot) {
                            1
                        } else {
                            (-1) as i8
                        },
                        weight: Num::of(W_FLIP),
                    },
                )
            } else {
                None
            },
            None => None,
        }
    }

    /// The pull of the magnet; inside its dead zone it has no direction.
    pub open spec fn magnet_signal(self) -> Option<SignalView> {
        match self.magnet {
            Some(m) => if Num::of(ZERO).flt(self.spot) && Num::of(ZERO).flt(m) {
                let d = pct_distance(m, self.spot);
                Some(
                    SignalView {
                        name: "magnet"@,
                        dir: if d.fabs().flt(Num::of(MAGNET_PIN_BAND_PCT)) {
                            0
                        } else if Num::of(ZERO).flt(d) {
                            1
                        } else {
                            (-1) as i8
                        },
                        weight: if self.long_gamma() {
                            Num::of(W_MAGNET_PIN)
                        } else {
                            Num::of(W_MAGNET_TREND)
                        },
                    },
                )
            } else {
                None
            },
            None => None,
        }
    }

    /// The position between the walls.
    pub open spec fn wall_signal(self) -> Option<SignalView> {
        match (self.call_wall, self.put_wall) {
            (Some(cw), Some(pw)) => if pw.flt(cw) && Num::of(ZERO).flt(self.spot) {
                let rel = self.spot.fsub(pw).fdiv(cw.fsub(pw));
                Some(
                    SignalView {
                        name: "wall-cage"@,
                        dir: if Num::of(WALL_REL_HIGH).flt(rel) {
                            (-1) as i8
                        } else if rel.flt(Num::of(WALL_REL_LOW)) {
                            1
                        } else {
                            0
                        },
                        weight: Num::of(W_WALL),
                    },
                )
            } else {
                None
            },
            _ => None,
        }
    }

    /// The call share of the open interest.
    pub open spec fn positioning_signal(self) -> Option<SignalView> {
        let tot = self.total_call_oi.fadd(self.total_put_oi);
        if Num::of(ZERO).flt(tot) {
            let bull = Num::of(HUNDRED).fmul(self.total_call_oi).fdiv(tot);
            Some(
                SignalView {
                    name: "positioning"@,
                    dir: if Num::of(OI_SKEW_HIGH_PCT).fle(bull) {
                        1
                    } else if bull.fle(Num::of(OI_SKEW_LOW_PCT)) {
                        (-1) as i8
                    } else {
                        0
                    },
                    weight: Num::of(W_POSITIONING),
                },
            )
        } else {
            None
        }
    }

    /// Momentum: against it in a pin, with it in a trend.
    pub open spec fn momentum_signal(self, closes: Seq<Num>) -> Option<SignalView> {
        let m = momentum_of(closes);
        if m != 0 {
            Some(
                SignalView {
                    name: "momentum"@,
                    dir: if self.long_gamma() {
                        (-m) as i8
                    } else {
                        m
                    },
                    weight: if self.long_gamma() {
                        Num::of(W_MOM_PIN)
                    } else {
                        Num::of(W_MOM_TREND)
                    },
                },
            )
        } else {
            None
        }
    }

    /// All signals that are present, in order.
    pub open spec fn signals(self, closes: Seq<Num>) -> Seq<SignalView> {
        some_seq(self.flip_signal()) + some_seq(self.magnet_signal()) + some_seq(self.wall_signal())
            + some_seq(self.positioning_signal()) + some_seq(self.momentum_signal(closes))
    }
}

/// A sequence of one or none.
pub open spec fn some_seq<T>(o: Option<T>) -> Seq<T> {
    match o {
        Some(x) => seq![x],
        None => Seq::empty(),
    }
}

fn add_signal(signals: &mut Vec<ReadSignal>, name: &str, dir: i8, weight: Num)
    ensures
        final(signals)@.map_values(|s: ReadSignal| s@) == old(signals)@.map_values(
            |s: ReadSignal| s@,
        ).push(SignalView { name: name@, dir, weight }),
{
    let ghost before = signals@;
    signals.push(ReadSignal { name: name.to_owned(), dir, weight });
    proof {
        assert(signals@.map_values(|s: ReadSignal| s@) =~= before.map_values(
            |s: ReadSignal| s@,
        ).push(SignalView { name: name@, dir, weight }));
    }
}

/// Collects the signals of a profile.
fn collect_signals(profile: &ProfileInputs, closes: &Vec<Num>) -> (r: Vec<ReadSignal>)
    ensures
        r@.map_values(|s: ReadSignal| s@) == profile.signals(closes@),
{
    let zero = Num::of(ZERO);
    let spot = profile.spot;
    let long_gamma = profile.net_gex >= zero;
    let mut out: Vec<ReadSignal> = Vec::new();
    let ghost f = |s: ReadSignal| s@;
    proof {
        assert(out@.map_values(f) =~= Seq::<SignalView>::empty());
    }
    if let Some(flip) = profile.gamma_flip {
        if spot > zero && flip > zero {
            let dir: i8 = if spot >= flip {
                1
            } else {
                -1
            };
            add_signal(&mut out, "gamma-flip", dir, Num::of(W_FLIP));
        }
    }
    let ghost s1 = out@.map_values(f);
    proof {
        assert(s1 =~= some_seq(profile.flip_signal()));
    }
    if let Some(magnet) = profile.magnet {
        if spot > zero && magnet > zero {
            let d = pct_to(magnet, spot);
            let dir: i8 = if d.abs() < Num::of(MAGNET_PIN_BAND_PCT) {
                0
            } else if d > zero {
                1
            } else {
                -1
            };
            let weight = if long_gamma {
                Num::of(W_MAGNET_PIN)
            } else {
                Num::of(W_MAGNET_TREND)
            };
            add_signal(&mut out, "magnet", dir, weight);
        }
    }
    let ghost s2 = out@.map_values(f);
    proof {
        assert(s2 =~= s1 + some_seq(profile.magnet_signal()));
    }
    if let (Some(cw), Some(pw)) = (profile.call_wall, profile.put_wall) {
        if cw > pw && spot > zero {
            let rel = (spot - pw) / (cw - pw);
            let dir: i8 = if rel > Num::of(WALL_REL_HIGH) {
                -1
            } else if rel < Num::of(WALL_REL_LOW) {
                1
            } else {
                0
            };
            add_signal(&mut out, "wall-cage", dir, Num::of(W_WALL));
        }
    }
    let ghost s3 = out@.map_values(f);
    proof {
        assert(s3 =~= s2 + some_seq(profile.wall_signal()));
    }
    let tot = profile.total_call_oi + profile.total_put_oi;
    if tot > zero {
        let bull = Num::of(HUNDRED) * profile.total_call_oi / tot;
        let dir: i8 = if bull >= Num::of(OI_SKEW_HIGH_PCT) {
            1
        } else if bull <= Num::of(OI_SKEW_LOW_PCT) {
            -1
        } else {
            0
        };
        add_signal(&mut out, "positioning", dir, Num::of(W_POSITIONING));
    }
    let ghost s4 = out@.map_values(f);
    proof {
        assert(s4 =~= s3 + some_seq(profile.positioning_signal()));
    }
    let mom: i8 = raw_momentum(closes);
    if mom != 0 {
        let dir: i8 = if long_gamma {
            -mom
        } else {
            mom
        };
        let weight = if long_gamma {
            Num::of(W_MOM_PIN)
        } else {
            Num::of(W_MOM_TREND)
        };
        add_signal(&mut out, "momentum", dir, weight);
    }
    proof {
        assert(out@.map_values(f) =~= s4 + some_seq(profile.momentum_signal(closes@)));
        assert(out@.map_values(f) =~= profile.signals(closes@));
    }
    out
}

/// The signed contributions of the signals.
pub open spec fn contributions(signals: Seq<SignalView>) -> Seq<Num> {
    signals.map_values(|s: SignalView| dir_num(s.dir).fmul(s.weight))
}

/// The confluence score: the rounded sum of the contributions, in [-100, 100].
pub open spec fn score_of(signals: Seq<SignalView>) -> Num {
    sums::sum(contributions(signals)).fround().fclamp(Num::of(MINUS_HUNDRED), Num::of(HUNDRED))
}

pub open spec fn bias_of(score: Num) -> Bias {
    if Num::of(BIAS_SCORE_THRESH).flt(score) {
        Bias::Long
    } else if score.flt(Num::of(NEG_BIAS_THRESH)) {
        Bias::Short
    } else {
        Bias::Neutral
    }
}

pub open spec fn bias_dir(bias: Bias) -> i8 {
    match bias {
        Bias::Long => 1,
        Bias::Short => (-1) as i8,
        Bias::Neutral => 0,
    }
}

/// The weights of the signals that have a direction, or a given one.
pub open spec fn weights_where(signals: Seq<SignalView>, any: bool, dir: i8) -> Seq<Num>
    decreases signals.len(),
{
    if signals.len() == 0 {
        Seq::empty()
    } else {
        let rest = weights_where(signals.drop_last(), any, dir);
        let s = signals.last();
        if s.dir != 0 && (any || s.dir == dir) {
            rest.push(s.weight)
        } else {
            rest
        }
    }
}

/// Weighted agreement among the directional signals.
pub open spec fn confidence_of(signals: Seq<SignalView>, score: Num) -> Num {
    let dir = bias_dir(bias_of(score));
    if dir == 0 {
        score.fabs().fround().fmin(Num::of(NEUTRAL_CONF_CAP))
    } else {
        let all = sums::sum(weights_where(signals, true, dir)).fmax(Num::of(ONE));
        Num::of(HUNDRED).fmul(sums::sum(weights_where(signals, false, dir))).fdiv(all).fround()
    }
}

fn gather_weights(signals: &Vec<ReadSignal>, any: bool, dir: i8) -> (r: Vec<Num>)
    ensures
        r@ == weights_where(signals@.map_values(|s: ReadSignal| s@), any, dir),
{
    let ghost all = signals@.map_values(|s: ReadSignal| s@);
    let mut r: Vec<Num> = Vec::new();
    let mut i: usize = 0;
    proof {
        assert(all.take(0) =~= Seq::<SignalView>::empty());
        assert(r@ =~= weights_where(all.take(0), any, dir));
    }
    while i < signals.len()
        invariant
            i <= signals@.len(),
            all == signals@.map_values(|s: ReadSignal| s@),
            r@ == weights_where(all.take(i as int), any, dir),
        decreases signals@.len() - i,
    {
        proof {
            assert(all.take(i + 1).drop_last() =~= all.take(i as int));
        }
        if signals[i].dir != 0 && (any || signals[i].dir == dir) {
            r.push(signals[i].weight);
        }
        i = i + 1;
    }
    proof {
        assert(all.take(i as int) =~= all);
    }
    r
}

/// A bracket whose target lies ahead of spot and whose stop lies behind it,
/// both by more than the dead zone.
pub open spec fn coherent(
    dir: i8,
    spot: Num,
    target: Option<Num>,
    stop: Option<Num>,
) -> bool {
    let tiny = spot.fmul(Num::of(BRACKET_DEADZONE_PCT));
    &&& target matches Some(t) && tiny.flt(dir_num(dir).fmul(t.fsub(spot)))
    &&& stop matches Some(s) && tiny.flt(dir_num(dir).fmul(spot.fsub(s)))
}

impl ProfileInputs {
    /// Where a directional read aims: in a pin at the magnet if it lies ahead,
    /// else at the wall ahead.
    pub open spec fn target_for(self, dir: i8) -> Option<Num> {
        let wall = if dir > 0 {
            self.call_wall
        } else {
            self.put_wall
        };
        let tiny = self.spot.fmul(Num::of(BRACKET_DEADZONE_PCT));
        if self.long_gamma() {
            match self.magnet {
                Some(m) => if tiny.flt(dir_num(dir).fmul(m.fsub(self.spot))) {
                    Some(m)
                } else {
                    wall
                },
                None => wall,
            }
        } else {
            wall
        }
    }

    /// Where a directional read is given up: in a pin at the wall behind, in a
    /// trend at the flip.
    pub open spec fn stop_for(self, dir: i8) -> Option<Num> {
        if self.long_gamma() {
            if dir > 0 {
                self.put_wall
            } else {
                self.call_wall
            }
        } else {
            self.gamma_flip
        }
    }

    /// The bracket of a read.
    pub open spec fn bracket_for(self, dir: i8) -> Bracket {
        if dir != 0 && coherent(dir, self.spot, self.target_for(dir), self.stop_for(dir)) {
            Bracket { target: self.target_for(dir), stop: self.stop_for(dir), no_trade: false }
        } else {
            Bracket { target: None, stop: None, no_trade: dir != 0 }
        }
    }

    /// The point at which the pin strength of a read needs the exponential.
    pub open spec fn read_pin_point(self) -> Option<Num> {
        if self.long_gamma() && self.strikes@.len() > 0 && !self.spot.fle(Num::of(ZERO)) {
            Some(proximity_point(self.spot, top_strike(self.strikes@).strike))
        } else {
            None
        }
    }

    /// The pin strength of a read.
    pub open spec fn read_pin(self, prox: Num) -> Num {
        if self.long_gamma() {
            pin_strength_from(self.strikes@, self.spot, prox)
        } else {
            Num::of(ZERO)
        }
    }
}

fn choose_bracket(profile: &ProfileInputs, dir: i8) -> (r: Bracket)
    requires
        -1 <= dir <= 1,
    ensures
        r == profile.bracket_for(dir),
{
    if dir == 0 {
        return Bracket { target: None, stop: None, no_trade: false };
    }
    let spot = profile.spot;
    let long_gamma = profile.net_gex >= Num::of(ZERO);
    let tiny = spot * Num::of(BRACKET_DEADZONE_PCT);
    let bd = dir_value(dir);
    let wall = if dir > 0 {
        profile.call_wall
    } else {
        profile.put_wall
    };
    let target = if long_gamma {
        match profile.magnet {
            Some(m) => if bd * (m - spot) > tiny {
                Some(m)
            } else {
                wall
            },
            None => wall,
        }
    } else {
        wall
    };
    let stop = if long_gamma {
        if dir > 0 {
            profile.put_wall
        } else {
            profile.call_wall
        }
    } else {
        profile.gamma_flip
    };
    let ahead = match target {
        Some(t) => bd * (t - spot) > tiny,
        None => false,
    };
    let behind = match stop {
        Some(s) => bd * (spot - s) > tiny,
        None => false,
    };
    if ahead && behind {
        Bracket { target, stop, no_trade: false }
    } else {
        Bracket { target: None, stop: None, no_trade: true }
    }
}

/// How clear the regime is: the pin strength in a pin, the score in a trend.
pub open spec fn clarity_of(long_gamma: bool, pin: Num, score: Num) -> Num {
    if long_gamma {
        pin
    } else {
        score.fabs().fmul(Num::of(TREND_CLARITY_GAIN)).fmin(Num::of(HUNDRED))
    }
}

/// The blended position strength, halved without a trade.
pub open spec fn strength_of(score: Num, confidence: Num, clarity: Num, idle: bool) -> Num {
    let raw = Num::of(PS_W_SCORE).fmul(score.fabs()).fadd(
        Num::of(PS_W_CONF).fmul(confidence),
    ).fadd(Num::of(PS_W_CLARITY).fmul(clarity)).fround();
    let cut = if idle {
        raw.fdiv(Num::of(PS_NOTRADE_DIVISOR)).ffloor()
    } else {
        raw
    };
    cut.fclamp(Num::of(ZERO), Num::of(HUNDRED))
}

impl TerminalRead {
    /// The read of a profile.
    pub open spec fn is_read_of(
        self,
        p: ProfileInputs,
        closes: Seq<Num>,
        previous: BinaryState,
        prox: Num,
    ) -> bool {
        let signals = p.signals(closes);
        let dir = bias_dir(self.bias);
        &&& self.signals@.map_values(|s: ReadSignal| s@) == signals
        &&& self.score == score_of(signals)
        &&& self.bias == bias_of(self.score)
        &&& self.regime == (if p.long_gamma() {
            DealerRegime::Pin
        } else {
            DealerRegime::Trend
        })
        &&& self.confidence == confidence_of(signals, self.score)
        &&& self.pin_strength == p.read_pin(prox)
        &&& self.bracket == p.bracket_for(dir)
        &&& self.position_strength == strength_of(
            self.score,
            self.confidence,
            clarity_of(p.long_gamma(), self.pin_strength, self.score),
            self.bracket.no_trade || dir == 0,
        )
        &&& self.engaged == Readout::resolved_from(
            read_engaged_band(),
            self.score.fabs().fdiv(Num::of(HUNDRED)),
            previous,
        )
    }
}

/// A weight that is a natural number up to 28.
pub open spec fn whole_weight(s: SignalView) -> bool {
    exists|w: nat| 0 < w <= 28 && s.weight == #[trigger] Num::whole(false, w)
}

/// The bit pattern of a small natural number.
proof fn lemma_small(bits: u64, w: nat)
    requires
        0 < w < 0x20,
        0x4000_0000_0000_0000 <= bits < 0x4050_0000_0000_0000,
        Num::of(bits).significand() * pow2((Num::of(bits).scale() - 1022) as nat) == w * pow2(52),
    ensures
        Num::of(bits) == Num::whole(false, w),
{
    let (x, p) = (Num::of(bits), pow2(1074));
    let (m, k) = (x.significand(), x.scale());
    reveal(Num::whole);
    lemma_pow2_adds((k - 1022) as nat, 1022);
    lemma_pow2_adds(52, 1022);
    let (q, r) = (pow2((k - 1022) as nat), pow2(1022));
    assert(m * (q * r) == w * p) by (nonlinear_arith)
        requires
            m * q == w * pow2(52),
            p == pow2(52) * r,
    ;
    arith::lemma_round_exact(x);
}

/// All weights of the signals are natural numbers.
proof fn lemma_weights(p: ProfileInputs, closes: Seq<Num>)
    ensures
        p.signals(closes).len() <= 5,
        forall|i: int|
            0 <= i < p.signals(closes).len() ==> whole_weight(#[trigger] p.signals(closes)[i]),
{
    lemma2_to64();
    lemma2_to64_rest();
    assert(pow2(3) == 8 && pow2(4) == 16);
    assert(Num::of(W_FLIP).scale() == 1026);
    assert(Num::of(W_FLIP).significand() == 0x1C_0000_0000_0000);
    assert(Num::of(W_MAGNET_PIN).scale() == 1026);
    assert(Num::of(W_MAGNET_PIN).significand() == 0x18_0000_0000_0000);
    assert(Num::of(W_MAGNET_TREND).scale() == 1025);
    assert(Num::of(W_MAGNET_TREND).significand() == 0x10_0000_0000_0000);
    assert(Num::of(W_WALL).scale() == 1026);
    assert(Num::of(W_POSITIONING).scale() == 1026);
    assert(Num::of(W_MOM_PIN).scale() == 1025);
    assert(Num::of(W_MOM_PIN).significand() == 0x18_0000_0000_0000);
    assert(Num::of(W_MOM_TREND).scale() == 1026);
    assert(Num::of(W_MOM_TREND).significand() == 0x18_0000_0000_0000);
    lemma_small(W_FLIP, 28);
    lemma_small(W_MAGNET_PIN, 24);
    lemma_small(W_MAGNET_TREND, 8);
    lemma_small(W_WALL, 16);
    lemma_small(W_POSITIONING, 18);
    lemma_small(W_MOM_PIN, 12);
    lemma_small(W_MOM_TREND, 24);
}

/// The weights of the agreeing signals add up to at most those of all.
proof fn lemma_agreement(signals: Seq<SignalView>, dir: i8) -> (r: (nat, nat))
    requires
        signals.len() <= 5,
        forall|i: int| 0 <= i < signals.len() ==> whole_weight(#[trigger] signals[i]),
    ensures
        r.0 <= r.1 <= 28 * signals.len(),
        sums::sum(weights_where(signals, false, dir)) == (if r.0 == 0 {
            Num::of(NEG_ZERO)
        } else {
            Num::whole(false, r.0)
        }),
        sums::sum(weights_where(signals, true, dir)) == (if r.1 == 0 {
            Num::of(NEG_ZERO)
        } else {
            Num::whole(false, r.1)
        }),
    decreases signals.len(),
{
    if signals.len() == 0 {
        (0, 0)
    } else {
        assert forall|i: int| 0 <= i < signals.len() - 1 implies whole_weight(
            #[trigger] signals.drop_last()[i],
        ) by {
            assert(signals.drop_last()[i] == signals[i]);
        }
        let (j, k) = lemma_agreement(signals.drop_last(), dir);
        let s = signals.last();
        assert(whole_weight(signals[signals.len() - 1]));
        let w = choose|w: nat| 0 < w <= 28 && s.weight == #[trigger] Num::whole(false, w);
        lemma2_to64_rest();
        integral::lemma_whole_exact(w);
        algebra::law_add_zero(s.weight);
        algebra::law_add_commutes(Num::of(NEG_ZERO), s.weight);
        algebra::lemma_whole_add(j, w);
        algebra::lemma_whole_add(k, w);
        sums::lemma_sum_push(weights_where(signals.drop_last(), false, dir), s.weight);
        sums::lemma_sum_push(weights_where(signals.drop_last(), true, dir), s.weight);
        (
            if s.dir != 0 && s.dir == dir {
                j + w
            } else {
                j
            },
            if s.dir != 0 {
                k + w
            } else {
                k
            },
        )
    }
}

/// A confluence score is a number.
proof fn lemma_score_is_number(signals: Seq<SignalView>)
    requires
        forall|i: int| 0 <= i < signals.len() ==> whole_weight(#[trigger] signals[i]),
    ensures
        !score_of(signals).nan(),
{
    let c = contributions(signals);
    lemma2_to64();
    lemma2_to64_rest();
    assert forall|i: int| 0 <= i < c.len() implies (#[trigger] c[i]).finite() by {
        let s = signals[i];
        assert(whole_weight(s));
        let w = choose|w: nat| 0 < w <= 28 && s.weight == #[trigger] Num::whole(false, w);
        integral::lemma_whole_exact(w);
        algebra::law_mul_one(s.weight);
        algebra::law_mul_commutes(s.weight, Num::of(ONE));
        algebra::law_mul_commutes(s.weight, Num::of(MINUS_ONE));
        algebra::law_mul_neg(s.weight, Num::of(ONE));
        algebra::law_zero_mul(Num::of(ZERO), s.weight);
    }
    sums::lemma_sum_is_number(c);
    reveal(Num::whole);
}

/// The score of a read lies between -100 and 100; its confidence, its pin
/// strength and its position strength lie between 0 and 100, unless the last
/// two are NaN.
pub proof fn law_read_scores_bounded(
    r: TerminalRead,
    p: ProfileInputs,
    closes: Seq<Num>,
    previous: BinaryState,
    prox: Num,
)
    requires
        r.is_read_of(p, closes, previous, prox),
    ensures
        Num::of(MINUS_HUNDRED).fle(r.score) && r.score.fle(Num::of(HUNDRED)),
        Num::of(ZERO).fle(r.confidence) && r.confidence.fle(Num::of(HUNDRED)),
        r.pin_strength.nan() || (Num::of(ZERO).fle(r.pin_strength) && r.pin_strength.fle(
            Num::of(HUNDRED),
        )),
        r.position_strength.nan() || (Num::of(ZERO).fle(r.position_strength)
            && r.position_strength.fle(Num::of(HUNDRED))),
{
    let signals = p.signals(closes);
    let dir = bias_dir(bias_of(r.score));
    lemma2_to64();
    lemma2_to64_rest();
    lemma_hundred();
    integral::lemma_whole_exact(0);
    integral::lemma_whole_exact(100);
    reveal(Num::whole);
    arith::lemma_round_zero(1);
    lemma_weights(p, closes);
    lemma_score_is_number(signals);
    if dir == 0 {
        integral::lemma_round_between(r.score.fabs(), 0, 100);
    } else {
        let (j, k) = lemma_agreement(signals, dir);
        lemma_share_bounded(j, k);
    }
}

proof fn lemma_hundred()
    ensures
        Num::of(HUNDRED) == Num::whole(false, 100),
{
    reveal(Num::whole);
    let x = Num::of(HUNDRED);
    lemma2_to64();
    lemma2_to64_rest();
    assert(x.scale() == 1028);
    assert(x.significand() == 100 * pow2(46));
    lemma_pow2_adds(46, 1028);
    let (a, b) = (pow2(46), pow2(1028));
    assert((100 * a) * b == 100 * (a * b)) by (nonlinear_arith);
    arith::lemma_round_exact(x);
}

/// A rounded percentage of a part of a whole lies between 0 and 100.
proof fn lemma_share_bounded(j: nat, k: nat)
    requires
        j <= k <= 140,
    ensures
        ({
            let part = if j == 0 {
                Num::of(NEG_ZERO)
            } else {
                Num::whole(false, j)
            };
            let all = (if k == 0 {
                Num::of(NEG_ZERO)
            } else {
                Num::whole(false, k)
            }).fmax(Num::of(ONE));
            let c = Num::of(HUNDRED).fmul(part).fdiv(all).fround();
            Num::of(ZERO).fle(c) && c.fle(Num::of(HUNDRED))
        }),
{
    let (hundred, one, zero) = (Num::of(HUNDRED), Num::of(ONE), Num::of(ZERO));
    lemma2_to64_rest();
    lemma_hundred();
    arith::lemma_round_zero(1);
    assert(Num::whole(false, 1) == one) by {
        reveal(Num::whole);
        algebra::lemma_one_size();
        arith::lemma_round_exact(one);
        assert(1 * pow2(1074) == pow2(1074));
    }
    if k > 0 {
        integral::lemma_whole_order(1, k);
        integral::lemma_whole_exact(k);
        algebra::lemma_whole_positive(k);
    }
    let all = (if k == 0 {
        Num::of(NEG_ZERO)
    } else {
        Num::whole(false, k)
    }).fmax(one);
    if j == 0 {
        let part = Num::of(NEG_ZERO);
        algebra::law_zero_mul(part, hundred);
        algebra::law_mul_commutes(hundred, part);
        arith::lemma_zero_size(hundred.fmul(part));
        algebra::lemma_zero_over(hundred.fmul(part), all);
        let q = hundred.fmul(part).fdiv(all);
        arith::lemma_zero_size(q);
        reveal(Num::whole);
        lemma_pow2_pos(1074);
    } else {
        algebra::lemma_whole_mul(100, j);
        algebra::lemma_whole_ratio(100, k);
        integral::lemma_whole_exact(100 * j);
        integral::lemma_whole_exact(100);
        integral::lemma_whole_exact(0);
        integral::lemma_whole_order(100 * j, 100 * k);
        let (x, y) = (Num::whole(false, 100 * j), Num::whole(false, 100 * k));
        algebra::law_div_monotone(x, y, all);
        algebra::law_div_antitone(x, all, all);
        let q = x.fdiv(all);
        assert(!q.negative()) by {
            reveal(Num::fdiv);
        }
        assert(Num::whole(false, 0) == zero) by {
            reveal(Num::whole);
        }
        integral::lemma_round_between(q, 0, 100);
    }
}

/// The point at which `compute_terminal_read` needs the exponential, if it needs one.
pub fn terminal_pin_arg(profile: &ProfileInputs) -> (r: Option<Num>)
    ensures
        r == profile.read_pin_point(),
{
    if profile.net_gex >= Num::of(ZERO) && profile.strikes.len() > 0 && !(profile.spot <= Num::of(
        ZERO,
    )) {
        let top = find_top_strike(&profile.strikes);
        Some(proximity_arg(profile.spot, top.strike))
    } else {
        None
    }
}

/// The terminal read.  `prox` is the machine's exponential at `terminal_pin_arg`.
pub fn compute_terminal_read(
    profile: &ProfileInputs,
    recent_closes: &Vec<Num>,
    previous_engaged: BinaryState,
    prox: Num,
) -> (r: TerminalRead)
    ensures
        r.is_read_of(*profile, recent_closes@, previous_engaged, prox),
{
    let (zero, hundred) = (Num::of(ZERO), Num::of(HUNDRED));
    let long_gamma = profile.net_gex >= zero;
    let regime = if long_gamma {
        DealerRegime::Pin
    } else {
        DealerRegime::Trend
    };
    let signals = collect_signals(profile, recent_closes);
    let ghost all = signals@.map_values(|s: ReadSignal| s@);
    let mut parts: Vec<Num> = Vec::new();
    let mut i: usize = 0;
    while i < signals.len()
        invariant
            i <= signals@.len(),
            all == signals@.map_values(|s: ReadSignal| s@),
            parts@.len() == i,
            forall|k: int| 0 <= k < i ==> parts@[k] == dir_num(all[k].dir).fmul(all[k].weight),
        decreases signals@.len() - i,
    {
        parts.push(dir_value(signals[i].dir) * signals[i].weight);
        i = i + 1;
    }
    proof {
        assert(parts@ =~= contributions(all));
    }
    let score = sums::total(&parts).round().clamp(Num::of(MINUS_HUNDRED), hundred);
    let bias = if score > Num::of(BIAS_SCORE_THRESH) {
        Bias::Long
    } else if score < Num::of(NEG_BIAS_THRESH) {
        Bias::Short
    } else {
        Bias::Neutral
    };
    let dir: i8 = match bias {
        Bias::Long => 1,
        Bias::Short => -1,
        Bias::Neutral => 0,
    };
    let confidence = if dir == 0 {
        score.abs().round().min(Num::of(NEUTRAL_CONF_CAP))
    } else {
        let dir_weight = sums::total(&gather_weights(&signals, true, dir)).max(Num::of(ONE));
        let agree = sums::total(&gather_weights(&signals, false, dir));
        (hundred * agree / dir_weight).round()
    };
    let pin = if long_gamma {
        pin_strength(&profile.strikes, profile.spot, prox)
    } else {
        zero
    };
    let bracket = choose_bracket(profile, dir);
    let clarity = match regime {
        DealerRegime::Pin => pin,
        DealerRegime::Trend => (score.abs() * Num::of(TREND_CLARITY_GAIN)).min(hundred),
    };
    let raw = (Num::of(PS_W_SCORE) * score.abs() + Num::of(PS_W_CONF) * confidence + Num::of(
        PS_W_CLARITY,
    ) * clarity).round();
    let cut = if bracket.no_trade || dir == 0 {
        (raw / Num::of(PS_NOTRADE_DIVISOR)).floor()
    } else {
        raw
    };
    let position_strength = cut.clamp(zero, hundred);
    let engaged = Readout::resolve_from(
        &read_engaged_band(),
        score.abs() / hundred,
        previous_engaged,
    );
    TerminalRead {
        score,
        bias,
        regime,
        confidence,
        pin_strength: pin,
        position_strength,
        signals,
        bracket,
        engaged,
    }
}

/// A read carries a target exactly where it carries a stop; a directional
/// read without them is no trade, and a neutral read has neither.
pub proof fn law_bracket_is_whole(p: ProfileInputs, dir: i8)
    ensures
        ({
            let b = p.bracket_for(dir);
            &&& b.target is Some <==> b.stop is Some
            &&& b.no_trade <==> (dir != 0 && b.target is None)
            &&& dir == 0 ==> b.target is None
        }),
{
}

/// A coherent bracket lies around spot: the target on the side of the bias,
/// the stop on the other.
pub proof fn law_bracket_is_coherent(p: ProfileInputs, dir: i8)
    requires
        p.bracket_for(dir).target is Some,
    ensures
        coherent(dir, p.spot, p.bracket_for(dir).target, p.bracket_for(dir).stop),
{
}

/// The first strike with the largest absolute gamma, as the outlook picks it.
pub open spec fn dominant_strike(strikes: Seq<StrikeGex>) -> Option<StrikeGex>
    decreases strikes.len(),
{
    if strikes.len() == 0 {
        None
    } else {
        match dominant_strike(strikes.drop_last()) {
            Some(b) => if strikes.last().net_gex.fabs().fle(b.net_gex.fabs()) {
                Some(b)
            } else {
                Some(strikes.last())
            },
            None => Some(strikes.last()),
        }
    }
}

fn find_dominant(strikes: &Vec<StrikeGex>) -> (r: Option<StrikeGex>)
    ensures
        r == dominant_strike(strikes@),
{
    let mut best: Option<StrikeGex> = None;
    let mut i: usize = 0;
    proof {
        assert(strikes@.take(0) =~= Seq::<StrikeGex>::empty());
    }
    while i < strikes.len()
        invariant
            i <= strikes@.len(),
            best == dominant_strike(strikes@.take(i as int)),
            i > 0 ==> best is Some,
        decreases strikes@.len() - i,
    {
        proof {
            assert(strikes@.take(i + 1).drop_last() =~= strikes@.take(i as int));
        }
        let s = strikes[i];
        best = match best {
            Some(b) => if b.net_gex.abs() >= s.net_gex.abs() {
                Some(b)
            } else {
                Some(s)
            },
            None => Some(s),
        };
        i = i + 1;
    }
    proof {
        assert(strikes@.take(i as int) =~= strikes@);
    }
    best
}

/// The least close of the window.
pub open spec fn window_low(closes: Seq<Num>) -> Num
    decreases closes.len(),
{
    if closes.len() == 0 {
        Num::of(INFINITY)
    } else {
        window_low(closes.drop_last()).fmin(closes.last())
    }
}

/// The index of the first close that equals `lo`, the last index without one.
pub open spec fn is_low_index(closes: Seq<Num>, lo: Num, i: int) -> bool {
    ||| 0 <= i < closes.len() && closes[i].feq(lo) && forall|j: int|
        0 <= j < i ==> !(#[trigger] closes[j]).feq(lo)
    ||| i == closes.len() - 1 && forall|j: int|
        0 <= j < closes.len() ==> !(#[trigger] closes[j]).feq(lo)
}

/// Price has turned up: the low of the window came before its last close,
/// which has cleared it by more than the band.
pub open spec fn turned_up(closes: Seq<Num>) -> bool {
    let lo = window_low(closes);
    &&& closes.len() >= MOMENTUM_MIN_CLOSES
    &&& exists|i: int| #[trigger] is_low_index(closes, lo, i) && i < closes.len() - 1
    &&& lo.fmul(Num::of(REVERSAL_UP_BAND)).flt(closes.last())
}

fn reversal_up(closes: &Vec<Num>) -> (r: bool)
    ensures
        r == turned_up(closes@),
{
    if closes.len() < MOMENTUM_MIN_CLOSES {
        return false;
    }
    let mut lo = Num::of(INFINITY);
    let mut i: usize = 0;
    proof {
        assert(closes@.take(0) =~= Seq::<Num>::empty());
    }
    while i < closes.len()
        invariant
            i <= closes@.len(),
            lo == window_low(closes@.take(i as int)),
        decreases closes@.len() - i,
    {
        proof {
            assert(closes@.take(i + 1).drop_last() =~= closes@.take(i as int));
        }
        lo = lo.min(closes[i]);
        i = i + 1;
    }
    proof {
        assert(closes@.take(i as int) =~= closes@);
    }
    let mut at: usize = 0;
    while at < closes.len() && closes[at] != lo
        invariant
            at <= closes@.len(),
            forall|j: int| 0 <= j < at ==> !(#[trigger] closes@[j]).feq(lo),
        decreases closes@.len() - at,
    {
        at = at + 1;
    }
    let idx: usize = if at < closes.len() {
        at
    } else {
        closes.len() - 1
    };
    proof {
        assert(is_low_index(closes@, lo, idx as int));
        assert forall|k: int| #[trigger] is_low_index(closes@, lo, k) implies k == idx by {
            if at < closes@.len() {
                assert(closes@[at as int].feq(lo));
            }
        }
    }
    idx < closes.len() - 1 && closes[closes.len() - 1] > lo * Num::of(REVERSAL_UP_BAND)
}

/// What the outlook is decided from.
#[derive(Debug, Clone, Copy, PartialEq)]
pub struct OutlookFacts {
    pub long_gamma: bool,
    pub momentum: i8,
    pub turned_up: bool,
    pub call_heavy: bool,
    pub put_heavy: bool,
    pub pin_target: Option<Num>,
    pub pin_strength: Num,
    pub above_flip: Option<bool>,
}

impl ProfileInputs {
    /// There is neither spot nor any gamma structure to read.
    pub open spec fn no_structure(self) -> bool {
        self.spot.fle(Num::of(ZERO)) || (self.net_gex.feq(Num::of(ZERO)) && self.strikes@.len()
            == 0)
    }

    /// The call share of the open interest, percent; 50 without any.
    pub open spec fn call_pct(self) -> Num {
        let tot = self.total_call_oi.fadd(self.total_put_oi);
        if Num::of(ZERO).flt(tot) {
            Num::of(HUNDRED).fmul(self.total_call_oi).fdiv(tot)
        } else {
            Num::of(FIFTY)
        }
    }

    /// The point at which the pin strength of the outlook needs the exponential.
    pub open spec fn outlook_pin_point(self) -> Option<Num> {
        match dominant_strike(self.strikes@) {
            Some(d) => if self.long_gamma() && !self.no_structure() {
                Some(proximity_point(self.spot, d.strike))
            } else {
                None
            },
            None => None,
        }
    }

    /// The facts of a profile.
    pub open spec fn facts(self, closes: Seq<Num>, prox: Num) -> OutlookFacts {
        OutlookFacts {
            long_gamma: self.long_gamma(),
            momentum: momentum_of(closes),
            turned_up: turned_up(closes),
            call_heavy: Num::of(OI_SKEW_HIGH_PCT).fle(self.call_pct()),
            put_heavy: self.call_pct().fle(Num::of(OI_SKEW_LOW_PCT)),
            pin_target: match self.magnet {
                Some(m) => Some(m),
                None => match dominant_strike(self.strikes@) {
                    Some(d) => Some(d.strike),
                    None => None,
                },
            },
            pin_strength: if self.long_gamma() && self.strikes@.len() > 0 {
                pin_strength_from(self.strikes@, self.spot, prox)
            } else {
                Num::of(ZERO)
            },
            above_flip: match self.gamma_flip {
                Some(f) => Some(f.fle(self.spot)),
                None => None,
            },
        }
    }

    /// The first rule that applies, in strict priority.
    pub open spec fn outlook(self, f: OutlookFacts) -> GexOutlook {
        let zero = Num::of(ZERO);
        let either = |a: Option<Num>, b: Option<Num>|
            match a {
                Some(x) => Some(x),
                None => b,
            };
        if self.pinning(f) {
            GexOutlook {
                regime: OutlookRegime::Pinning,
                bias: OutlookBias::Sideways,
                target: f.pin_target,
                confidence: Num::of(N40).fadd(f.pin_strength.fmul(Num::of(PINNING_GAIN))).fround()
                    .fclamp(Num::of(N45), Num::of(N96)),
            }
        } else if self.squeezing(f) {
            let d = pct_distance(self.call_wall->0, self.spot);
            let near = Num::of(ONE).fsub(d.fdiv(Num::of(SQUEEZE_WALL_DIST_PCT)));
            let bonus = if f.momentum > 0 {
                Num::of(N8)
            } else {
                zero
            };
            GexOutlook {
                regime: OutlookRegime::GammaSqueeze,
                bias: OutlookBias::Up,
                target: self.call_wall,
                confidence: Num::of(N52).fadd(near.fmul(Num::of(N30))).fadd(bonus).fround().fclamp(
                    Num::of(FIFTY),
                    Num::of(N92),
                ),
            }
        } else if !f.long_gamma && f.put_heavy && (f.turned_up || f.momentum > 0) {
            let lift = if f.turned_up {
                Num::of(N16)
            } else {
                Num::of(N6)
            };
            GexOutlook {
                regime: OutlookRegime::ShortSqueeze,
                bias: OutlookBias::Up,
                target: either(self.gamma_flip, self.call_wall),
                confidence: Num::of(N54).fadd(lift).fadd(Num::of(N8)).fround().fclamp(
                    Num::of(N48),
                    Num::of(N90),
                ),
            }
        } else if !f.long_gamma && f.above_flip == Some(false) && f.momentum < 0 {
            let heavy = if f.put_heavy {
                Num::of(N10)
            } else {
                zero
            };
            let below = match self.put_wall {
                Some(w) => if pct_distance(w, self.spot).flt(zero) {
                    Num::of(N6)
                } else {
                    zero
                },
                None => zero,
            };
            GexOutlook {
                regime: OutlookRegime::TrendDown,
                bias: OutlookBias::Down,
                target: either(self.put_wall, self.gamma_flip),
                confidence: Num::of(N56).fadd(heavy).fadd(below).fround().fclamp(
                    Num::of(N45),
                    Num::of(N88),
                ),
            }
        } else if !f.long_gamma && f.above_flip == Some(true) && f.momentum > 0 {
            let heavy = if f.call_heavy {
                Num::of(N10)
            } else {
                zero
            };
            GexOutlook {
                regime: OutlookRegime::TrendUp,
                bias: OutlookBias::Up,
                target: either(self.call_wall, self.gamma_flip),
                confidence: Num::of(N54).fadd(heavy).fround().fclamp(Num::of(N45), Num::of(N86)),
            }
        } else if f.long_gamma && self.caged() {
            GexOutlook {
                regime: OutlookRegime::Range,
                bias: OutlookBias::Sideways,
                target: self.magnet,
                confidence: Num::of(N48).fadd(f.pin_strength.fmul(Num::of(RANGE_GAIN))).fround()
                    .fclamp(Num::of(N40), Num::of(N78)),
            }
        } else if f.long_gamma {
            GexOutlook {
                regime: OutlookRegime::Range,
                bias: OutlookBias::Sideways,
                target: f.pin_target,
                confidence: Num::of(OUTLOOK_CONF_FALLBACK_LONG),
            }
        } else {
            match f.above_flip {
                Some(false) => GexOutlook {
                    regime: OutlookRegime::TrendDown,
                    bias: OutlookBias::Down,
                    target: either(self.put_wall, self.gamma_flip),
                    confidence: Num::of(OUTLOOK_CONF_FALLBACK_SHORT),
                },
                Some(true) => GexOutlook {
                    regime: OutlookRegime::TrendUp,
                    bias: OutlookBias::Up,
                    target: either(self.call_wall, self.gamma_flip),
                    confidence: Num::of(OUTLOOK_CONF_FALLBACK_SHORT),
                },
                None => GexOutlook {
                    regime: OutlookRegime::Neutral,
                    bias: OutlookBias::Sideways,
                    target: None,
                    confidence: Num::of(OUTLOOK_CONF_FALLBACK_SHORT),
                },
            }
        }
    }

    /// Long gamma, close to the pin target, and the pin is strong.
    pub open spec fn pinning(self, f: OutlookFacts) -> bool {
        &&& f.long_gamma
        &&& f.pin_target matches Some(t) && pct_distance(t, self.spot).fabs().fle(
            Num::of(PINNING_DIST_PCT),
        )
        &&& Num::of(PINNING_MIN_STRENGTH).fle(f.pin_strength)
    }

    /// Long gamma above the flip, pressing a call wall close above, call-heavy, not falling.
    pub open spec fn squeezing(self, f: OutlookFacts) -> bool {
        &&& f.long_gamma
        &&& f.above_flip == Some(true)
        &&& self.call_wall matches Some(w) && Num::of(ZERO).flt(pct_distance(w, self.spot))
            && pct_distance(w, self.spot).fle(Num::of(SQUEEZE_WALL_DIST_PCT))
        &&& f.call_heavy
        &&& f.momentum >= 0
    }

    /// Spot lies strictly between the walls.
    pub open spec fn caged(self) -> bool {
        self.call_wall matches Some(cw) && self.put_wall matches Some(pw) && pw.flt(cw) && pw.flt(
            self.spot,
        ) && self.spot.flt(cw)
    }
}

fn first_of(a: Option<Num>, b: Option<Num>) -> (r: Option<Num>)
    ensures
        r == (match a {
            Some(x) => Some(x),
            None => b,
        }),
{
    match a {
        Some(x) => Some(x),
        None => b,
    }
}

fn gather_facts(profile: &ProfileInputs, closes: &Vec<Num>, prox: Num) -> (r: OutlookFacts)
    ensures
        r == profile.facts(closes@, prox),
{
    let zero = Num::of(ZERO);
    let long_gamma = profile.net_gex >= zero;
    let tot = profile.total_call_oi + profile.total_put_oi;
    let call_pct = if tot > zero {
        Num::of(HUNDRED) * profile.total_call_oi / tot
    } else {
        Num::of(FIFTY)
    };
    let dom = find_dominant(&profile.strikes);
    let dom_strike = match dom {
        Some(d) => Some(d.strike),
        None => None,
    };
    let pin_target = first_of(profile.magnet, dom_strike);
    let strength = if long_gamma && profile.strikes.len() > 0 {
        pin_strength(&profile.strikes, profile.spot, prox)
    } else {
        zero
    };
    OutlookFacts {
        long_gamma,
        momentum: raw_momentum(closes),
        turned_up: reversal_up(closes),
        call_heavy: call_pct >= Num::of(OI_SKEW_HIGH_PCT),
        put_heavy: call_pct <= Num::of(OI_SKEW_LOW_PCT),
        pin_target,
        pin_strength: strength,
        above_flip: match profile.gamma_flip {
            Some(f) => Some(profile.spot >= f),
            None => None,
        },
    }
}

/// The point at which `compute_gex_outlook` needs the exponential, if it needs one.
pub fn outlook_pin_arg(profile: &ProfileInputs) -> (r: Option<Num>)
    ensures
        r == profile.outlook_pin_point(),
{
    let zero = Num::of(ZERO);
    if profile.spot <= zero || (profile.net_gex == zero && profile.strikes.len() == 0) {
        return None;
    }
    match find_dominant(&profile.strikes) {
        Some(d) => if profile.net_gex >= zero {
            Some(proximity_arg(profile.spot, d.strike))
        } else {
            None
        },
        None => None,
    }
}

/// The GEX outlook.  `prox` is the machine's exponential at `outlook_pin_arg`.
pub fn compute_gex_outlook(profile: &ProfileInputs, recent_closes: &Vec<Num>, prox: Num) -> (r:
    GexOutlook)
    ensures
        r == (if profile.no_structure() {
            GexOutlook {
                regime: OutlookRegime::Neutral,
                bias: OutlookBias::Sideways,
                target: None,
                confidence: Num::of(OUTLOOK_CONF_NODATA),
            }
        } else {
            profile.outlook(profile.facts(recent_closes@, prox))
        }),
{
    let zero = Num::of(ZERO);
    let spot = profile.spot;
    if spot <= zero || (profile.net_gex == zero && profile.strikes.len() == 0) {
        return GexOutlook {
            regime: OutlookRegime::Neutral,
            bias: OutlookBias::Sideways,
            target: None,
            confidence: Num::of(OUTLOOK_CONF_NODATA),
        };
    }
    let f = gather_facts(profile, recent_closes, prox);
    // Pinning.
    if f.long_gamma {
        if let Some(t) = f.pin_target {
            if pct_to(t, spot).abs() <= Num::of(PINNING_DIST_PCT) && f.pin_strength >= Num::of(
                PINNING_MIN_STRENGTH,
            ) {
                let confidence = (Num::of(N40) + f.pin_strength * Num::of(
                    PINNING_GAIN,
                )).round().clamp(Num::of(N45), Num::of(N96));
                return GexOutlook {
                    regime: OutlookRegime::Pinning,
                    bias: OutlookBias::Sideways,
                    target: Some(t),
                    confidence,
                };
            }
        }
    }
    // Gamma squeeze.
    let above = match f.above_flip {
        Some(b) => b,
        None => false,
    };
    let below = match f.above_flip {
        Some(b) => !b,
        None => false,
    };
    if f.long_gamma {
        if let Some(cw) = profile.call_wall {
            let d = pct_to(cw, spot);
            if above && d > zero && d <= Num::of(SQUEEZE_WALL_DIST_PCT) && f.call_heavy
                && f.momentum >= 0 {
                let near = Num::of(ONE) - d / Num::of(SQUEEZE_WALL_DIST_PCT);
                let bonus = if f.momentum > 0 {
                    Num::of(N8)
                } else {
                    zero
                };
                let confidence = (Num::of(N52) + near * Num::of(N30) + bonus).round().clamp(
                    Num::of(FIFTY),
                    Num::of(N92),
                );
                return GexOutlook {
                    regime: OutlookRegime::GammaSqueeze,
                    bias: OutlookBias::Up,
                    target: Some(cw),
                    confidence,
                };
            }
        }
    }
    // Short squeeze.
    if !f.long_gamma && f.put_heavy && (f.turned_up || f.momentum > 0) {
        let lift = if f.turned_up {
            Num::of(N16)
        } else {
            Num::of(N6)
        };
        let confidence = (Num::of(N54) + lift + Num::of(N8)).round().clamp(
            Num::of(N48),
            Num::of(N90),
        );
        return GexOutlook {
            regime: OutlookRegime::ShortSqueeze,
            bias: OutlookBias::Up,
            target: first_of(profile.gamma_flip, profile.call_wall),
            confidence,
        };
    }
    // Trend down.
    if !f.long_gamma && below && f.momentum < 0 {
        let heavy = if f.put_heavy {
            Num::of(N10)
        } else {
            zero
        };
        let wall_bonus = match profile.put_wall {
            Some(w) => if pct_to(w, spot) < zero {
                Num::of(N6)
            } else {
                zero
            },
            None => zero,
        };
        let confidence = (Num::of(N56) + heavy + wall_bonus).round().clamp(
            Num::of(N45),
            Num::of(N88),
        );
        return GexOutlook {
            regime: OutlookRegime::TrendDown,
            bias: OutlookBias::Down,
            target: first_of(profile.put_wall, profile.gamma_flip),
            confidence,
        };
    }
    // Trend up.
    if !f.long_gamma && above && f.momentum > 0 {
        let heavy = if f.call_heavy {
            Num::of(N10)
        } else {
            zero
        };
        let confidence = (Num::of(N54) + heavy).round().clamp(Num::of(N45), Num::of(N86));
        return GexOutlook {
            regime: OutlookRegime::TrendUp,
            bias: OutlookBias::Up,
            target: first_of(profile.call_wall, profile.gamma_flip),
            confidence,
        };
    }
    // Range.
    if f.long_gamma {
        if let (Some(cw), Some(pw)) = (profile.call_wall, profile.put_wall) {
            if cw > pw && pw < spot && spot < cw {
                let confidence = (Num::of(N48) + f.pin_strength * Num::of(
                    RANGE_GAIN,
                )).round().clamp(Num::of(N40), Num::of(N78));
                return GexOutlook {
                    regime: OutlookRegime::Range,
                    bias: OutlookBias::Sideways,
                    target: profile.magnet,
                    confidence,
                };
            }
        }
        return GexOutlook {
            regime: OutlookRegime::Range,
            bias: OutlookBias::Sideways,
            target: f.pin_target,
            confidence: Num::of(OUTLOOK_CONF_FALLBACK_LONG),
        };
    }
    let (regime, bias, target) = match f.above_flip {
        Some(false) => (
            OutlookRegime::TrendDown,
            OutlookBias::Down,
            first_of(profile.put_wall, profile.gamma_flip),
        ),
        Some(true) => (
            OutlookRegime::TrendUp,
            OutlookBias::Up,
            first_of(profile.call_wall, profile.gamma_flip),
        ),
        None => (OutlookRegime::Neutral, OutlookBias::Sideways, None),
    };
    GexOutlook { regime, bias, target, confidence: Num::of(OUTLOOK_CONF_FALLBACK_SHORT) }
}

/// The sign of gamma rules the outlook: long gamma never trends or squeezes
/// shorts, short gamma never pins, ranges or squeezes calls.
pub proof fn law_outlook_follows_gamma(p: ProfileInputs, f: OutlookFacts)
    ensures
        ({
            let r = p.outlook(f).regime;
            &&& f.long_gamma ==> r is Pinning || r is GammaSqueeze || r is Range
            &&& !f.long_gamma ==> r is ShortSqueeze || r is TrendDown || r is TrendUp
                || r is Neutral
        }),
{
}

/// The chance that a contract expires in the money, at the standard rate and
/// without a yield.
///
/// `ln` is the machine's logarithm at `first_passage::expire_ratio`, `e` its
/// exponential at `dist::gauss_arg` of `first_passage::expire_point`.
pub fn prob_expire_itm(
    spot: Num,
    strike: Num,
    t: Num,
    iv: Num,
    is_call: bool,
    ln: Num,
    e: Num,
) -> (r: Num)
    ensures
        r == first_passage::itm_chance(
            spot,
            strike,
            t,
            iv,
            is_call,
            Num::of(DEFAULT_RISK_FREE),
            Num::of(ZERO),
            ln,
            e,
        ),
{
    first_passage::prob_expire_itm(
        spot,
        strike,
        t,
        iv,
        is_call,
        Num::of(DEFAULT_RISK_FREE),
        Num::of(ZERO),
        ln,
        e,
    )
}

/// The confidence of an outlook that is a number lies between 0 and 100.
pub proof fn law_outlook_confidence_bounded(p: ProfileInputs, f: OutlookFacts)
    ensures
        ({
            let c = p.outlook(f).confidence;
            c.nan() || (Num::of(ZERO).fle(c) && c.fle(Num::of(HUNDRED)))
        }),
{
}

} // verus!
