//! Multi-leg strategies: payoff coordinates, breakevens, extremes, payoff
//! tails, and mark-to-model value with greeks.
//!
//! The expiry payoff is piecewise linear with kinks only at spot 0 and at the
//! strikes, so extremes and breakevens are computed on that lattice together
//! with the slope of the right tail.  Every leg is taken at its own expiry
//! intrinsic.

use crate::black_scholes::{self, BsGreeks, BsInputs, BsTerms, QuantError};
use crate::consts::{INFINITY, NEG_INFINITY, ONE, ZERO};
use crate::integral;
use crate::market::OptionRight;
use crate::num::Num;
use crate::sorting;
use crate::sums;
use vstd::arithmetic::power2::*;
use vstd::prelude::*;

verus! {

/// Shares per US equity option contract (100.0).
pub const CONTRACT_MULTIPLIER: u64 = 0x4059_0000_0000_0000;

/// Lower bound of the payoff chart, fraction of spot (0.85).
pub const PAYOFF_CHART_LO_FRAC: u64 = 0x3FEB_3333_3333_3333;

/// Upper bound of the payoff chart, fraction of spot (1.15).
pub const PAYOFF_CHART_HI_FRAC: u64 = 0x3FF2_6666_6666_6666;

/// Steps of the payoff chart; it has one point more.
pub const PAYOFF_CHART_STEPS: u32 = 80;

/// Most legs whose signed quantities are sure to add up within range.
pub const MAX_LEGS: usize = 0xFFFF_FFFF;

/// Relative tolerance within which two crossings are one (1e-09).
pub const BREAKEVEN_DEDUPE_REL_TOL: u64 = 0x3E11_2E0B_E826_D695;

/// Errors from strategy construction and analytics.
#[derive(Debug, Clone, Copy, PartialEq)]
pub enum StrategyError {
    /// The strategy has no legs.
    Empty,
    /// A leg or strategy field is outside its domain.
    Domain(&'static str),
    /// The per-leg vols do not align with the legs.
    VolCountMismatch {
        /// Number of legs in the strategy.
        legs: usize,
        /// Number of vols supplied.
        vols: usize,
    },
    /// Error from the pricing kernel.
    Quant(QuantError),
}

/// One option leg.
#[derive(Debug, Clone, Copy, PartialEq)]
pub struct Leg {
    /// Call or put.
    pub right: OptionRight,
    /// Strike, points.
    pub strike: Num,
    /// Time to expiry, years.
    pub expiry_t_years: Num,
    /// Signed contract count: positive long, negative short.
    pub quantity: i32,
    /// Entry premium per share.
    pub premium: Num,
}

/// A signed count as a number.
pub open spec fn qty_num(q: i32) -> Num {
    if q < 0 {
        Num::whole(true, (-q) as nat)
    } else {
        Num::whole(false, q as nat)
    }
}

/// A signed count as a number.
pub fn qty_value(q: i32) -> (r: Num)
    ensures
        r == qty_num(q),
{
    Num::from_i64(q as i64)
}

/// A count is never infinite.
pub proof fn lemma_qty_finite(q: i32)
    ensures
        qty_num(q).finite(),
{
    lemma2_to64_rest();
    let n: nat = if q < 0 {
        (-q) as nat
    } else {
        q as nat
    };
    integral::lemma_whole_exact(n);
    reveal(Num::whole);
}

/// Positive and finite.
pub open spec fn positive_finite(v: Num) -> bool {
    Num::of(ZERO).flt(v) && v.finite()
}

/// Finite and not negative.
pub open spec fn non_negative_finite(v: Num) -> bool {
    Num::of(ZERO).fle(v) && v.finite()
}

pub fn is_positive_finite(v: Num) -> (r: bool)
    ensures
        r == positive_finite(v),
{
    v > Num::of(ZERO) && v.is_finite()
}

pub fn is_non_negative_finite(v: Num) -> (r: bool)
    ensures
        r == non_negative_finite(v),
{
    v >= Num::of(ZERO) && v.is_finite()
}

impl Leg {
    /// What is wrong with a leg.
    pub open spec fn problem(self) -> Option<StrategyError> {
        if !positive_finite(self.strike) {
            Some(StrategyError::Domain("leg strike must be positive and finite"))
        } else if !non_negative_finite(self.expiry_t_years) {
            Some(StrategyError::Domain("leg expiry_t_years must be non-negative and finite"))
        } else if !non_negative_finite(self.premium) {
            Some(StrategyError::Domain("leg premium must be non-negative and finite"))
        } else {
            None
        }
    }

    /// Expiry value per share.
    pub open spec fn intrinsic_at(self, spot: Num) -> Num {
        match self.right {
            OptionRight::Call => spot.fsub(self.strike).fmax(Num::of(ZERO)),
            OptionRight::Put => self.strike.fsub(spot).fmax(Num::of(ZERO)),
        }
    }

    /// Expiry profit of the leg.
    pub open spec fn pnl_at(self, spot: Num, multiplier: Num) -> Num {
        self.intrinsic_at(spot).fsub(self.premium).fmul(qty_num(self.quantity)).fmul(multiplier)
    }

    /// Premium paid for the leg.
    pub open spec fn cost(self, multiplier: Num) -> Num {
        self.premium.fmul(qty_num(self.quantity)).fmul(multiplier)
    }

    /// Validates the domain of a leg.
    pub fn validate(&self) -> (r: Result<(), StrategyError>)
        ensures
            match r {
                Ok(_) => self.problem() is None,
                Err(e) => self.problem() == Some(e),
            },
    {
        if !is_positive_finite(self.strike) {
            return Err(StrategyError::Domain("leg strike must be positive and finite"));
        }
        if !is_non_negative_finite(self.expiry_t_years) {
            return Err(
                StrategyError::Domain("leg expiry_t_years must be non-negative and finite"),
            );
        }
        if !is_non_negative_finite(self.premium) {
            return Err(StrategyError::Domain("leg premium must be non-negative and finite"));
        }
        Ok(())
    }

    /// Expiry intrinsic value per share at a terminal spot.
    pub fn intrinsic(&self, spot: Num) -> (r: Num)
        ensures
            r == self.intrinsic_at(spot),
    {
        match self.right {
            OptionRight::Call => (spot - self.strike).max(Num::of(ZERO)),
            OptionRight::Put => (self.strike - spot).max(Num::of(ZERO)),
        }
    }
}

/// Legs and the contract multiplier.
#[derive(Debug, PartialEq)]
pub struct Strategy {
    /// The legs.
    pub legs: Vec<Leg>,
    /// Shares per contract.
    pub multiplier: Num,
}

/// Signed quantity of one right over the legs.
pub open spec fn net_qty(legs: Seq<Leg>, right: OptionRight) -> int
    decreases legs.len(),
{
    if legs.len() == 0 {
        0
    } else {
        net_qty(legs.drop_last(), right) + if legs.last().right == right {
            legs.last().quantity as int
        } else {
            0
        }
    }
}

impl Strategy {
    /// What is wrong with a strategy: no legs, the multiplier, the first bad leg.
    pub open spec fn problem(self) -> Option<StrategyError> {
        if self.legs@.len() == 0 {
            Some(StrategyError::Empty)
        } else if !positive_finite(self.multiplier) {
            Some(StrategyError::Domain("multiplier must be positive and finite"))
        } else {
            first_leg_problem(self.legs@)
        }
    }

    /// Expiry profit at a terminal spot.
    pub open spec fn pnl(self, spot: Num) -> Num {
        sums::sum(self.legs@.map_values(|l: Leg| l.pnl_at(spot, self.multiplier)))
    }

    /// Premium paid, net.
    pub open spec fn premium_paid(self) -> Num {
        sums::sum(self.legs@.map_values(|l: Leg| l.cost(self.multiplier)))
    }

    /// Validates a strategy.
    pub fn validate(&self) -> (r: Result<(), StrategyError>)
        ensures
            match r {
                Ok(_) => self.problem() is None,
                Err(e) => self.problem() == Some(e),
            },
    {
        if self.legs.len() == 0 {
            return Err(StrategyError::Empty);
        }
        if !is_positive_finite(self.multiplier) {
            return Err(StrategyError::Domain("multiplier must be positive and finite"));
        }
        let mut i: usize = 0;
        proof {
            assert(self.legs@.take(0) =~= Seq::<Leg>::empty());
        }
        while i < self.legs.len()
            invariant
                0 < self.legs@.len(),
                positive_finite(self.multiplier),
                i <= self.legs@.len(),
                first_leg_problem(self.legs@.take(i as int)) is None,
            decreases self.legs@.len() - i,
        {
            proof {
                assert(self.legs@.take(i + 1).drop_last() =~= self.legs@.take(i as int));
            }
            match self.legs[i].validate() {
                Ok(_) => {},
                Err(e) => {
                    proof {
                        lemma_first_problem(self.legs@, (i + 1) as nat);
                    }
                    return Err(e);
                },
            }
            i = i + 1;
        }
        proof {
            assert(self.legs@.take(i as int) =~= self.legs@);
        }
        Ok(())
    }

    /// Net premium: positive is a debit paid, negative a credit received.
    pub fn net_premium(&self) -> (r: Num)
        ensures
            r == self.premium_paid(),
    {
        let mut parts: Vec<Num> = Vec::new();
        let mut i: usize = 0;
        while i < self.legs.len()
            invariant
                i <= self.legs@.len(),
                parts@.len() == i,
                forall|k: int| 0 <= k < i ==> parts@[k] == self.legs@[k].cost(self.multiplier),
            decreases self.legs@.len() - i,
        {
            let l = self.legs[i];
            parts.push(l.premium * qty_value(l.quantity) * self.multiplier);
            i = i + 1;
        }
        proof {
            assert(parts@ =~= self.legs@.map_values(|l: Leg| l.cost(self.multiplier)));
        }
        sums::total(&parts)
    }

    /// Expiry profit at a terminal spot.
    pub fn payoff_at(&self, spot: Num) -> (r: Num)
        ensures
            r == self.pnl(spot),
    {
        let mut parts: Vec<Num> = Vec::new();
        let mut i: usize = 0;
        while i < self.legs.len()
            invariant
                i <= self.legs@.len(),
                parts@.len() == i,
                forall|k: int|
                    0 <= k < i ==> parts@[k] == self.legs@[k].pnl_at(spot, self.multiplier),
            decreases self.legs@.len() - i,
        {
            let l = self.legs[i];
            parts.push((l.intrinsic(spot) - l.premium) * qty_value(l.quantity) * self.multiplier);
            i = i + 1;
        }
        proof {
            assert(parts@ =~= self.legs@.map_values(|l: Leg| l.pnl_at(spot, self.multiplier)));
        }
        sums::total(&parts)
    }

    fn net_quantity(&self, right: OptionRight) -> (r: i64)
        requires
            self.legs@.len() <= MAX_LEGS,
        ensures
            r == net_qty(self.legs@, right),
            r > i64::MIN,
    {
        let mut acc: i64 = 0;
        let mut i: usize = 0;
        proof {
            assert(self.legs@.take(0) =~= Seq::<Leg>::empty());
        }
        while i < self.legs.len()
            invariant
                i <= self.legs@.len() <= MAX_LEGS,
                acc == net_qty(self.legs@.take(i as int), right),
                -0x8000_0000 * i <= acc <= 0x8000_0000 * i,
            decreases self.legs@.len() - i,
        {
            proof {
                assert(self.legs@.take(i + 1).drop_last() =~= self.legs@.take(i as int));
            }
            if self.legs[i].right == right {
                acc = acc + self.legs[i].quantity as i64;
            }
            i = i + 1;
        }
        proof {
            assert(self.legs@.take(i as int) =~= self.legs@);
        }
        acc
    }
}

/// The problem of the first leg that has one.
pub open spec fn first_leg_problem(legs: Seq<Leg>) -> Option<StrategyError>
    decreases legs.len(),
{
    if legs.len() == 0 {
        None
    } else {
        match first_leg_problem(legs.drop_last()) {
            Some(e) => Some(e),
            None => legs.last().problem(),
        }
    }
}

/// The first problem of a prefix is the first problem of the whole.
proof fn lemma_first_problem(legs: Seq<Leg>, n: nat)
    requires
        n <= legs.len(),
        first_leg_problem(legs.take(n as int)) is Some,
    ensures
        first_leg_problem(legs) == first_leg_problem(legs.take(n as int)),
    decreases legs.len() - n,
{
    if n < legs.len() {
        assert(legs.take(n as int + 1).drop_last() =~= legs.take(n as int));
        lemma_first_problem(legs, n + 1);
    } else {
        assert(legs.take(n as int) =~= legs);
    }
}

/// Sign of the slope on a payoff tail.
#[derive(Debug, Clone, Copy, PartialEq, Eq, Structural)]
pub enum TailSlope {
    /// Profit increases with spot.
    Rising,
    /// Profit decreases with spot.
    Falling,
    /// Profit is constant.
    Flat,
}

/// Payoff tails with the signed quantities behind them.
#[derive(Debug, Clone, Copy, PartialEq, Eq, Structural)]
pub struct PayoffTopology {
    /// Slope below every strike.
    pub left: TailSlope,
    /// Slope above every strike.
    pub right: TailSlope,
    /// Signed call quantity.
    pub net_call_qty: i64,
    /// Signed put quantity.
    pub net_put_qty: i64,
    /// Whether the right tail rises without bound.
    pub profit_unbounded: bool,
    /// Whether the right tail falls without bound.
    pub loss_unbounded: bool,
}

/// A payoff extreme over all spots from 0 on.
#[derive(Debug, Clone, Copy, PartialEq)]
pub enum PayoffExtreme {
    /// Finite extreme, attained at a kink.
    Bounded(Num),
    /// The tail runs without bound.
    Unbounded,
}

impl PayoffExtreme {
    /// Whether the extreme is unbounded.
    pub fn is_unbounded(&self) -> (r: bool)
        ensures
            r == (self is Unbounded),
    {
        match *self {
            PayoffExtreme::Bounded(_) => false,
            PayoffExtreme::Unbounded => true,
        }
    }
}

/// The expiry payoff profile of a strategy.
#[derive(Debug, PartialEq)]
pub struct PayoffProfile {
    /// Net premium: positive is a debit paid.
    pub net_premium: Num,
    /// Breakeven spots, ascending.
    pub breakevens: Vec<Num>,
    /// Greatest profit.
    pub max_profit: PayoffExtreme,
    /// Least profit.
    pub max_loss: PayoffExtreme,
    /// Payoff tails.
    pub topology: PayoffTopology,
}

/// One payoff-chart point.
#[derive(Debug, Clone, Copy, PartialEq)]
pub struct PayoffPoint {
    /// Terminal underlying price, points.
    pub spot: Num,
    /// Expiry profit at that price.
    pub pnl: Num,
}

/// Market context of a mark-to-model valuation.
#[derive(Debug, Clone, Copy, PartialEq)]
pub struct MarketInputs {
    /// Underlying spot, points.
    pub spot: Num,
    /// Continuously-compounded risk-free rate, decimal.
    pub rate: Num,
    /// Continuous dividend yield, decimal.
    pub div_yield: Num,
}

/// Aggregate greeks, natural units.
#[derive(Debug, Clone, Copy, PartialEq)]
pub struct AggregateGreeks {
    /// Value per spot point.
    pub delta: Num,
    /// Delta per spot point.
    pub gamma: Num,
    /// Value per year.
    pub theta: Num,
    /// Value per unit vol.
    pub vega: Num,
    /// Delta per unit vol.
    pub vanna: Num,
    /// Delta per year.
    pub charm: Num,
}

impl AggregateGreeks {
    /// No greeks at all.
    #[verifier::allow_in_spec]
    pub fn zero() -> AggregateGreeks
        returns
            (AggregateGreeks {
                delta: Num::of(ZERO),
                gamma: Num::of(ZERO),
                theta: Num::of(ZERO),
                vega: Num::of(ZERO),
                vanna: Num::of(ZERO),
                charm: Num::of(ZERO),
            }),
    {
        let z = Num::of(ZERO);
        AggregateGreeks { delta: z, gamma: z, theta: z, vega: z, vanna: z, charm: z }
    }

    /// The aggregate with one more contract, scaled.
    pub open spec fn plus_scaled(self, g: BsGreeks, scale: Num) -> AggregateGreeks {
        AggregateGreeks {
            delta: self.delta.fadd(g.delta.fmul(scale)),
            gamma: self.gamma.fadd(g.gamma.fmul(scale)),
            theta: self.theta.fadd(g.theta.fmul(scale)),
            vega: self.vega.fadd(g.vega.fmul(scale)),
            vanna: self.vanna.fadd(g.vanna.fmul(scale)),
            charm: self.charm.fadd(g.charm.fmul(scale)),
        }
    }

    /// Adds one contract, scaled.
    pub fn with_scaled(&self, g: &BsGreeks, scale: Num) -> (r: AggregateGreeks)
        ensures
            r == self.plus_scaled(*g, scale),
    {
        AggregateGreeks {
            delta: self.delta + g.delta * scale,
            gamma: self.gamma + g.gamma * scale,
            theta: self.theta + g.theta * scale,
            vega: self.vega + g.vega * scale,
            vanna: self.vanna + g.vanna * scale,
            charm: self.charm + g.charm * scale,
        }
    }
}

/// Mark-to-model value and aggregate greeks of a strategy.
#[derive(Debug, Clone, Copy, PartialEq)]
pub struct StrategyValue {
    /// Position mark.
    pub value: Num,
    /// Mark less the premium paid.
    pub unrealized_pnl: Num,
    /// Greeks per share times signed quantity.
    pub greeks: AggregateGreeks,
}

/// The slope label of a signed quantity.
pub open spec fn slope_label(q: int) -> TailSlope {
    if q > 0 {
        TailSlope::Rising
    } else if q < 0 {
        TailSlope::Falling
    } else {
        TailSlope::Flat
    }
}

/// Tail slope label from a signed net quantity.
pub fn slope_of(net_qty: i64) -> (r: TailSlope)
    ensures
        r == slope_label(net_qty as int),
{
    if net_qty > 0 {
        TailSlope::Rising
    } else if net_qty < 0 {
        TailSlope::Falling
    } else {
        TailSlope::Flat
    }
}

impl PayoffTopology {
    /// The tails of a strategy.
    pub open spec fn of_legs(legs: Seq<Leg>) -> PayoffTopology {
        let c = net_qty(legs, OptionRight::Call);
        let p = net_qty(legs, OptionRight::Put);
        PayoffTopology {
            left: slope_label(-p),
            right: slope_label(c),
            net_call_qty: c as i64,
            net_put_qty: p as i64,
            profit_unbounded: c > 0,
            loss_unbounded: c < 0,
        }
    }
}

pub open spec fn strikes_of(legs: Seq<Leg>) -> Seq<Num> {
    legs.map_values(|l: Leg| l.strike)
}

/// The kinks of the payoff: spot 0 and the distinct strikes, ascending.
pub open spec fn kinks_of(legs: Seq<Leg>) -> Seq<Num> {
    seq![Num::of(ZERO)] + sorting::deduped(sorting::sorted(strikes_of(legs)))
}

/// The profits at the kinks.
pub open spec fn kink_pnls(s: Strategy) -> Seq<Num> {
    kinks_of(s.legs@).map_values(|k: Num| s.pnl(k))
}

/// Zero crossing between two kinks of opposite profit.
pub open spec fn crossing(k0: Num, p0: Num, k1: Num, p1: Num) -> Num {
    let w = p0.fabs().fdiv(p0.fabs().fadd(p1.fabs()));
    k0.fadd(k1.fsub(k0).fmul(w))
}

/// Crossings up to kink `n`: a kink without profit, else the crossing on the way to it.
pub open spec fn crossings(kinks: Seq<Num>, pnls: Seq<Num>, n: nat) -> Seq<Num>
    decreases n,
{
    if n == 0 {
        Seq::empty()
    } else {
        let rest = crossings(kinks, pnls, (n - 1) as nat);
        let (k, p) = (kinks[n - 1], pnls[n - 1]);
        if p.feq(Num::of(ZERO)) {
            rest.push(k)
        } else if n >= 2 && pnls[n - 2].opposes(p) {
            rest.push(crossing(kinks[n - 2], pnls[n - 2], k, p))
        } else {
            rest
        }
    }
}

/// A signed 64-bit count as a number.
pub open spec fn count_num(q: int) -> Num {
    if q < 0 {
        Num::whole(true, (-q) as nat)
    } else {
        Num::whole(false, q as nat)
    }
}

/// The crossing on the right tail, if there is one.
pub open spec fn tail_crossing(last_kink: Num, last_pnl: Num, slope: Num) -> Seq<Num> {
    if last_pnl.opposes(slope) {
        seq![last_kink.fsub(last_pnl.fdiv(slope))]
    } else {
        Seq::empty()
    }
}

/// Two crossings are one: within the relative tolerance, at least of size 1.
pub open spec fn same_crossing(a: Num, b: Num) -> bool {
    a.fsub(b).fabs().fle(
        Num::of(BREAKEVEN_DEDUPE_REL_TOL).fmul(a.fabs().fmax(b.fabs()).fmax(Num::of(ONE))),
    )
}

/// Each crossing that is not the same as the one kept before it.
pub open spec fn merged(s: Seq<Num>) -> Seq<Num>
    decreases s.len(),
{
    if s.len() == 0 {
        s
    } else {
        let d = merged(s.drop_last());
        if d.len() > 0 && same_crossing(s.last(), d.last()) {
            d
        } else {
            d.push(s.last())
        }
    }
}

/// The breakevens of a strategy, ascending.
pub open spec fn breakevens_of(s: Strategy) -> Seq<Num> {
    let kinks = kinks_of(s.legs@);
    let pnls = kink_pnls(s);
    let slope = count_num(net_qty(s.legs@, OptionRight::Call)).fmul(s.multiplier);
    merged(
        sorting::sorted(
            crossings(kinks, pnls, kinks.len()) + tail_crossing(kinks.last(), pnls.last(), slope),
        ),
    )
}

/// The greatest of a sequence, from minus infinity.
pub open spec fn greatest(s: Seq<Num>) -> Num
    decreases s.len(),
{
    if s.len() == 0 {
        Num::of(NEG_INFINITY)
    } else {
        greatest(s.drop_last()).fmax(s.last())
    }
}

/// The least of a sequence, from infinity.
pub open spec fn least(s: Seq<Num>) -> Num
    decreases s.len(),
{
    if s.len() == 0 {
        Num::of(INFINITY)
    } else {
        least(s.drop_last()).fmin(s.last())
    }
}

impl PayoffProfile {
    /// The profile of a strategy.
    pub open spec fn is_profile_of(self, s: Strategy) -> bool {
        let pnls = kink_pnls(s);
        let calls = net_qty(s.legs@, OptionRight::Call);
        &&& self.net_premium == s.premium_paid()
        &&& self.breakevens@ == breakevens_of(s)
        &&& self.max_profit == (if calls > 0 {
            PayoffExtreme::Unbounded
        } else {
            PayoffExtreme::Bounded(greatest(pnls))
        })
        &&& self.max_loss == (if calls < 0 {
            PayoffExtreme::Unbounded
        } else {
            PayoffExtreme::Bounded(least(pnls))
        })
        &&& self.topology == PayoffTopology::of_legs(s.legs@)
    }
}

fn find_kinks(legs: &Vec<Leg>) -> (r: Vec<Num>)
    ensures
        r@ == kinks_of(legs@),
        r@.len() >= 1,
{
    let mut strikes: Vec<Num> = Vec::new();
    let mut i: usize = 0;
    while i < legs.len()
        invariant
            i <= legs@.len(),
            strikes@.len() == i,
            forall|k: int| 0 <= k < i ==> strikes@[k] == legs@[k].strike,
        decreases legs@.len() - i,
    {
        strikes.push(legs[i].strike);
        i = i + 1;
    }
    proof {
        assert(strikes@ =~= strikes_of(legs@));
    }
    let levels = sorting::dedup(&sorting::sort(&strikes));
    let mut kinks: Vec<Num> = Vec::new();
    kinks.push(Num::of(ZERO));
    let mut i: usize = 0;
    proof {
        assert(kinks@ =~= seq![Num::of(ZERO)] + levels@.take(0));
    }
    while i < levels.len()
        invariant
            i <= levels@.len(),
            kinks@ == seq![Num::of(ZERO)] + levels@.take(i as int),
        decreases levels@.len() - i,
    {
        kinks.push(levels[i]);
        i = i + 1;
        proof {
            assert(kinks@ =~= seq![Num::of(ZERO)] + levels@.take(i as int));
        }
    }
    proof {
        assert(levels@.take(i as int) =~= levels@);
    }
    kinks
}

fn find_crossings(kinks: &Vec<Num>, pnls: &Vec<Num>) -> (r: Vec<Num>)
    requires
        kinks@.len() == pnls@.len(),
    ensures
        r@ == crossings(kinks@, pnls@, kinks@.len()),
{
    let zero = Num::of(ZERO);
    let mut r: Vec<Num> = Vec::new();
    let mut i: usize = 0;
    proof {
        assert(r@ =~= crossings(kinks@, pnls@, 0));
    }
    while i < kinks.len()
        invariant
            i <= kinks@.len() == pnls@.len(),
            zero == Num::of(ZERO),
            r@ == crossings(kinks@, pnls@, i as nat),
        decreases kinks@.len() - i,
    {
        let (k, p) = (kinks[i], pnls[i]);
        if p == zero {
            r.push(k);
        } else if i >= 1 && pnls[i - 1].is_opposite(p) {
            let (k0, p0) = (kinks[i - 1], pnls[i - 1]);
            let w = p0.abs() / (p0.abs() + p.abs());
            r.push(k0 + (k - k0) * w);
        }
        i = i + 1;
    }
    r
}

fn merge_crossings(v: &Vec<Num>) -> (r: Vec<Num>)
    ensures
        r@ == merged(v@),
{
    let mut r: Vec<Num> = Vec::new();
    let mut i: usize = 0;
    proof {
        assert(v@.take(0) =~= Seq::<Num>::empty());
        assert(r@ =~= merged(v@.take(0)));
    }
    while i < v.len()
        invariant
            i <= v@.len(),
            r@ == merged(v@.take(i as int)),
        decreases v@.len() - i,
    {
        proof {
            assert(v@.take(i + 1).drop_last() =~= v@.take(i as int));
        }
        let a = v[i];
        let same = if r.len() > 0 {
            let b = r[r.len() - 1];
            (a - b).abs() <= Num::of(BREAKEVEN_DEDUPE_REL_TOL) * a.abs().max(b.abs()).max(
                Num::of(ONE),
            )
        } else {
            false
        };
        if !same {
            r.push(a);
        }
        i = i + 1;
    }
    proof {
        assert(v@.take(i as int) =~= v@);
    }
    r
}

fn find_extremes(v: &Vec<Num>) -> (r: (Num, Num))
    ensures
        r.0 == greatest(v@),
        r.1 == least(v@),
{
    let mut hi = Num::of(NEG_INFINITY);
    let mut lo = Num::of(INFINITY);
    let mut i: usize = 0;
    proof {
        assert(v@.take(0) =~= Seq::<Num>::empty());
    }
    while i < v.len()
        invariant
            i <= v@.len(),
            hi == greatest(v@.take(i as int)),
            lo == least(v@.take(i as int)),
        decreases v@.len() - i,
    {
        proof {
            assert(v@.take(i + 1).drop_last() =~= v@.take(i as int));
        }
        hi = hi.max(v[i]);
        lo = lo.min(v[i]);
        i = i + 1;
    }
    proof {
        assert(v@.take(i as int) =~= v@);
    }
    (hi, lo)
}

/// The expiry payoff profile: net premium, breakevens, extremes, tails.
pub fn payoff_profile(strategy: &Strategy) -> (r: Result<PayoffProfile, StrategyError>)
    requires
        strategy.legs@.len() <= MAX_LEGS,
    ensures
        match r {
            Ok(p) => strategy.problem() is None && p.is_profile_of(*strategy),
            Err(e) => strategy.problem() == Some(e),
        },
{
    match strategy.validate() {
        Ok(_) => {},
        Err(e) => return Err(e),
    }
    let kinks = find_kinks(&strategy.legs);
    let mut pnls: Vec<Num> = Vec::new();
    let mut i: usize = 0;
    while i < kinks.len()
        invariant
            i <= kinks@.len(),
            pnls@.len() == i,
            forall|k: int| 0 <= k < i ==> pnls@[k] == strategy.pnl(kinks@[k]),
        decreases kinks@.len() - i,
    {
        pnls.push(strategy.payoff_at(kinks[i]));
        i = i + 1;
    }
    proof {
        assert(pnls@ =~= kink_pnls(*strategy));
    }
    let net_call_qty: i64 = strategy.net_quantity(OptionRight::Call);
    let net_put_qty: i64 = strategy.net_quantity(OptionRight::Put);
    let topology = PayoffTopology {
        left: slope_of(-net_put_qty),
        right: slope_of(net_call_qty),
        net_call_qty,
        net_put_qty,
        profit_unbounded: net_call_qty > 0,
        loss_unbounded: net_call_qty < 0,
    };
    let mut raw = find_crossings(&kinks, &pnls);
    let ghost inner = raw@;
    let slope = Num::from_i64(net_call_qty) * strategy.multiplier;
    let last_kink = kinks[kinks.len() - 1];
    let last_pnl = pnls[pnls.len() - 1];
    if last_pnl.is_opposite(slope) {
        raw.push(last_kink - last_pnl / slope);
    }
    proof {
        assert(raw@ =~= inner + tail_crossing(last_kink, last_pnl, slope));
    }
    let breakevens = merge_crossings(&sorting::sort(&raw));
    let (max_kink, min_kink) = find_extremes(&pnls);
    let max_profit = if topology.profit_unbounded {
        PayoffExtreme::Unbounded
    } else {
        PayoffExtreme::Bounded(max_kink)
    };
    let max_loss = if topology.loss_unbounded {
        PayoffExtreme::Unbounded
    } else {
        PayoffExtreme::Bounded(min_kink)
    };
    Ok(
        PayoffProfile {
            net_premium: strategy.net_premium(),
            breakevens,
            max_profit,
            max_loss,
            topology,
        },
    )
}

/// The spot of chart point `i`.
pub open spec fn chart_spot(spot: Num, i: nat) -> Num {
    let lo = spot.fmul(Num::of(PAYOFF_CHART_LO_FRAC));
    let hi = spot.fmul(Num::of(PAYOFF_CHART_HI_FRAC));
    let step = hi.fsub(lo).fdiv(Num::whole(false, PAYOFF_CHART_STEPS as nat));
    lo.fadd(step.fmul(Num::whole(false, i)))
}

/// Evenly spaced payoff points from 85% to 115% of spot.
pub fn payoff_coordinates(strategy: &Strategy, spot: Num) -> (r: Result<
    Vec<PayoffPoint>,
    StrategyError,
>)
    ensures
        match r {
            Ok(points) => {
                &&& strategy.problem() is None
                &&& positive_finite(spot)
                &&& points@ == Seq::new(
                    (PAYOFF_CHART_STEPS + 1) as nat,
                    |i: int|
                        (PayoffPoint {
                            spot: chart_spot(spot, i as nat),
                            pnl: strategy.pnl(chart_spot(spot, i as nat)),
                        }),
                )
            },
            Err(e) => if strategy.problem() is Some {
                strategy.problem() == Some(e)
            } else {
                !positive_finite(spot) && e == StrategyError::Domain(
                    "spot must be positive and finite",
                )
            },
        },
{
    match strategy.validate() {
        Ok(_) => {},
        Err(e) => return Err(e),
    }
    if !is_positive_finite(spot) {
        return Err(StrategyError::Domain("spot must be positive and finite"));
    }
    let lo = spot * Num::of(PAYOFF_CHART_LO_FRAC);
    let hi = spot * Num::of(PAYOFF_CHART_HI_FRAC);
    let step = (hi - lo) / Num::from_u64(PAYOFF_CHART_STEPS as u64);
    let mut points: Vec<PayoffPoint> = Vec::new();
    let mut i: u32 = 0;
    while i <= PAYOFF_CHART_STEPS
        invariant
            i <= PAYOFF_CHART_STEPS + 1,
            lo == spot.fmul(Num::of(PAYOFF_CHART_LO_FRAC)),
            hi == spot.fmul(Num::of(PAYOFF_CHART_HI_FRAC)),
            step == hi.fsub(lo).fdiv(Num::whole(false, PAYOFF_CHART_STEPS as nat)),
            points@.len() == i,
            forall|k: int|
                0 <= k < i ==> points@[k] == (PayoffPoint {
                    spot: chart_spot(spot, k as nat),
                    pnl: strategy.pnl(chart_spot(spot, k as nat)),
                }),
        decreases PAYOFF_CHART_STEPS + 1 - i,
    {
        let s = lo + step * Num::from_u64(i as u64);
        points.push(PayoffPoint { spot: s, pnl: strategy.payoff_at(s) });
        i = i + 1;
    }
    proof {
        assert(points@ =~= Seq::new(
            (PAYOFF_CHART_STEPS + 1) as nat,
            |i: int|
                (PayoffPoint {
                    spot: chart_spot(spot, i as nat),
                    pnl: strategy.pnl(chart_spot(spot, i as nat)),
                }),
        ));
    }
    Ok(points)
}

/// The contract that the kernel prices for a leg.
#[verifier::allow_in_spec]
pub fn leg_inputs(leg: &Leg, vol: Num, market: &MarketInputs) -> BsInputs
    returns
        (BsInputs {
            spot: market.spot,
            strike: leg.strike,
            t_years: leg.expiry_t_years,
            vol,
            rate: market.rate,
            div_yield: market.div_yield,
        }),
{
    BsInputs {
        spot: market.spot,
        strike: leg.strike,
        t_years: leg.expiry_t_years,
        vol,
        rate: market.rate,
        div_yield: market.div_yield,
    }
}

/// Whether the first `n` legs can be priced.
pub open spec fn legs_priceable(legs: Seq<Leg>, vols: Seq<Num>, market: MarketInputs, n: nat) -> bool {
    forall|i: int|
        0 <= i < n ==> leg_inputs(&#[trigger] legs[i], vols[i], &market).in_domain()
}

/// Mark of the first `n` legs.
pub open spec fn mark_of(
    legs: Seq<Leg>,
    vols: Seq<Num>,
    market: MarketInputs,
    terms: Seq<BsTerms>,
    multiplier: Num,
    n: nat,
) -> Num
    decreases n,
{
    if n == 0 {
        Num::of(ZERO)
    } else {
        let l = legs[n - 1];
        let v = leg_inputs(&l, vols[n - 1], &market).value(l.right, terms[n - 1]);
        mark_of(legs, vols, market, terms, multiplier, (n - 1) as nat).fadd(
            v.fmul(qty_num(l.quantity)).fmul(multiplier),
        )
    }
}

/// Greeks of the first `n` legs, per share times signed quantity.
pub open spec fn greeks_of(
    legs: Seq<Leg>,
    vols: Seq<Num>,
    market: MarketInputs,
    terms: Seq<BsTerms>,
    n: nat,
) -> AggregateGreeks
    decreases n,
{
    if n == 0 {
        AggregateGreeks::zero()
    } else {
        let l = legs[n - 1];
        let g = BsGreeks::of_contract(
            leg_inputs(&l, vols[n - 1], &market),
            l.right,
            terms[n - 1],
        );
        greeks_of(legs, vols, market, terms, (n - 1) as nat).plus_scaled(g, qty_num(l.quantity))
    }
}

/// Mark-to-model value and greeks.
///
/// `vols` holds one implied vol per leg and `terms` the machine's terms of
/// each leg's contract (see `leg_inputs`).
pub fn strategy_value(
    strategy: &Strategy,
    vols: &Vec<Num>,
    market: &MarketInputs,
    terms: &Vec<BsTerms>,
) -> (r: Result<StrategyValue, StrategyError>)
    requires
        terms@.len() == strategy.legs@.len(),
    ensures
        match r {
            Ok(v) => {
                let n = strategy.legs@.len();
                &&& strategy.problem() is None
                &&& vols@.len() == n
                &&& legs_priceable(strategy.legs@, vols@, *market, n)
                &&& v.value == mark_of(
                    strategy.legs@,
                    vols@,
                    *market,
                    terms@,
                    strategy.multiplier,
                    n,
                )
                &&& v.unrealized_pnl == v.value.fsub(strategy.premium_paid())
                &&& v.greeks == greeks_of(strategy.legs@, vols@, *market, terms@, n)
            },
            Err(e) => if strategy.problem() is Some {
                strategy.problem() == Some(e)
            } else if vols@.len() != strategy.legs@.len() {
                e == (StrategyError::VolCountMismatch {
                    legs: strategy.legs@.len() as usize,
                    vols: vols@.len() as usize,
                })
            } else {
                &&& !legs_priceable(strategy.legs@, vols@, *market, strategy.legs@.len())
                &&& e == StrategyError::Quant(QuantError::Domain("BsInputs out of domain"))
            },
        },
{
    match strategy.validate() {
        Ok(_) => {},
        Err(e) => return Err(e),
    }
    if vols.len() != strategy.legs.len() {
        return Err(
            StrategyError::VolCountMismatch { legs: strategy.legs.len(), vols: vols.len() },
        );
    }
    let mut value = Num::of(ZERO);
    let mut agg = AggregateGreeks::zero();
    let mut i: usize = 0;
    while i < strategy.legs.len()
        invariant
            i <= strategy.legs@.len() == vols@.len(),
            terms@.len() == strategy.legs@.len(),
            strategy.problem() is None,
            legs_priceable(strategy.legs@, vols@, *market, i as nat),
            value == mark_of(
                strategy.legs@,
                vols@,
                *market,
                terms@,
                strategy.multiplier,
                i as nat,
            ),
            agg == greeks_of(strategy.legs@, vols@, *market, terms@, i as nat),
        decreases strategy.legs@.len() - i,
    {
        let leg = strategy.legs[i];
        let inputs = leg_inputs(&leg, vols[i], market);
        let price = match black_scholes::price(&inputs, leg.right, &terms[i]) {
            Ok(p) => p,
            Err(e) => {
                proof {
                    assert(!leg_inputs(
                        &strategy.legs@[i as int],
                        vols@[i as int],
                        market,
                    ).in_domain());
                }
                return Err(StrategyError::Quant(e));
            },
        };
        let g = match black_scholes::greeks(&inputs, leg.right, &terms[i]) {
            Ok(g) => g,
            Err(e) => return Err(StrategyError::Quant(e)),
        };
        let qty = qty_value(leg.quantity);
        value = value + price * qty * strategy.multiplier;
        agg = agg.with_scaled(&g, qty);
        i = i + 1;
    }
    Ok(
        StrategyValue { value, unrealized_pnl: value - strategy.net_premium(), greeks: agg },
    )
}

/// A bounded extreme bounds the profit at every kink, and is attained at one.
pub proof fn law_extremes_are_attained_bounds(pnls: Seq<Num>)
    requires
        pnls.len() > 0,
        forall|i: int| 0 <= i < pnls.len() ==> !(#[trigger] pnls[i]).nan(),
    ensures
        forall|i: int|
            0 <= i < pnls.len() ==> (#[trigger] pnls[i]).fle(greatest(pnls)) && least(pnls).fle(
                pnls[i],
            ),
        exists|i: int| 0 <= i < pnls.len() && (#[trigger] pnls[i]).feq(greatest(pnls)),
        exists|i: int| 0 <= i < pnls.len() && (#[trigger] pnls[i]).feq(least(pnls)),
    decreases pnls.len(),
{
    let d = pnls.drop_last();
    let x = pnls.last();
    assert(x == pnls[pnls.len() - 1]);
    if d.len() > 0 {
        assert forall|i: int| 0 <= i < d.len() implies !(#[trigger] d[i]).nan() by {
            assert(d[i] == pnls[i]);
        }
        law_extremes_are_attained_bounds(d);
        let a = choose|i: int| 0 <= i < d.len() && (#[trigger] d[i]).feq(greatest(d));
        let b = choose|i: int| 0 <= i < d.len() && (#[trigger] d[i]).feq(least(d));
        assert(pnls[a] == d[a] && pnls[b] == d[b]);
        assert forall|i: int| 0 <= i < pnls.len() implies (#[trigger] pnls[i]).fle(greatest(pnls))
            && least(pnls).fle(pnls[i]) by {
            if i < d.len() {
                assert(d[i] == pnls[i]);
                assert(d[i].fle(greatest(d)) && least(d).fle(d[i]));
            }
        }
        assert(pnls[a].feq(greatest(pnls)) || pnls[pnls.len() - 1].feq(greatest(pnls)));
        assert(pnls[b].feq(least(pnls)) || pnls[pnls.len() - 1].feq(least(pnls)));
    } else {
        assert(greatest(d) == Num::of(NEG_INFINITY) && least(d) == Num::of(INFINITY));
        assert(pnls[0].feq(greatest(pnls)) && pnls[0].feq(least(pnls)));
    }
}

/// Profit and loss are never both unbounded; a strategy without net calls has
/// both bounded and a flat right tail.
pub proof fn law_tails_agree_with_bounds(legs: Seq<Leg>)
    ensures
        ({
            let t = PayoffTopology::of_legs(legs);
            &&& !(t.profit_unbounded && t.loss_unbounded)
            &&& t.right is Rising <==> t.profit_unbounded
            &&& t.right is Falling <==> t.loss_unbounded
        }),
{
}

/// Merging crossings keeps their order.
proof fn lemma_merged_ascends(s: Seq<Num>)
    requires
        sorting::ascending(s),
    ensures
        sorting::ascending(merged(s)),
        s.len() > 0 ==> merged(s).len() > 0 && merged(s).last().rank() <= s.last().rank(),
    decreases s.len(),
{
    if s.len() > 0 {
        let (r, x) = (s.drop_last(), s.last());
        assert(forall|i: int| 0 <= i < r.len() ==> r[i] == s[i]);
        assert(s[s.len() - 1] == x);
        lemma_merged_ascends(r);
        let (c, d) = (merged(r), merged(s));
        if r.len() > 0 {
            assert(s[s.len() - 2].rank() <= s[s.len() - 1].rank());
            assert(c[c.len() - 1] == c.last());
        }
        if d != c {
            assert forall|i: int, j: int| 0 <= i <= j < d.len() implies d[i].rank()
                <= d[j].rank() by {
                if j == c.len() && i < j {
                    assert(c[i].rank() <= c[c.len() - 1].rank());
                }
            }
        }
    }
}

/// Breakevens ascend.
pub proof fn law_breakevens_ascend(s: Strategy)
    ensures
        sorting::ascending(breakevens_of(s)),
{
    let kinks = kinks_of(s.legs@);
    let pnls = kink_pnls(s);
    let slope = count_num(net_qty(s.legs@, OptionRight::Call)).fmul(s.multiplier);
    let found = crossings(kinks, pnls, kinks.len()) + tail_crossing(
        kinks.last(),
        pnls.last(),
        slope,
    );
    sorting::law_sorted_sorts(found);
    lemma_merged_ascends(sorting::sorted(found));
}

} // verus!
