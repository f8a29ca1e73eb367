//! The risk-neutral density that an option chain implies.
//!
//! By the identity of Breeden and Litzenberger the density of the terminal
//! price is the second strike derivative of the call price, compounded.  Vols
//! across strikes are fitted by a parabola in log moneyness, a dense grid of
//! calls is priced on it, second differences are floored at zero, smoothed and
//! normalized.  A chain that does not carry a density is an error; nothing is
//! made up in its place.
//!
//! The host machine solves for vols that are not quoted, and evaluates the
//! logarithms and exponentials of the fit and of the grid; each function here
//! names the points at which it does.

use crate::algebra;
use crate::arith;
use crate::black_scholes::{self, BsInputs, BsTerms, QuantError};
use crate::consts::{HALF, ONE, TWO, ZERO};
use crate::market::{OptionQuote, OptionRight};
use crate::num::Num;
use crate::sorting;
use crate::state::{BinaryState, Readout};
use crate::stats;
use crate::sums;
use vstd::arithmetic::power2::*;
use vstd::prelude::*;

verus! {

/// Fewest strikes with a vol that a density is fitted to.
pub const RND_MIN_CHAIN_SIZE: usize = 5;

/// Steps of the strike grid.
pub const RND_MESH_DENSITY: usize = 100;

/// Nodes of the strike grid.
pub const RND_NODES: usize = 101;

/// Half-window of the smoothing kernel, in nodes.
pub const RND_SMOOTH_HALF_WINDOW: usize = 10;

/// Determinant below which the smile is taken as flat (1e-12).
pub const RND_DET_EPS: u64 = 0x3D71_9799_812D_EA11;

/// Dividend yield of the density (0.0).
pub const RND_DIV_YIELD: u64 = 0x0000_0000_0000_0000;

/// Least vol of the smile (0.015).
pub const RND_IV_FLOOR_ABS: u64 = 0x3F8E_B851_EB85_1EB8;

/// Least vol of the smile, multiple of the base vol (0.25).
pub const RND_IV_FLOOR_REL: u64 = 0x3FD0_0000_0000_0000;

/// Greatest vol of the smile, at least (2.2).
pub const RND_IV_CAP_ABS: u64 = 0x4001_9999_9999_999A;

/// Greatest vol of the smile, multiple of the base vol (5.0).
pub const RND_IV_CAP_REL: u64 = 0x4014_0000_0000_0000;

/// Half-width of the grid, standard deviations (3.2).
pub const RND_GRID_SIGMAS: u64 = 0x4009_9999_9999_999A;

/// Lower bound of the grid, fraction of spot (0.4).
pub const RND_MIN_STRIKE_FRAC: u64 = 0x3FD9_9999_9999_999A;

/// Least strike bump of the second difference, points (0.5).
pub const RND_MIN_DK: u64 = 0x3FE0_0000_0000_0000;

/// Strike bump of the second difference, fraction of spot (0.0025).
pub const RND_DK_SPOT_FRAC: u64 = 0x3F64_7AE1_47AE_147B;

/// Smoothing bandwidth, grid steps (2.0).
pub const RND_SMOOTH_BW_STEPS: u64 = 0x4000_0000_0000_0000;

/// Factor of the smoothing exponent (-0.5).
pub const NEG_HALF: u64 = 0xBFE0_0000_0000_0000;

/// Kurtosis of a normal distribution (3.0).
pub const EXCESS_KURTOSIS_OFFSET: u64 = 0x4008_0000_0000_0000;

/// Excess kurtosis above which tails are fat (1.2).
pub const FAT_TAIL_KURTOSIS_THRESHOLD: u64 = 0x3FF3_3333_3333_3333;

/// Percentile level (0.05).
pub const P05: u64 = 0x3FA9_9999_9999_999A;

/// Percentile level (0.25).
pub const P25: u64 = 0x3FD0_0000_0000_0000;

/// Percentile level (0.5).
pub const P50: u64 = 0x3FE0_0000_0000_0000;

/// Percentile level (0.75).
pub const P75: u64 = 0x3FE8_0000_0000_0000;

/// Percentile level (0.95).
pub const P95: u64 = 0x3FEE_6666_6666_6666;

/// One node of a density curve.
#[derive(Debug, Clone, Copy, PartialEq)]
pub struct RndPoint {
    /// Terminal price, points.
    pub strike: Num,
    /// Density, per point.
    pub density: Num,
    /// Probability of a terminal price at most this one.
    pub cdf: Num,
}

/// Percentiles of a density, points.
#[derive(Debug, Clone, Copy, PartialEq)]
pub struct RndPercentiles {
    /// 5th percentile.
    pub p05: Num,
    /// 25th percentile.
    pub p25: Num,
    /// Median.
    pub p50: Num,
    /// 75th percentile.
    pub p75: Num,
    /// 95th percentile.
    pub p95: Num,
}

/// A density curve and its summary.
#[derive(Debug, PartialEq)]
pub struct RndCurve {
    /// Nodes, ascending in strike.
    pub points: Vec<RndPoint>,
    /// Percentiles.
    pub percentiles: RndPercentiles,
    /// Mean, points.
    pub mean: Num,
    /// Standard deviation, points.
    pub std_dev: Num,
    /// Third standardized moment.
    pub skewness: Num,
    /// Fourth standardized moment less that of a normal distribution.
    pub excess_kurtosis: Num,
    /// Fat tails: active when the excess kurtosis exceeds its threshold.
    pub fat_tail: Readout,
    /// Probability below spot.
    pub prob_below_spot: Num,
    /// Probability at or above spot.
    pub prob_above_spot: Num,
}

/// Finite and positive.
pub open spec fn usable(v: Num) -> bool {
    v.finite() && Num::of(ZERO).flt(v)
}

fn is_usable(v: Num) -> (r: bool)
    ensures
        r == usable(v),
{
    v.is_finite() && v > Num::of(ZERO)
}

/// The vol of a quote: the quoted one where it is usable, else the one that the
/// midpoint was solved for.
pub open spec fn vol_of(q: OptionQuote, solved: Option<Num>) -> Option<Num> {
    if q.iv is Some && usable(q.iv->0) {
        q.iv
    } else if q.midpoint() is None {
        None
    } else if solved is Some && usable(solved->0) {
        solved
    } else {
        None
    }
}

/// What a vol is to be solved for: the midpoint and the contract, for a quote
/// without a usable vol and with a two-sided market.
pub open spec fn search_of(quote: OptionQuote, spot: Num, t_years: Num, rate: Num) -> Option<
    (Num, BsInputs),
> {
    if quote.iv is Some && usable(quote.iv->0) {
        None
    } else if quote.midpoint() is None {
        None
    } else {
        Some(
            (
                quote.midpoint()->0,
                BsInputs {
                    spot,
                    strike: quote.strike,
                    t_years,
                    vol: Num::of(ZERO),
                    rate,
                    div_yield: Num::of(RND_DIV_YIELD),
                },
            ),
        )
    }
}

/// What the implied-vol search found for a quote, along the machine's terms.
pub open spec fn solution(
    quote: OptionQuote,
    spot: Num,
    t_years: Num,
    rate: Num,
    trace: Seq<BsTerms>,
) -> Option<Num> {
    match search_of(quote, spot, t_years, rate) {
        Some((mid, base)) => black_scholes::traced_vol(mid, base, quote.right, trace),
        None => None,
    }
}

/// What the implied-vol searches found for the quotes of a chain.
pub open spec fn solutions(
    quotes: Seq<OptionQuote>,
    spot: Num,
    t_years: Num,
    rate: Num,
    traces: Seq<Vec<BsTerms>>,
) -> Seq<Option<Num>> {
    Seq::new(quotes.len(), |i: int| solution(quotes[i], spot, t_years, rate, traces[i]@))
}

/// The vols that are solved for the quotes of a chain, from the machine's terms
/// along each search.
pub fn solved_vols(
    quotes: &Vec<OptionQuote>,
    spot: Num,
    t_years: Num,
    rate: Num,
    traces: &Vec<Vec<BsTerms>>,
) -> (r: Vec<Option<Num>>)
    requires
        traces@.len() == quotes@.len(),
    ensures
        r@ == solutions(quotes@, spot, t_years, rate, traces@),
{
    let mut out: Vec<Option<Num>> = Vec::new();
    let mut i: usize = 0;
    while i < quotes.len()
        invariant
            i <= quotes@.len() == traces@.len(),
            out@ == solutions(quotes@, spot, t_years, rate, traces@).take(i as int),
        decreases quotes@.len() - i,
    {
        let q = quotes[i];
        out.push(
            match vol_wanted(&q, spot, t_years, rate) {
                Some((mid, base)) => black_scholes::follow_search(mid, &base, q.right, &traces[i]),
                None => None,
            },
        );
        proof {
            let all = solutions(quotes@, spot, t_years, rate, traces@);
            assert(out@ =~= all.take(i + 1));
        }
        i = i + 1;
    }
    proof {
        assert(out@ =~= solutions(quotes@, spot, t_years, rate, traces@));
    }
    out
}

/// What a vol is to be solved for: the midpoint and the contract, for a quote
/// without a usable vol and with a two-sided market.
pub fn vol_wanted(quote: &OptionQuote, spot: Num, t_years: Num, rate: Num) -> (r: Option<
    (Num, BsInputs),
>)
    ensures
        r == search_of(*quote, spot, t_years, rate),
{
    if let Some(iv) = quote.iv {
        if is_usable(iv) {
            return None;
        }
    }
    match quote.mid() {
        None => None,
        Some(mid) => Some(
            (
                mid,
                BsInputs {
                    spot,
                    strike: quote.strike,
                    t_years,
                    vol: Num::of(ZERO),
                    rate,
                    div_yield: Num::of(RND_DIV_YIELD),
                },
            ),
        ),
    }
}

/// The vol of a quote: the quoted one where it is usable, else the solved one.
///
/// `solved` is what the implied-vol search found for `vol_wanted` (see `solved_vols`).
pub fn quote_implied_vol(quote: &OptionQuote, solved: Option<Num>) -> (r: Option<Num>)
    ensures
        r == vol_of(*quote, solved),
{
    if let Some(iv) = quote.iv {
        if is_usable(iv) {
            return Some(iv);
        }
    }
    if quote.mid().is_none() {
        return None;
    }
    match solved {
        Some(v) => if is_usable(v) {
            Some(v)
        } else {
            None
        },
        None => None,
    }
}

/// A strike and its vol.
#[derive(Debug, Clone, Copy, PartialEq)]
pub struct SmilePoint {
    /// Strike, points.
    pub strike: Num,
    /// Implied vol.
    pub iv: Num,
}

/// A quote with a vol.
#[derive(Debug, Clone, Copy, PartialEq)]
pub struct VolRow {
    /// Strike, points.
    pub strike: Num,
    /// Whether the quote is a call.
    pub is_call: bool,
    /// Implied vol.
    pub iv: Num,
}

/// The quotes with a vol and a usable strike, in chain order.
pub open spec fn vol_rows(quotes: Seq<OptionQuote>, solved: Seq<Option<Num>>, n: nat) -> Seq<VolRow>
    decreases n,
{
    if n == 0 {
        Seq::empty()
    } else {
        let rest = vol_rows(quotes, solved, (n - 1) as nat);
        let q = quotes[n - 1];
        match vol_of(q, solved[n - 1]) {
            Some(iv) => if usable(q.strike) {
                rest.push(VolRow { strike: q.strike, is_call: q.right is Call, iv })
            } else {
                rest
            },
            None => rest,
        }
    }
}

/// One point per strike; a call's vol takes the place of one before it.
pub open spec fn merged(rows: Seq<VolRow>) -> Seq<SmilePoint>
    decreases rows.len(),
{
    if rows.len() == 0 {
        Seq::empty()
    } else {
        let d = merged(rows.drop_last());
        let row = rows.last();
        if d.len() > 0 && d.last().strike.feq(row.strike) {
            if row.is_call {
                d.drop_last().push(SmilePoint { strike: d.last().strike, iv: row.iv })
            } else {
                d
            }
        } else {
            d.push(SmilePoint { strike: row.strike, iv: row.iv })
        }
    }
}

/// Order of vol rows: by strike.
pub open spec fn row_before(a: VolRow, b: VolRow) -> bool {
    a.strike.rank() < b.strike.rank()
}

/// The smile of a chain, ascending in strike.
pub open spec fn smile_of(quotes: Seq<OptionQuote>, solved: Seq<Option<Num>>) -> Seq<SmilePoint> {
    merged(
        sorting::stable_sorted(
            vol_rows(quotes, solved, quotes.len()),
            |a: VolRow, b: VolRow| row_before(a, b),
        ),
    )
}

/// The smile of a chain: one vol per strike, calls before puts.
///
/// `solved` holds, for each quote, what the implied-vol search found (see `solved_vols`).
pub fn smile_points(quotes: &Vec<OptionQuote>, solved: &Vec<Option<Num>>) -> (r: Vec<SmilePoint>)
    requires
        solved@.len() == quotes@.len(),
    ensures
        r@ == smile_of(quotes@, solved@),
{
    let mut raw: Vec<VolRow> = Vec::new();
    let mut i: usize = 0;
    while i < quotes.len()
        invariant
            i <= quotes@.len() == solved@.len(),
            raw@ == vol_rows(quotes@, solved@, i as nat),
        decreases quotes@.len() - i,
    {
        let q = quotes[i];
        if let Some(iv) = quote_implied_vol(&q, solved[i]) {
            if is_usable(q.strike) {
                let is_call = match q.right {
                    OptionRight::Call => true,
                    OptionRight::Put => false,
                };
                raw.push(VolRow { strike: q.strike, is_call, iv });
            }
        }
        i = i + 1;
    }
    let ghost order = |a: VolRow, b: VolRow| row_before(a, b);
    let less = |a: VolRow, b: VolRow| -> (c: bool)
        ensures
            c == row_before(a, b),
        { a.strike.before(b.strike) };
    let rows = sorting::sort_stable(&raw, less, Ghost(order));
    let mut smile: Vec<SmilePoint> = Vec::new();
    let mut i: usize = 0;
    proof {
        assert(rows@.take(0) =~= Seq::<VolRow>::empty());
        assert(smile@ =~= merged(rows@.take(0)));
    }
    while i < rows.len()
        invariant
            i <= rows@.len(),
            smile@ == merged(rows@.take(i as int)),
        decreases rows@.len() - i,
    {
        proof {
            assert(rows@.take(i + 1).drop_last() =~= rows@.take(i as int));
        }
        let row = rows[i];
        let n: usize = smile.len();
        if n > 0 && smile[n - 1].strike == row.strike {
            if row.is_call {
                let ghost was = smile@;
                let strike = smile[n - 1].strike;
                smile.set(n - 1, SmilePoint { strike, iv: row.iv });
                proof {
                    assert(smile@ =~= was.drop_last().push(SmilePoint { strike, iv: row.iv }));
                }
            }
        } else {
            smile.push(SmilePoint { strike: row.strike, iv: row.iv });
        }
        i = i + 1;
    }
    proof {
        assert(rows@.take(i as int) =~= rows@);
    }
    smile
}

/// The point nearest to spot among the first `n`, the first of equals.
pub open spec fn nearest_index(smile: Seq<SmilePoint>, spot: Num, n: nat) -> int
    decreases n,
{
    if n <= 1 {
        0
    } else {
        let k = nearest_index(smile, spot, (n - 1) as nat);
        if smile[n - 1].strike.fsub(spot).fabs().rank() < smile[k].strike.fsub(spot).fabs().rank() {
            n - 1
        } else {
            k
        }
    }
}

fn base_vol(smile: &Vec<SmilePoint>, spot: Num) -> (r: Num)
    requires
        smile@.len() > 0,
    ensures
        r == smile@[nearest_index(smile@, spot, smile@.len())].iv,
{
    let mut k: usize = 0;
    let mut i: usize = 1;
    while i < smile.len()
        invariant
            1 <= i <= smile@.len(),
            k < i,
            k == nearest_index(smile@, spot, i as nat),
        decreases smile@.len() - i,
    {
        if (smile[i].strike - spot).abs().before((smile[k].strike - spot).abs()) {
            k = i;
        }
        i = i + 1;
    }
    smile[k].iv
}

/// Sums of the normal equations of the smile.
#[derive(Debug, Clone, Copy, PartialEq)]
pub struct SmileSums {
    /// Sum of x.
    pub x: Num,
    /// Sum of x squared.
    pub x2: Num,
    /// Sum of x cubed.
    pub x3: Num,
    /// Sum of x to the fourth.
    pub x4: Num,
    /// Sum of y.
    pub y: Num,
    /// Sum of x y.
    pub xy: Num,
    /// Sum of x squared y.
    pub x2y: Num,
}

impl SmileSums {
    /// Sums of no points.
    pub open spec fn empty() -> SmileSums {
        SmileSums {
            x: Num::of(ZERO),
            x2: Num::of(ZERO),
            x3: Num::of(ZERO),
            x4: Num::of(ZERO),
            y: Num::of(ZERO),
            xy: Num::of(ZERO),
            x2y: Num::of(ZERO),
        }
    }

    /// Sums with one more point.
    pub open spec fn plus(self, x: Num, iv: Num) -> SmileSums {
        let x2 = x.fmul(x);
        SmileSums {
            x: self.x.fadd(x),
            x2: self.x2.fadd(x2),
            x3: self.x3.fadd(x2.fmul(x)),
            x4: self.x4.fadd(x2.fmul(x2)),
            y: self.y.fadd(iv),
            xy: self.xy.fadd(x.fmul(iv)),
            x2y: self.x2y.fadd(x2.fmul(iv)),
        }
    }

    /// Sums of the first `n` points, with the logarithms of their moneyness.
    pub open spec fn of_points(smile: Seq<SmilePoint>, logs: Seq<Num>, n: nat) -> SmileSums
        decreases n,
    {
        if n == 0 {
            SmileSums::empty()
        } else {
            SmileSums::of_points(smile, logs, (n - 1) as nat).plus(logs[n - 1], smile[n - 1].iv)
        }
    }
}

/// Determinant of a matrix by its rows.
pub open spec fn det3(
    a: (Num, Num, Num),
    b: (Num, Num, Num),
    c: (Num, Num, Num),
) -> Num {
    a.0.fmul(b.1.fmul(c.2).fsub(b.2.fmul(c.1))).fsub(
        a.1.fmul(b.0.fmul(c.2).fsub(b.2.fmul(c.0))),
    ).fadd(a.2.fmul(b.0.fmul(c.1).fsub(b.1.fmul(c.0))))
}

fn det3x3(a: (Num, Num, Num), b: (Num, Num, Num), c: (Num, Num, Num)) -> (r: Num)
    ensures
        r == det3(a, b, c),
{
    a.0 * (b.1 * c.2 - b.2 * c.1) - a.1 * (b.0 * c.2 - b.2 * c.0) + a.2 * (b.0 * c.1 - b.1 * c.0)
}

/// Coefficients of the smile, in log moneyness.
#[derive(Debug, Clone, Copy, PartialEq)]
pub struct SmileFit {
    /// Vol at the strike nearest to spot.
    pub iv_base: Num,
    /// Constant.
    pub a: Num,
    /// Linear coefficient.
    pub b: Num,
    /// Quadratic coefficient.
    pub c: Num,
}

impl SmileFit {
    /// Least squares by Cramer's rule; flat where the equations are singular.
    pub open spec fn of_sums(s: SmileSums, n: Num, iv_base: Num) -> SmileFit {
        let det = det3((n, s.x, s.x2), (s.x, s.x2, s.x3), (s.x2, s.x3, s.x4));
        if det.fabs().fle(Num::of(RND_DET_EPS)) {
            SmileFit { iv_base, a: iv_base, b: Num::of(ZERO), c: Num::of(ZERO) }
        } else {
            SmileFit {
                iv_base,
                a: det3((s.y, s.x, s.x2), (s.xy, s.x2, s.x3), (s.x2y, s.x3, s.x4)).fdiv(det),
                b: det3((n, s.y, s.x2), (s.x, s.xy, s.x3), (s.x2, s.x2y, s.x4)).fdiv(det),
                c: det3((n, s.x, s.y), (s.x, s.x2, s.xy), (s.x2, s.x3, s.x2y)).fdiv(det),
            }
        }
    }

    /// The fit of a smile.
    pub open spec fn of_smile(smile: Seq<SmilePoint>, logs: Seq<Num>, iv_base: Num) -> SmileFit {
        SmileFit::of_sums(
            SmileSums::of_points(smile, logs, smile.len()),
            Num::whole(false, smile.len()),
            iv_base,
        )
    }

    /// Least vol.
    pub open spec fn floor(self) -> Num {
        Num::of(RND_IV_FLOOR_ABS).fmax(Num::of(RND_IV_FLOOR_REL).fmul(self.iv_base))
    }

    /// Greatest vol.
    pub open spec fn cap(self) -> Num {
        Num::of(RND_IV_CAP_ABS).fmax(Num::of(RND_IV_CAP_REL).fmul(self.iv_base))
    }

    /// The vol at log moneyness `x`, moved into the band round the base vol.
    pub open spec fn vol(self, x: Num) -> Num {
        self.a.fadd(self.b.fmul(x)).fadd(self.c.fmul(x).fmul(x)).fclamp(self.floor(), self.cap())
    }

    /// The vol at log moneyness `x`, moved into the band round the base vol.
    pub fn vol_at(&self, x: Num) -> (r: Num)
        requires
            usable(self.iv_base),
        ensures
            r == self.vol(x),
    {
        let lo = Num::of(RND_IV_FLOOR_ABS).max(Num::of(RND_IV_FLOOR_REL) * self.iv_base);
        let hi = Num::of(RND_IV_CAP_ABS).max(Num::of(RND_IV_CAP_REL) * self.iv_base);
        proof {
            law_vol_band_is_ordered(*self);
        }
        (self.a + self.b * x + self.c * x * x).clamp(lo, hi)
    }
}

/// The band of vols round a usable base vol is never upside down.
pub proof fn law_vol_band_is_ordered(fit: SmileFit)
    requires
        usable(fit.iv_base),
    ensures
        fit.floor().fle(fit.cap()),
{
    let (lo, hi) = (Num::of(RND_IV_FLOOR_REL), Num::of(RND_IV_CAP_REL));
    algebra::lemma_mul_is_number(lo, fit.iv_base);
    algebra::lemma_mul_is_number(hi, fit.iv_base);
    algebra::law_mul_monotone(lo, hi, fit.iv_base);
}

/// Fits a parabola to a smile.  `logs` holds the machine's logarithm of each
/// strike over spot.
pub fn fit_smile(smile: &Vec<SmilePoint>, logs: &Vec<Num>, iv_base: Num) -> (r: SmileFit)
    requires
        logs@.len() == smile@.len(),
    ensures
        r == SmileFit::of_smile(smile@, logs@, iv_base),
{
    let zero = Num::of(ZERO);
    let mut s = SmileSums { x: zero, x2: zero, x3: zero, x4: zero, y: zero, xy: zero, x2y: zero };
    let mut i: usize = 0;
    while i < smile.len()
        invariant
            i <= smile@.len() == logs@.len(),
            s == SmileSums::of_points(smile@, logs@, i as nat),
        decreases smile@.len() - i,
    {
        let x = logs[i];
        let iv = smile[i].iv;
        let x2 = x * x;
        s = SmileSums {
            x: s.x + x,
            x2: s.x2 + x2,
            x3: s.x3 + x2 * x,
            x4: s.x4 + x2 * x2,
            y: s.y + iv,
            xy: s.xy + x * iv,
            x2y: s.x2y + x2 * iv,
        };
        i = i + 1;
    }
    let n = Num::from_u64(smile.len() as u64);
    let det = det3x3((n, s.x, s.x2), (s.x, s.x2, s.x3), (s.x2, s.x3, s.x4));
    if det.abs() <= Num::of(RND_DET_EPS) {
        return SmileFit { iv_base, a: iv_base, b: zero, c: zero };
    }
    SmileFit {
        iv_base,
        a: det3x3((s.y, s.x, s.x2), (s.xy, s.x2, s.x3), (s.x2y, s.x3, s.x4)) / det,
        b: det3x3((n, s.y, s.x2), (s.x, s.xy, s.x3), (s.x2, s.x2y, s.x4)) / det,
        c: det3x3((n, s.x, s.y), (s.x, s.x2, s.xy), (s.x2, s.x3, s.x2y)) / det,
    }
}

/// The strike grid.
#[derive(Debug, Clone, Copy, PartialEq)]
pub struct RndGrid {
    /// First strike, points.
    pub min_strike: Num,
    /// Distance of two nodes, points.
    pub step_k: Num,
    /// Bump of the second difference, points.
    pub d_k: Num,
}

impl RndGrid {
    /// First strike of the grid.
    pub open spec fn low(spot: Num, iv_base: Num, t_years: Num) -> Num {
        let std_model = spot.fmul(iv_base).fmul(t_years.fsqrt());
        Num::of(RND_MIN_STRIKE_FRAC).fmul(spot).fmax(
            spot.fsub(Num::of(RND_GRID_SIGMAS).fmul(std_model)),
        )
    }

    /// Last strike of the grid.
    pub open spec fn high(spot: Num, iv_base: Num, t_years: Num) -> Num {
        let std_model = spot.fmul(iv_base).fmul(t_years.fsqrt());
        spot.fadd(Num::of(RND_GRID_SIGMAS).fmul(std_model))
    }

    /// Strike bump.
    pub open spec fn bump(spot: Num) -> Num {
        Num::of(RND_MIN_DK).fmax(Num::of(RND_DK_SPOT_FRAC).fmul(spot))
    }

    /// The grid round spot.
    pub open spec fn around(spot: Num, iv_base: Num, t_years: Num) -> RndGrid {
        let lo = RndGrid::low(spot, iv_base, t_years);
        RndGrid {
            min_strike: lo,
            step_k: RndGrid::high(spot, iv_base, t_years).fsub(lo).fdiv(
                Num::whole(false, RND_MESH_DENSITY as nat),
            ),
            d_k: RndGrid::bump(spot),
        }
    }

    /// Strike of node `i`.
    pub open spec fn node(self, i: nat) -> Num {
        self.min_strike.fadd(Num::whole(false, i).fmul(self.step_k))
    }

    /// Strike of node `i`.
    pub fn strike(&self, i: usize) -> (r: Num)
        ensures
            r == self.node(i as nat),
    {
        self.min_strike + Num::from_u64(i as u64) * self.step_k
    }

    /// The strikes of the second difference at node `i`: above, at, below.
    pub fn stencil(&self, i: usize) -> (r: (Num, Num, Num))
        ensures
            r.0 == self.node(i as nat).fadd(self.d_k),
            r.1 == self.node(i as nat),
            r.2 == self.node(i as nat).fsub(self.d_k),
    {
        let k = self.strike(i);
        (k + self.d_k, k, k - self.d_k)
    }
}

/// A fitted smile and its grid.
#[derive(Debug, Clone, Copy, PartialEq)]
pub struct RndSetup {
    /// Underlying spot, points.
    pub spot: Num,
    /// Tenor, years.
    pub t_years: Num,
    /// Continuously-compounded rate, decimal.
    pub rate: Num,
    /// The smile.
    pub fit: SmileFit,
    /// The grid.
    pub grid: RndGrid,
}

/// What keeps a chain from carrying a density, up to the grid.
pub open spec fn setup_problem(smile: Seq<SmilePoint>, spot: Num, t_years: Num, rate: Num) -> Option<
    QuantError,
> {
    let iv_base = smile[nearest_index(smile, spot, smile.len())].iv;
    let (lo, hi) = (RndGrid::low(spot, iv_base, t_years), RndGrid::high(spot, iv_base, t_years));
    if !usable(spot) {
        Some(QuantError::Domain("RND: spot must be finite and positive"))
    } else if !usable(t_years) {
        Some(QuantError::Domain("RND: tenor must be finite and positive"))
    } else if !rate.finite() {
        Some(QuantError::Domain("RND: rate must be finite"))
    } else if smile.len() < RND_MIN_CHAIN_SIZE {
        Some(
            QuantError::InsufficientData { needed: RND_MIN_CHAIN_SIZE, got: smile.len() as usize },
        )
    } else if !usable(iv_base) {
        Some(QuantError::Domain("RND: degenerate base volatility"))
    } else if hi.fle(lo) {
        Some(QuantError::Domain("RND: degenerate strike grid"))
    } else if lo.fsub(RndGrid::bump(spot)).fle(Num::of(ZERO)) {
        Some(QuantError::Domain("RND: grid too narrow for second-difference stencil"))
    } else {
        None
    }
}

impl RndSetup {
    /// The setup of a smile.
    pub open spec fn of_smile(
        smile: Seq<SmilePoint>,
        logs: Seq<Num>,
        spot: Num,
        t_years: Num,
        rate: Num,
    ) -> RndSetup {
        let iv_base = smile[nearest_index(smile, spot, smile.len())].iv;
        RndSetup {
            spot,
            t_years,
            rate,
            fit: SmileFit::of_smile(smile, logs, iv_base),
            grid: RndGrid::around(spot, iv_base, t_years),
        }
    }

    /// The call at a strike whose log moneyness is `log`.
    pub open spec fn call(self, k: Num, log: Num) -> BsInputs {
        BsInputs {
            spot: self.spot,
            strike: k,
            t_years: self.t_years,
            vol: self.fit.vol(log),
            rate: self.rate,
            div_yield: Num::of(RND_DIV_YIELD),
        }
    }

    /// The call that the kernel prices at a strike; `log` is the machine's
    /// logarithm of the strike over spot.
    pub fn call_inputs(&self, k: Num, log: Num) -> (r: BsInputs)
        requires
            usable(self.fit.iv_base),
        ensures
            r == self.call(k, log),
    {
        BsInputs {
            spot: self.spot,
            strike: k,
            t_years: self.t_years,
            vol: self.fit.vol_at(log),
            rate: self.rate,
            div_yield: Num::of(RND_DIV_YIELD),
        }
    }
}

/// Fits the smile of a chain and lays out the grid.
///
/// `smile_logs` holds the machine's logarithm of each strike of `smile` over spot.
pub fn rnd_setup(
    smile: &Vec<SmilePoint>,
    smile_logs: &Vec<Num>,
    spot: Num,
    t_years: Num,
    rate: Num,
) -> (r: Result<RndSetup, QuantError>)
    requires
        smile_logs@.len() == smile@.len(),
    ensures
        match r {
            Ok(s) => {
                &&& setup_problem(smile@, spot, t_years, rate) is None
                &&& s == RndSetup::of_smile(smile@, smile_logs@, spot, t_years, rate)
                &&& usable(s.fit.iv_base)
            },
            Err(e) => setup_problem(smile@, spot, t_years, rate) == Some(e),
        },
{
    if !is_usable(spot) {
        return Err(QuantError::Domain("RND: spot must be finite and positive"));
    }
    if !is_usable(t_years) {
        return Err(QuantError::Domain("RND: tenor must be finite and positive"));
    }
    if !rate.is_finite() {
        return Err(QuantError::Domain("RND: rate must be finite"));
    }
    if smile.len() < RND_MIN_CHAIN_SIZE {
        return Err(
            QuantError::InsufficientData { needed: RND_MIN_CHAIN_SIZE, got: smile.len() },
        );
    }
    let iv_base = base_vol(smile, spot);
    if !is_usable(iv_base) {
        return Err(QuantError::Domain("RND: degenerate base volatility"));
    }
    let fit = fit_smile(smile, smile_logs, iv_base);
    let std_model = spot * iv_base * t_years.sqrt();
    let min_strike = (Num::of(RND_MIN_STRIKE_FRAC) * spot).max(
        spot - Num::of(RND_GRID_SIGMAS) * std_model,
    );
    let max_strike = spot + Num::of(RND_GRID_SIGMAS) * std_model;
    if max_strike <= min_strike {
        return Err(QuantError::Domain("RND: degenerate strike grid"));
    }
    let step_k = (max_strike - min_strike) / Num::from_u64(RND_MESH_DENSITY as u64);
    let d_k = Num::of(RND_MIN_DK).max(Num::of(RND_DK_SPOT_FRAC) * spot);
    if min_strike - d_k <= Num::of(ZERO) {
        return Err(QuantError::Domain("RND: grid too narrow for second-difference stencil"));
    }
    Ok(RndSetup { spot, t_years, rate, fit, grid: RndGrid { min_strike, step_k, d_k } })
}

/// What the machine evaluates at a strike.
#[derive(Debug, Clone, Copy, PartialEq)]
pub struct StrikeTerms {
    /// Logarithm of the strike over spot.
    pub log: Num,
    /// Terms of the call at the strike (see `RndSetup::call_inputs`).
    pub call: BsTerms,
}

/// What the machine evaluates at a node.
#[derive(Debug, Clone, Copy, PartialEq)]
pub struct NodeTerms {
    /// At the strike above.
    pub up: StrikeTerms,
    /// At the node.
    pub at: StrikeTerms,
    /// At the strike below.
    pub down: StrikeTerms,
}

impl RndSetup {
    /// Whether the three calls of node `i` can be priced.
    pub open spec fn node_priceable(self, i: nat, t: NodeTerms) -> bool {
        let k = self.grid.node(i);
        &&& self.call(k.fadd(self.grid.d_k), t.up.log).in_domain()
        &&& self.call(k, t.at.log).in_domain()
        &&& self.call(k.fsub(self.grid.d_k), t.down.log).in_domain()
    }

    /// The second difference at node `i`, compounded and floored at zero.
    pub open spec fn raw_density(self, i: nat, t: NodeTerms, discount: Num) -> Num {
        let k = self.grid.node(i);
        let up = self.call(k.fadd(self.grid.d_k), t.up.log).value(OptionRight::Call, t.up.call);
        let at = self.call(k, t.at.log).value(OptionRight::Call, t.at.call);
        let down = self.call(k.fsub(self.grid.d_k), t.down.log).value(
            OptionRight::Call,
            t.down.call,
        );
        let second = up.fsub(Num::of(TWO).fmul(at)).fadd(down);
        discount.fmul(second).fdiv(self.grid.d_k.fmul(self.grid.d_k)).fmax(Num::of(ZERO))
    }

    fn node_density(&self, i: usize, t: &NodeTerms, discount: Num) -> (r: Result<Num, QuantError>)
        requires
            usable(self.fit.iv_base),
        ensures
            match r {
                Ok(d) => {
                    &&& self.node_priceable(i as nat, *t)
                    &&& d == self.raw_density(i as nat, *t, discount)
                },
                Err(e) => {
                    &&& !self.node_priceable(i as nat, *t)
                    &&& e == QuantError::Domain("BsInputs out of domain")
                },
            },
    {
        let (k_up, k, k_down) = self.grid.stencil(i);
        let up = match black_scholes::price(
            &self.call_inputs(k_up, t.up.log),
            OptionRight::Call,
            &t.up.call,
        ) {
            Ok(p) => p,
            Err(e) => return Err(e),
        };
        let at = match black_scholes::price(
            &self.call_inputs(k, t.at.log),
            OptionRight::Call,
            &t.at.call,
        ) {
            Ok(p) => p,
            Err(e) => return Err(e),
        };
        let down = match black_scholes::price(
            &self.call_inputs(k_down, t.down.log),
            OptionRight::Call,
            &t.down.call,
        ) {
            Ok(p) => p,
            Err(e) => return Err(e),
        };
        let second = up - Num::of(TWO) * at + down;
        Ok((discount * second / (self.grid.d_k * self.grid.d_k)).max(Num::of(ZERO)))
    }
}

/// The exponent of the compounding factor.
pub fn discount_exponent(t_years: Num, rate: Num) -> (r: Num)
    ensures
        r == rate.fmul(t_years),
{
    rate * t_years
}

/// The exponent of the smoothing weight of nodes `offset` apart.
pub fn weight_exponent(offset: usize) -> (r: Num)
    ensures
        r == weight_arg(offset as nat),
{
    let u = Num::from_u64(offset as u64) / Num::of(RND_SMOOTH_BW_STEPS);
    Num::of(NEG_HALF) * u * u
}

/// The exponent of the smoothing weight of nodes `offset` apart.
pub open spec fn weight_arg(offset: nat) -> Num {
    let u = Num::whole(false, offset).fdiv(Num::of(RND_SMOOTH_BW_STEPS));
    Num::of(NEG_HALF).fmul(u).fmul(u)
}

/// Distance of two nodes.
pub open spec fn apart(i: nat, j: nat) -> int {
    if i < j {
        j - i
    } else {
        i - j
    }
}

/// First node of the smoothing window.
pub open spec fn window_lo(i: nat) -> nat {
    if i < RND_SMOOTH_HALF_WINDOW {
        0
    } else {
        (i - RND_SMOOTH_HALF_WINDOW) as nat
    }
}

/// End of the smoothing window.
pub open spec fn window_end(i: nat) -> nat {
    if i + RND_SMOOTH_HALF_WINDOW < RND_NODES - 1 {
        (i + RND_SMOOTH_HALF_WINDOW + 1) as nat
    } else {
        RND_NODES as nat
    }
}

/// Weighted sum of the window up to `end`, and the sum of its weights.
pub open spec fn window_sums(raw: Seq<Num>, weights: Seq<Num>, i: nat, end: nat) -> (Num, Num)
    decreases end,
{
    if end <= window_lo(i) {
        (Num::of(ZERO), Num::of(ZERO))
    } else {
        let (num, den) = window_sums(raw, weights, i, (end - 1) as nat);
        let w = weights[apart(i, (end - 1) as nat)];
        (num.fadd(w.fmul(raw[end - 1])), den.fadd(w))
    }
}

/// The smoothed density at node `i`.
pub open spec fn smoothed(raw: Seq<Num>, weights: Seq<Num>, i: nat) -> Num {
    let (num, den) = window_sums(raw, weights, i, window_end(i));
    if Num::of(ZERO).flt(den) {
        num.fdiv(den)
    } else {
        Num::of(ZERO)
    }
}

fn smooth(raw: &Vec<Num>, weights: &Vec<Num>, i: usize) -> (r: Num)
    requires
        raw@.len() == RND_NODES,
        weights@.len() == RND_SMOOTH_HALF_WINDOW + 1,
        i < RND_NODES,
    ensures
        r == smoothed(raw@, weights@, i as nat),
{
    let lo: usize = if i < RND_SMOOTH_HALF_WINDOW {
        0
    } else {
        i - RND_SMOOTH_HALF_WINDOW
    };
    let end: usize = if i + RND_SMOOTH_HALF_WINDOW < RND_NODES - 1 {
        i + RND_SMOOTH_HALF_WINDOW + 1
    } else {
        RND_NODES
    };
    let mut num = Num::of(ZERO);
    let mut den = Num::of(ZERO);
    let mut j: usize = lo;
    while j < end
        invariant
            raw@.len() == RND_NODES,
            weights@.len() == RND_SMOOTH_HALF_WINDOW + 1,
            i < RND_NODES,
            lo == window_lo(i as nat),
            end == window_end(i as nat),
            lo <= j <= end <= RND_NODES,
            (num, den) == window_sums(raw@, weights@, i as nat, j as nat),
        decreases end - j,
    {
        let w = weights[if i < j {
            j - i
        } else {
            i - j
        }];
        num = num + w * raw[j];
        den = den + w;
        j = j + 1;
    }
    if den > Num::of(ZERO) {
        num / den
    } else {
        Num::of(ZERO)
    }
}

/// The trapezoids between the first `n + 1` samples.
pub open spec fn trapezoids(ys: Seq<Num>, step: Num) -> Seq<Num> {
    Seq::new(
        (ys.len() - 1) as nat,
        |i: int| Num::of(HALF).fmul(ys[i].fadd(ys[i + 1])).fmul(step),
    )
}

/// Trapezoidal integral on a uniform grid.
pub open spec fn integral_of(ys: Seq<Num>, step: Num) -> Num {
    sums::sum(trapezoids(ys, step))
}

fn trapz(ys: &Vec<Num>, step: Num) -> (r: Num)
    requires
        ys@.len() == RND_NODES,
    ensures
        r == integral_of(ys@, step),
{
    let mut parts: Vec<Num> = Vec::new();
    let mut i: usize = 1;
    while i < RND_NODES
        invariant
            1 <= i <= RND_NODES == ys@.len(),
            parts@ == trapezoids(ys@.take(i as int), step),
        decreases RND_NODES - i,
    {
        parts.push(Num::of(HALF) * (ys[i - 1] + ys[i]) * step);
        i = i + 1;
        proof {
            assert(parts@ =~= trapezoids(ys@.take(i as int), step));
        }
    }
    proof {
        assert(ys@.take(i as int) =~= ys@);
    }
    sums::total(&parts)
}

/// The cumulative trapezoids up to node `i`.
pub open spec fn cumulative(density: Seq<Num>, step: Num, i: nat) -> Num
    decreases i,
{
    if i == 0 {
        Num::of(ZERO)
    } else {
        cumulative(density, step, (i - 1) as nat).fadd(
            Num::of(HALF).fmul(density[i as int].fadd(density[i - 1])).fmul(step),
        )
    }
}

/// The strike at which a CDF reaches `p`, looked for from node `i` on.
pub open spec fn crossing_from(strikes: Seq<Num>, cdf: Seq<Num>, p: Num, i: nat) -> Num
    decreases cdf.len() - i,
{
    if i + 1 >= cdf.len() {
        strikes[cdf.len() - 1]
    } else if cdf[i as int].fle(p) && p.fle(cdf[i as int + 1]) {
        let span = cdf[i as int + 1].fsub(cdf[i as int]);
        if span.fle(Num::of(ZERO)) {
            strikes[i as int]
        } else {
            strikes[i as int].fadd(
                p.fsub(cdf[i as int]).fdiv(span).fmul(strikes[i as int + 1].fsub(strikes[i as int])),
            )
        }
    } else {
        crossing_from(strikes, cdf, p, i + 1)
    }
}

/// The strike at which a CDF reaches `p`; the ends of the grid beyond it.
pub open spec fn percentile(strikes: Seq<Num>, cdf: Seq<Num>, p: Num) -> Num {
    if p.fle(cdf[0]) {
        strikes[0]
    } else if cdf.last().fle(p) {
        strikes[cdf.len() - 1]
    } else {
        crossing_from(strikes, cdf, p, 0)
    }
}

fn invert_cdf(strikes: &Vec<Num>, cdf: &Vec<Num>, p: Num) -> (r: Num)
    requires
        strikes@.len() == RND_NODES,
        cdf@.len() == RND_NODES,
    ensures
        r == percentile(strikes@, cdf@, p),
{
    if p <= cdf[0] {
        return strikes[0];
    }
    let last: usize = RND_NODES - 1;
    if p >= cdf[last] {
        return strikes[last];
    }
    let mut i: usize = 0;
    while i < last
        invariant
            i <= last == RND_NODES - 1,
            strikes@.len() == RND_NODES,
            cdf@.len() == RND_NODES,
            !p.fle(cdf@[0]),
            !cdf@.last().fle(p),
            crossing_from(strikes@, cdf@, p, 0) == crossing_from(strikes@, cdf@, p, i as nat),
        decreases last - i,
    {
        if cdf[i] <= p && p <= cdf[i + 1] {
            let span = cdf[i + 1] - cdf[i];
            if span <= Num::of(ZERO) {
                return strikes[i];
            }
            let frac = (p - cdf[i]) / span;
            return strikes[i] + frac * (strikes[i + 1] - strikes[i]);
        }
        i = i + 1;
    }
    strikes[last]
}

/// The node to the left of `x`, but for the last.
pub open spec fn left_node(strikes: Seq<Num>, step: Num, x: Num) -> nat {
    let k = x.fsub(strikes[0]).fdiv(step).ffloor().trunc_u64();
    if k < strikes.len() - 2 {
        k as nat
    } else {
        (strikes.len() - 2) as nat
    }
}

/// The CDF at `x`, interpolated.
pub open spec fn cdf_value(strikes: Seq<Num>, cdf: Seq<Num>, step: Num, x: Num) -> Num {
    if x.fle(strikes[0]) {
        cdf[0]
    } else if strikes.last().fle(x) {
        cdf.last()
    } else {
        let i = left_node(strikes, step, x);
        let frac = x.fsub(strikes[0]).fdiv(step).fsub(Num::whole(false, i));
        cdf[i as int].fadd(frac.fmul(cdf[i as int + 1].fsub(cdf[i as int])))
    }
}

fn cdf_at(strikes: &Vec<Num>, cdf: &Vec<Num>, step: Num, x: Num) -> (r: Num)
    requires
        strikes@.len() == RND_NODES,
        cdf@.len() == RND_NODES,
    ensures
        r == cdf_value(strikes@, cdf@, step, x),
{
    let last: usize = RND_NODES - 1;
    if x <= strikes[0] {
        return cdf[0];
    }
    if x >= strikes[last] {
        return cdf[last];
    }
    let rel = (x - strikes[0]) / step;
    let whole: u64 = rel.floor().to_u64();
    let i: usize = if whole < (last - 1) as u64 {
        whole as usize
    } else {
        last - 1
    };
    let frac = rel - Num::from_u64(i as u64);
    cdf[i] + frac * (cdf[i + 1] - cdf[i])
}

/// Moments of a density.
#[derive(Debug, Clone, Copy, PartialEq)]
pub struct Moments {
    /// Mean.
    pub mean: Num,
    /// Standard deviation.
    pub std_dev: Num,
    /// Third standardized moment.
    pub skewness: Num,
    /// Fourth standardized moment less that of a normal distribution.
    pub excess_kurtosis: Num,
}

/// The third power.
pub open spec fn cube(x: Num) -> Num {
    x.fmul(x.fmul(x))
}

/// The fourth power.
pub open spec fn fourth(x: Num) -> Num {
    x.fmul(x).fmul(x.fmul(x))
}

impl Moments {
    /// The moments of a density on a grid, by trapezoids.
    pub open spec fn of_density(strikes: Seq<Num>, density: Seq<Num>, step: Num) -> Moments {
        let n = strikes.len();
        let mean = integral_of(Seq::new(n, |i: int| strikes[i].fmul(density[i])), step);
        let variance = integral_of(
            Seq::new(
                n,
                |i: int| strikes[i].fsub(mean).fmul(strikes[i].fsub(mean)).fmul(density[i]),
            ),
            step,
        ).fmax(Num::of(ZERO));
        let std_dev = variance.fsqrt();
        let third = integral_of(
            Seq::new(n, |i: int| cube(strikes[i].fsub(mean).fdiv(std_dev)).fmul(density[i])),
            step,
        );
        let raw_fourth = integral_of(
            Seq::new(n, |i: int| fourth(strikes[i].fsub(mean).fdiv(std_dev)).fmul(density[i])),
            step,
        );
        if Num::of(ZERO).flt(std_dev) {
            Moments {
                mean,
                std_dev,
                skewness: third,
                excess_kurtosis: raw_fourth.fsub(Num::of(EXCESS_KURTOSIS_OFFSET)),
            }
        } else {
            Moments {
                mean,
                std_dev,
                skewness: Num::of(ZERO),
                excess_kurtosis: Num::of(ZERO),
            }
        }
    }
}

fn moments(strikes: &Vec<Num>, density: &Vec<Num>, step: Num) -> (r: Moments)
    requires
        strikes@.len() == RND_NODES,
        density@.len() == RND_NODES,
    ensures
        r == Moments::of_density(strikes@, density@, step),
{
    let ghost n = strikes@.len();
    let mut first: Vec<Num> = Vec::new();
    let mut i: usize = 0;
    while i < RND_NODES
        invariant
            i <= RND_NODES == strikes@.len() == density@.len(),
            first@ == Seq::new(i as nat, |i: int| strikes@[i].fmul(density@[i])),
        decreases RND_NODES - i,
    {
        first.push(strikes[i] * density[i]);
        i = i + 1;
    }
    let mean = trapz(&first, step);
    let mut second: Vec<Num> = Vec::new();
    let mut i: usize = 0;
    while i < RND_NODES
        invariant
            i <= RND_NODES == strikes@.len() == density@.len(),
            second@ == Seq::new(
                i as nat,
                |i: int| strikes@[i].fsub(mean).fmul(strikes@[i].fsub(mean)).fmul(density@[i]),
            ),
        decreases RND_NODES - i,
    {
        second.push((strikes[i] - mean) * (strikes[i] - mean) * density[i]);
        i = i + 1;
    }
    let variance = trapz(&second, step).max(Num::of(ZERO));
    let std_dev = variance.sqrt();
    if !(std_dev > Num::of(ZERO)) {
        return Moments {
            mean,
            std_dev,
            skewness: Num::of(ZERO),
            excess_kurtosis: Num::of(ZERO),
        };
    }
    let mut third: Vec<Num> = Vec::new();
    let mut raw_fourth: Vec<Num> = Vec::new();
    let mut i: usize = 0;
    while i < RND_NODES
        invariant
            i <= RND_NODES == strikes@.len() == density@.len(),
            third@ == Seq::new(
                i as nat,
                |i: int| cube(strikes@[i].fsub(mean).fdiv(std_dev)).fmul(density@[i]),
            ),
            raw_fourth@ == Seq::new(
                i as nat,
                |i: int| fourth(strikes@[i].fsub(mean).fdiv(std_dev)).fmul(density@[i]),
            ),
        decreases RND_NODES - i,
    {
        let z = (strikes[i] - mean) / std_dev;
        third.push(z * (z * z) * density[i]);
        raw_fourth.push((z * z) * (z * z) * density[i]);
        i = i + 1;
    }
    Moments {
        mean,
        std_dev,
        skewness: trapz(&third, step),
        excess_kurtosis: trapz(&raw_fourth, step) - Num::of(EXCESS_KURTOSIS_OFFSET),
    }
}

/// The fat-tail readout of an excess kurtosis: active above the threshold.
pub open spec fn fat_tail_of(k: Num) -> Readout {
    Readout {
        state: if k.finite() && Num::of(FAT_TAIL_KURTOSIS_THRESHOLD).flt(k) {
            BinaryState::Active
        } else {
            BinaryState::Inactive
        },
        score: k,
    }
}

/// What the machine evaluates for a density.
#[derive(Debug, PartialEq)]
pub struct RndTerms {
    /// Logarithm of each strike of the smile over spot.
    pub smile_logs: Vec<Num>,
    /// Terms of each node.
    pub nodes: Vec<NodeTerms>,
    /// Exponential at `discount_exponent`.
    pub discount: Num,
    /// Exponential at `weight_exponent` of each offset of the window.
    pub weights: Vec<Num>,
}

/// The floored second differences of all nodes.
pub open spec fn raw_densities(s: RndSetup, nodes: Seq<NodeTerms>, discount: Num) -> Seq<Num> {
    Seq::new(RND_NODES as nat, |i: int| s.raw_density(i as nat, nodes[i], discount))
}

/// Whether every node can be priced.
pub open spec fn nodes_priceable(s: RndSetup, nodes: Seq<NodeTerms>, n: nat) -> bool {
    forall|i: int| 0 <= i < n ==> s.node_priceable(i as nat, #[trigger] nodes[i])
}

/// The smoothed densities of all nodes.
pub open spec fn smooth_densities(raw: Seq<Num>, weights: Seq<Num>) -> Seq<Num> {
    Seq::new(RND_NODES as nat, |i: int| smoothed(raw, weights, i as nat))
}

impl RndCurve {
    /// The curve of densities on a grid.
    pub open spec fn is_of(self, spot: Num, grid: RndGrid, density: Seq<Num>) -> bool {
        let strikes = Seq::new(RND_NODES as nat, |i: int| grid.node(i as nat));
        let cdf = Seq::new(
            RND_NODES as nat,
            |i: int| cumulative(density, grid.step_k, i as nat),
        );
        let m = Moments::of_density(strikes, density, grid.step_k);
        let below = cdf_value(strikes, cdf, grid.step_k, spot).fclamp(Num::of(ZERO), Num::of(ONE));
        &&& self.points@ == Seq::new(
            RND_NODES as nat,
            |i: int| (RndPoint { strike: strikes[i], density: density[i], cdf: cdf[i] }),
        )
        &&& self.percentiles == (RndPercentiles {
            p05: percentile(strikes, cdf, Num::of(P05)),
            p25: percentile(strikes, cdf, Num::of(P25)),
            p50: percentile(strikes, cdf, Num::of(P50)),
            p75: percentile(strikes, cdf, Num::of(P75)),
            p95: percentile(strikes, cdf, Num::of(P95)),
        })
        &&& self.mean == m.mean
        &&& self.std_dev == m.std_dev
        &&& self.skewness == m.skewness
        &&& self.excess_kurtosis == m.excess_kurtosis
        &&& self.fat_tail == fat_tail_of(m.excess_kurtosis)
        &&& self.prob_below_spot == below
        &&& self.prob_above_spot == Num::of(ONE).fsub(below).fclamp(Num::of(ZERO), Num::of(ONE))
    }
}

fn curve_of(spot: Num, grid: &RndGrid, density: &Vec<Num>) -> (r: RndCurve)
    requires
        density@.len() == RND_NODES,
    ensures
        r.is_of(spot, *grid, density@),
{
    let mut strikes: Vec<Num> = Vec::new();
    let mut cdf: Vec<Num> = Vec::new();
    let mut points: Vec<RndPoint> = Vec::new();
    let mut acc = Num::of(ZERO);
    let mut i: usize = 0;
    while i < RND_NODES
        invariant
            i <= RND_NODES == density@.len(),
            i > 0 ==> acc == cumulative(density@, grid.step_k, (i - 1) as nat),
            i == 0 ==> acc == Num::of(ZERO),
            strikes@ == Seq::new(i as nat, |i: int| grid.node(i as nat)),
            cdf@ == Seq::new(i as nat, |i: int| cumulative(density@, grid.step_k, i as nat)),
            points@ == Seq::new(
                i as nat,
                |i: int|
                    (RndPoint {
                        strike: grid.node(i as nat),
                        density: density@[i],
                        cdf: cumulative(density@, grid.step_k, i as nat),
                    }),
            ),
        decreases RND_NODES - i,
    {
        if i > 0 {
            acc = acc + Num::of(HALF) * (density[i] + density[i - 1]) * grid.step_k;
        }
        let k = grid.strike(i);
        strikes.push(k);
        cdf.push(acc);
        points.push(RndPoint { strike: k, density: density[i], cdf: acc });
        i = i + 1;
    }
    let m = moments(&strikes, density, grid.step_k);
    let percentiles = RndPercentiles {
        p05: invert_cdf(&strikes, &cdf, Num::of(P05)),
        p25: invert_cdf(&strikes, &cdf, Num::of(P25)),
        p50: invert_cdf(&strikes, &cdf, Num::of(P50)),
        p75: invert_cdf(&strikes, &cdf, Num::of(P75)),
        p95: invert_cdf(&strikes, &cdf, Num::of(P95)),
    };
    let prob_below_spot = cdf_at(&strikes, &cdf, grid.step_k, spot).clamp(
        Num::of(ZERO),
        Num::of(ONE),
    );
    let prob_above_spot = (Num::of(ONE) - prob_below_spot).clamp(Num::of(ZERO), Num::of(ONE));
    let fat = m.excess_kurtosis.is_finite() && m.excess_kurtosis > Num::of(
        FAT_TAIL_KURTOSIS_THRESHOLD,
    );
    let state = if fat {
        BinaryState::Active
    } else {
        BinaryState::Inactive
    };
    proof {
        assert(points@ =~= Seq::new(
            RND_NODES as nat,
            |i: int|
                (RndPoint { strike: strikes@[i], density: density@[i], cdf: cdf@[i] }),
        ));
    }
    RndCurve {
        points,
        percentiles,
        mean: m.mean,
        std_dev: m.std_dev,
        skewness: m.skewness,
        excess_kurtosis: m.excess_kurtosis,
        fat_tail: Readout { state, score: m.excess_kurtosis },
        prob_below_spot,
        prob_above_spot,
    }
}

/// Whether this is what a chain gives: its density, or what keeps it from one.
pub open spec fn is_density_of(
    r: Result<RndCurve, QuantError>,
    quotes: Seq<OptionQuote>,
    spot: Num,
    t_years: Num,
    rate: Num,
    solved: Seq<Option<Num>>,
    terms: RndTerms,
) -> bool {
    let smile = smile_of(quotes, solved);
    let problem = setup_problem(smile, spot, t_years, rate);
    let s = RndSetup::of_smile(smile, terms.smile_logs@, spot, t_years, rate);
    let fits = nodes_priceable(s, terms.nodes@, RND_NODES as nat);
    let smooth = smooth_densities(
        raw_densities(s, terms.nodes@, terms.discount),
        terms.weights@,
    );
    let total = integral_of(smooth, s.grid.step_k);
    match r {
        Ok(curve) => {
            &&& problem is None
            &&& fits
            &&& usable(total)
            &&& curve.is_of(spot, s.grid, smooth.map_values(|d: Num| d.fdiv(total)))
        },
        Err(e) => if problem is Some {
            problem == Some(e)
        } else if !fits {
            e == QuantError::Domain("BsInputs out of domain")
        } else {
            &&& !usable(total)
            &&& e == QuantError::Domain("RND: degenerate (non-positive) density integral")
        },
    }
}

impl RndTerms {
    /// Whether there are terms for every point of a chain.
    pub open spec fn fits(self, quotes: Seq<OptionQuote>, solved: Seq<Option<Num>>) -> bool {
        &&& solved.len() == quotes.len()
        &&& self.smile_logs@.len() == smile_of(quotes, solved).len()
        &&& self.nodes@.len() == RND_NODES
        &&& self.weights@.len() == RND_SMOOTH_HALF_WINDOW + 1
    }
}

/// Extracts the risk-neutral density of a chain.
///
/// `solved` holds, for each quote, what the implied-vol search found (see
/// `solved_vols`); `terms` what the machine evaluated for the setup of
/// `smile_points` and `rnd_setup`.
pub fn implied_rnd(
    quotes: &Vec<OptionQuote>,
    spot: Num,
    t_years: Num,
    rate: Num,
    solved: &Vec<Option<Num>>,
    terms: &RndTerms,
) -> (r: Result<RndCurve, QuantError>)
    requires
        terms.fits(quotes@, solved@),
    ensures
        is_density_of(r, quotes@, spot, t_years, rate, solved@, *terms),
{
    let smile = smile_points(quotes, solved);
    let s = match rnd_setup(&smile, &terms.smile_logs, spot, t_years, rate) {
        Ok(s) => s,
        Err(e) => return Err(e),
    };
    let mut raw: Vec<Num> = Vec::new();
    let mut i: usize = 0;
    while i < RND_NODES
        invariant
            i <= RND_NODES == terms.nodes@.len(),
            usable(s.fit.iv_base),
            s == RndSetup::of_smile(
                smile_of(quotes@, solved@),
                terms.smile_logs@,
                spot,
                t_years,
                rate,
            ),
            setup_problem(smile_of(quotes@, solved@), spot, t_years, rate) is None,
            nodes_priceable(s, terms.nodes@, i as nat),
            raw@ == Seq::new(
                i as nat,
                |i: int| s.raw_density(i as nat, terms.nodes@[i], terms.discount),
            ),
        decreases RND_NODES - i,
    {
        match s.node_density(i, &terms.nodes[i], terms.discount) {
            Ok(d) => {
                raw.push(d);
            },
            Err(e) => {
                proof {
                    assert(!s.node_priceable(i as nat, terms.nodes@[i as int]));
                    assert(!nodes_priceable(s, terms.nodes@, RND_NODES as nat));
                }
                return Err(e);
            },
        }
        i = i + 1;
    }
    proof {
        assert(raw@ =~= raw_densities(s, terms.nodes@, terms.discount));
    }
    let mut smooth_values: Vec<Num> = Vec::new();
    let mut i: usize = 0;
    while i < RND_NODES
        invariant
            i <= RND_NODES == raw@.len(),
            terms.weights@.len() == RND_SMOOTH_HALF_WINDOW + 1,
            smooth_values@ == Seq::new(
                i as nat,
                |i: int| smoothed(raw@, terms.weights@, i as nat),
            ),
        decreases RND_NODES - i,
    {
        smooth_values.push(smooth(&raw, &terms.weights, i));
        i = i + 1;
    }
    proof {
        assert(smooth_values@ =~= smooth_densities(raw@, terms.weights@));
    }
    let total = trapz(&smooth_values, s.grid.step_k);
    if !is_usable(total) {
        return Err(QuantError::Domain("RND: degenerate (non-positive) density integral"));
    }
    let mut density: Vec<Num> = Vec::new();
    let mut i: usize = 0;
    while i < RND_NODES
        invariant
            i <= RND_NODES == smooth_values@.len(),
            density@ == Seq::new(i as nat, |i: int| smooth_values@[i].fdiv(total)),
        decreases RND_NODES - i,
    {
        density.push(smooth_values[i] / total);
        i = i + 1;
    }
    proof {
        assert(density@ =~= smooth_values@.map_values(|d: Num| d.fdiv(total)));
    }
    Ok(curve_of(spot, &s.grid, &density))
}

/// Probabilities below and above spot that are numbers lie between 0 and 1.
pub proof fn law_spot_probabilities_bounded(
    curve: RndCurve,
    spot: Num,
    grid: RndGrid,
    density: Seq<Num>,
)
    requires
        curve.is_of(spot, grid, density),
        !curve.prob_below_spot.nan(),
        !curve.prob_above_spot.nan(),
    ensures
        Num::of(ZERO).fle(curve.prob_below_spot),
        curve.prob_below_spot.fle(Num::of(ONE)),
        Num::of(ZERO).fle(curve.prob_above_spot),
        curve.prob_above_spot.fle(Num::of(ONE)),
{
}

/// Floored second differences are never negative.
pub proof fn law_raw_density_not_negative(s: RndSetup, i: nat, t: NodeTerms, discount: Num)
    ensures
        !s.raw_density(i, t, discount).flt(Num::of(ZERO)),
{
}

/// The cumulative probability of densities that are not negative never falls.
pub proof fn law_cdf_never_falls(density: Seq<Num>, step: Num, i: nat)
    requires
        0 < i < density.len(),
        usable(step),
        forall|k: int|
            0 <= k < density.len() ==> !(#[trigger] density[k]).nan() && !density[k].negative(),
    ensures
        cumulative(density, step, (i - 1) as nat).fle(cumulative(density, step, i)),
        !cumulative(density, step, i).negative(),
    decreases i,
{
    let (a, b) = (density[i as int], density[i - 1]);
    algebra::lemma_add_not_negative(a, b);
    algebra::law_mul_commutes(Num::of(HALF), a.fadd(b));
    algebra::lemma_mul_not_negative(a.fadd(b), Num::of(HALF));
    algebra::lemma_mul_not_negative(Num::of(HALF).fmul(a.fadd(b)), step);
    let more = Num::of(HALF).fmul(a.fadd(b)).fmul(step);
    if i > 1 {
        law_cdf_never_falls(density, step, (i - 1) as nat);
    }
    algebra::lemma_add_not_negative(cumulative(density, step, (i - 1) as nat), more);
}

/// Weighted sums of a window have no sign, and the sum of weights is no NaN.
proof fn lemma_window_sign(raw: Seq<Num>, weights: Seq<Num>, i: nat, end: nat)
    requires
        i < RND_NODES,
        end <= window_end(i),
        raw.len() == RND_NODES,
        weights.len() == RND_SMOOTH_HALF_WINDOW + 1,
        forall|k: int| 0 <= k < raw.len() ==> Num::of(ZERO).fle(#[trigger] raw[k]),
        forall|k: int| 0 <= k < weights.len() ==> usable(#[trigger] weights[k]),
    ensures
        ({
            let (num, den) = window_sums(raw, weights, i, end);
            &&& num.nan() || !num.negative()
            &&& den.nan() || !den.negative()
        }),
    decreases end,
{
    if end > window_lo(i) {
        lemma_window_sign(raw, weights, i, (end - 1) as nat);
        let (num, den) = window_sums(raw, weights, i, (end - 1) as nat);
        let w = weights[apart(i, (end - 1) as nat)];
        assert(usable(w));
        assert(Num::of(ZERO).fle(raw[end - 1]));
        algebra::lemma_mul_kind(w, raw[end - 1]);
        algebra::lemma_add_sign(num, w.fmul(raw[end - 1]));
        algebra::lemma_add_sign(den, w);
    }
}

/// A smoothed density has no sign.
proof fn lemma_smoothed_sign(raw: Seq<Num>, weights: Seq<Num>, i: nat)
    requires
        i < RND_NODES,
        raw.len() == RND_NODES,
        weights.len() == RND_SMOOTH_HALF_WINDOW + 1,
        forall|k: int| 0 <= k < raw.len() ==> Num::of(ZERO).fle(#[trigger] raw[k]),
        forall|k: int| 0 <= k < weights.len() ==> usable(#[trigger] weights[k]),
    ensures
        smoothed(raw, weights, i).nan() || !smoothed(raw, weights, i).negative(),
{
    lemma_window_sign(raw, weights, i, window_end(i));
    let (num, den) = window_sums(raw, weights, i, window_end(i));
    reveal(Num::fdiv);
}

/// A trapezoid of sides without a sign.
pub open spec fn trapezoid(a: Num, b: Num, step: Num) -> Num {
    Num::of(HALF).fmul(a.fadd(b)).fmul(step)
}

/// A trapezoid that is a number has sides that are, and where it is positive
/// and finite, so is the step.
proof fn lemma_trapezoid(a: Num, b: Num, step: Num)
    requires
        a.nan() || !a.negative(),
        b.nan() || !b.negative(),
        !trapezoid(a, b, step).nan(),
    ensures
        !a.nan() && !b.nan() && !step.nan(),
        Num::of(ZERO).flt(trapezoid(a, b, step)) ==> Num::of(ZERO).flt(step),
        trapezoid(a, b, step).finite() ==> step.finite(),
{
    reveal(Num::fmul);
    reveal(Num::fadd);
    lemma_pow2_pos(1074);
    arith::lemma_round_zero(pow2(1074));
    let h = Num::of(HALF).fmul(a.fadd(b));
    assert(!h.nan() && !h.negative());
    if step.mag() == 0 {
        arith::lemma_zero_size(step);
        assert(h.size() * step.size() == 0) by (nonlinear_arith)
            requires
                step.size() == 0,
        ;
    }
}

/// A sum that is finite has finite terms where none is below zero, and one
/// that is positive has a positive term.
proof fn lemma_sum_terms(s: Seq<Num>)
    requires
        !sums::sum(s).nan(),
    ensures
        forall|i: int| 0 <= i < s.len() ==> !(#[trigger] s[i]).nan(),
        (forall|i: int| 0 <= i < s.len() ==> Num::of(ZERO).fle(#[trigger] s[i])) ==> {
            &&& Num::of(ZERO).fle(sums::sum(s))
            &&& sums::sum(s).finite() ==> forall|i: int|
                0 <= i < s.len() ==> (#[trigger] s[i]).finite()
        },
        (forall|i: int| 0 <= i < s.len() ==> (#[trigger] s[i]).fle(Num::of(ZERO)))
            ==> sums::sum(s).fle(Num::of(ZERO)),
    decreases s.len(),
{
    if s.len() > 0 {
        let (head, v) = (sums::sum(s.drop_last()), s.last());
        assert(!head.nan() && !v.nan()) by {
            reveal(Num::fadd);
        }
        lemma_sum_terms(s.drop_last());
        let zero = Num::of(ZERO);
        assert forall|i: int| 0 <= i < s.len() implies !(#[trigger] s[i]).nan() by {
            if i < s.len() - 1 {
                assert(s[i] == s.drop_last()[i]);
            }
        }
        if forall|i: int| 0 <= i < s.len() ==> zero.fle(#[trigger] s[i]) {
            assert forall|i: int| 0 <= i < s.len() - 1 implies zero.fle(
                #[trigger] s.drop_last()[i],
            ) by {
                assert(s.drop_last()[i] == s[i]);
            }
            assert(zero.fle(s[s.len() - 1]));
            algebra::lemma_add_kind(head, v);
            assert(head.fadd(v).finite() ==> head.finite() && v.finite()) by {
                reveal(Num::fadd);
            }
            if sums::sum(s).finite() {
                assert forall|i: int| 0 <= i < s.len() implies (#[trigger] s[i]).finite() by {
                    if i < s.len() - 1 {
                        assert(s[i] == s.drop_last()[i]);
                    }
                }
            }
        }
        if forall|i: int| 0 <= i < s.len() ==> (#[trigger] s[i]).fle(zero) {
            assert forall|i: int| 0 <= i < s.len() - 1 implies (#[trigger] s.drop_last()[i]).fle(
                zero,
            ) by {
                assert(s.drop_last()[i] == s[i]);
            }
            assert(s[s.len() - 1].fle(zero));
            assert(!zero.fadd(v).nan() && !zero.fadd(zero).nan()) by {
                reveal(Num::fadd);
            }
            algebra::law_add_monotone(head, zero, v);
            algebra::law_add_commutes(zero, v);
            algebra::law_add_zero(v);
        }
    }
}

/// The cumulative probability of every density that is returned never falls
/// from one strike to the next, and has no sign.
pub proof fn law_distribution_never_falls(
    curve: RndCurve,
    quotes: Seq<OptionQuote>,
    spot: Num,
    t_years: Num,
    rate: Num,
    solved: Seq<Option<Num>>,
    terms: RndTerms,
    i: int,
)
    requires
        terms.fits(quotes, solved),
        forall|k: int| 0 <= k < terms.weights@.len() ==> usable(#[trigger] terms.weights@[k]),
        is_density_of(Ok(curve), quotes, spot, t_years, rate, solved, terms),
        0 < i < RND_NODES,
    ensures
        curve.points@[i - 1].cdf.fle(curve.points@[i].cdf),
        !curve.points@[i].cdf.negative(),
{
    let smile = smile_of(quotes, solved);
    let s = RndSetup::of_smile(smile, terms.smile_logs@, spot, t_years, rate);
    let raw = raw_densities(s, terms.nodes@, terms.discount);
    let smooth = smooth_densities(raw, terms.weights@);
    let (step, total) = (s.grid.step_k, integral_of(smooth, s.grid.step_k));
    let zero = Num::of(ZERO);
    assert forall|k: int| 0 <= k < RND_NODES implies zero.fle(#[trigger] raw[k]) by {}
    assert forall|k: int| 0 <= k < RND_NODES implies (#[trigger] smooth[k]).nan()
        || !smooth[k].negative() by {
        lemma_smoothed_sign(raw, terms.weights@, k as nat);
    }
    let parts = trapezoids(smooth, step);
    lemma_sum_terms(parts);
    assert forall|k: int| 0 <= k < RND_NODES implies !(#[trigger] smooth[k]).nan() by {
        let j = if k == 0 {
            0
        } else {
            k - 1
        };
        assert(parts[j] == trapezoid(smooth[j], smooth[j + 1], step));
        lemma_trapezoid(smooth[j], smooth[j + 1], step);
    }
    assert(usable(step)) by {
        if !(zero.flt(step)) {
            assert forall|j: int| 0 <= j < parts.len() implies (#[trigger] parts[j]).fle(zero) by {
                assert(parts[j] == trapezoid(smooth[j], smooth[j + 1], step));
                lemma_trapezoid(smooth[j], smooth[j + 1], step);
            }
        } else {
            assert forall|j: int| 0 <= j < parts.len() implies zero.fle(#[trigger] parts[j]) by {
                assert(parts[j] == trapezoid(smooth[j], smooth[j + 1], step));
                algebra::lemma_add_not_negative(smooth[j], smooth[j + 1]);
                algebra::lemma_mul_kind(Num::of(HALF), smooth[j].fadd(smooth[j + 1]));
                algebra::lemma_mul_kind(
                    Num::of(HALF).fmul(smooth[j].fadd(smooth[j + 1])),
                    step,
                );
            }
            assert(parts[0] == trapezoid(smooth[0], smooth[1], step));
            lemma_trapezoid(smooth[0], smooth[1], step);
        }
    }
    let density = smooth.map_values(|d: Num| d.fdiv(total));
    assert forall|k: int| 0 <= k < density.len() implies !(#[trigger] density[k]).nan()
        && !density[k].negative() by {
        assert(!smooth[k].nan() && !smooth[k].negative());
        reveal(Num::fdiv);
    }
    law_cdf_never_falls(density, step, i as nat);
}

/// Whether a CDF is finite and never falls.
pub open spec fn rising(cdf: Seq<Num>) -> bool {
    &&& forall|i: int| 0 <= i < cdf.len() ==> (#[trigger] cdf[i]).finite()
    &&& forall|i: int, j: int| 0 <= i <= j < cdf.len() ==> cdf[i].fle(cdf[j])
}

/// The place of `p` within the segment of a CDF that starts at node `k`.
pub open spec fn place(cdf: Seq<Num>, p: Num, k: int) -> Num {
    p.fsub(cdf[k]).fdiv(cdf[k + 1].fsub(cdf[k]))
}

/// Where a CDF reaches `p`, and what is read off there.
proof fn lemma_crossing(strikes: Seq<Num>, cdf: Seq<Num>, p: Num, i: nat) -> (k: int)
    requires
        i < cdf.len(),
        strikes.len() == cdf.len(),
    ensures
        i <= k < cdf.len(),
        forall|j: int| i <= j < k ==> !(#[trigger] cdf[j].fle(p) && p.fle(cdf[j + 1])),
        k + 1 == cdf.len() ==> crossing_from(strikes, cdf, p, i) == strikes[k],
        k + 1 < cdf.len() ==> {
            &&& cdf[k].fle(p) && p.fle(cdf[k + 1])
            &&& crossing_from(strikes, cdf, p, i) == (if cdf[k + 1].fsub(cdf[k]).fle(
                Num::of(ZERO),
            ) {
                strikes[k]
            } else {
                algebra::blend(strikes[k], strikes[k + 1], place(cdf, p, k))
            })
        },
    decreases cdf.len() - i,
{
    if i + 1 < cdf.len() && !(cdf[i as int].fle(p) && p.fle(cdf[i as int + 1])) {
        lemma_crossing(strikes, cdf, p, i + 1)
    } else {
        i as int
    }
}

/// A place within a segment lies between 0 and 1, and a greater probability
/// has no lower place.
proof fn lemma_cdf_place(cdf: Seq<Num>, p: Num, q: Num, k: int)
    requires
        0 <= k && k + 1 < cdf.len(),
        rising(cdf),
        cdf[k].fle(p),
        p.fle(q),
        q.fle(cdf[k + 1]),
        !cdf[k + 1].fsub(cdf[k]).fle(Num::of(ZERO)),
        cdf[k + 1].fsub(cdf[k]).finite(),
    ensures
        Num::of(ZERO).fle(place(cdf, p, k)),
        place(cdf, p, k).fle(place(cdf, q, k)),
        place(cdf, q, k).fle(Num::of(ONE)),
{
    let (a, b) = (cdf[k], cdf[k + 1]);
    let span = b.fsub(a);
    assert(a.finite() && b.finite());
    algebra::lemma_rise(a, p);
    algebra::lemma_add_is_number(p, a.fneg());
    algebra::lemma_add_is_number(q, a.fneg());
    algebra::lemma_add_is_number(b, a.fneg());
    algebra::law_add_monotone(p, q, a.fneg());
    algebra::law_add_monotone(q, b, a.fneg());
    algebra::law_div_monotone(Num::of(ZERO), p.fsub(a), span);
    algebra::law_div_monotone(p.fsub(a), q.fsub(a), span);
    algebra::law_div_monotone(q.fsub(a), span, span);
    algebra::law_div_self(span);
    arith::lemma_zero_size(Num::of(ZERO));
    algebra::lemma_zero_over(Num::of(ZERO), span);
}

/// A greater probability never has a lower percentile, on a grid on which no
/// way between two neighbouring strikes rounds beyond its end.
pub proof fn law_percentiles_never_fall(strikes: Seq<Num>, cdf: Seq<Num>, p: Num, q: Num)
    requires
        strikes.len() == cdf.len(),
        cdf.len() >= 2,
        stats::steady(strikes),
        rising(cdf),
        cdf[cdf.len() - 1].fsub(cdf[0]).finite(),
        p.fle(q),
    ensures
        percentile(strikes, cdf, p).fle(percentile(strikes, cdf, q)),
{
    let last = cdf.len() - 1;
    stats::lemma_steady(strikes, 0, last);
    let (i, j) = (lemma_crossing(strikes, cdf, p, 0), lemma_crossing(strikes, cdf, q, 0));
    let inner_p = !p.fle(cdf[0]) && !cdf.last().fle(p);
    let inner_q = !q.fle(cdf[0]) && !cdf.last().fle(q);
    if inner_p {
        lemma_between(strikes, cdf, p, i);
        stats::lemma_steady(strikes, 0, i);
        if i < last {
            stats::lemma_steady(strikes, i + 1, last);
        }
    }
    if inner_q {
        lemma_between(strikes, cdf, q, j);
        stats::lemma_steady(strikes, 0, j);
    }
    if inner_p && inner_q {
        assert(i <= j) by {
            if j < i {
                lemma_not_reached(cdf, p, j);
                assert(!(cdf[j].fle(p) && p.fle(cdf[j + 1])));
            }
        }
        if i < j {
            stats::lemma_steady(strikes, i + 1, j);
        } else if i < last {
            lemma_span(cdf, i);
            if !cdf[i + 1].fsub(cdf[i]).fle(Num::of(ZERO)) {
                lemma_cdf_place(cdf, p, q, i);
                assert(algebra::sound_gap(strikes[i], strikes[i + 1]));
                algebra::lemma_blend(
                    strikes[i],
                    strikes[i + 1],
                    place(cdf, p, i),
                    place(cdf, q, i),
                );
            }
        }
    }
}

/// Up to its crossing, a probability is not reached.
proof fn lemma_not_reached(cdf: Seq<Num>, p: Num, k: int)
    requires
        0 <= k && k + 1 < cdf.len(),
        rising(cdf),
        cdf[0].fle(p),
        forall|j: int| 0 <= j < k ==> !(#[trigger] cdf[j].fle(p) && p.fle(cdf[j + 1])),
    ensures
        cdf[k].fle(p),
    decreases k,
{
    if k > 0 {
        lemma_not_reached(cdf, p, k - 1);
        assert(cdf[k - 1].fle(p));
        assert(!(cdf[k - 1].fle(p) && p.fle(cdf[k - 1 + 1])));
        assert(cdf[k].finite());
    }
}

/// A step of a rising CDF is finite where the whole rise is.
proof fn lemma_span(cdf: Seq<Num>, k: int)
    requires
        0 <= k && k + 1 < cdf.len(),
        rising(cdf),
        cdf[cdf.len() - 1].fsub(cdf[0]).finite(),
    ensures
        cdf[k + 1].fsub(cdf[k]).finite(),
        Num::of(ZERO).fle(cdf[k + 1].fsub(cdf[k])),
{
    let (lo, hi) = (cdf[0], cdf[cdf.len() - 1]);
    let (a, b) = (cdf[k], cdf[k + 1]);
    assert(lo.fle(a) && a.fle(b) && b.fle(hi));
    algebra::lemma_rise(a, b);
    algebra::lemma_add_is_number(b, a.fneg());
    algebra::lemma_add_is_number(hi, a.fneg());
    algebra::lemma_add_is_number(hi, lo.fneg());
    algebra::law_add_monotone(b, hi, a.fneg());
    algebra::law_add_commutes(hi, a.fneg());
    algebra::law_add_commutes(hi, lo.fneg());
    algebra::law_add_monotone(a.fneg(), lo.fneg(), hi);
}

/// A percentile lies between the strikes around its crossing.
proof fn lemma_between(strikes: Seq<Num>, cdf: Seq<Num>, p: Num, k: int)
    requires
        strikes.len() == cdf.len(),
        cdf.len() >= 2,
        stats::steady(strikes),
        rising(cdf),
        cdf[cdf.len() - 1].fsub(cdf[0]).finite(),
        0 <= k < cdf.len(),
        k + 1 == cdf.len() ==> crossing_from(strikes, cdf, p, 0) == strikes[k],
        k + 1 < cdf.len() ==> {
            &&& cdf[k].fle(p) && p.fle(cdf[k + 1])
            &&& crossing_from(strikes, cdf, p, 0) == (if cdf[k + 1].fsub(cdf[k]).fle(
                Num::of(ZERO),
            ) {
                strikes[k]
            } else {
                algebra::blend(strikes[k], strikes[k + 1], place(cdf, p, k))
            })
        },
    ensures
        strikes[k].fle(crossing_from(strikes, cdf, p, 0)),
        k + 1 < cdf.len() ==> crossing_from(strikes, cdf, p, 0).fle(strikes[k + 1]),
{
    stats::lemma_steady(strikes, k, k);
    if k + 1 < cdf.len() {
        stats::lemma_steady(strikes, k, k + 1);
        lemma_span(cdf, k);
        if !cdf[k + 1].fsub(cdf[k]).fle(Num::of(ZERO)) {
            lemma_cdf_place(cdf, p, p, k);
            assert(algebra::sound_gap(strikes[k], strikes[k + 1]));
            algebra::lemma_blend(
                strikes[k],
                strikes[k + 1],
                place(cdf, p, k),
                place(cdf, p, k),
            );
        }
    }
}

} // verus!
