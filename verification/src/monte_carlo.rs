//! Monte Carlo paths of a geometric Brownian motion.
//!
//! The paths are a function of the configuration and of the standard normal
//! draws, so equal draws reproduce a simulation exactly.  A step multiplies
//! every price by the exponential of `drift + vol * z`: `gbm_exponents` gives
//! the exponents of all steps, the host machine takes their exponentials, and
//! `simulate_gbm` builds the percentile cone, the terminal statistics and the
//! retained sample paths.

use crate::algebra;
use crate::black_scholes::QuantError;
use crate::consts::{HALF, ONE, ZERO};
use crate::num::Num;
use crate::sorting;
use crate::stats;
use crate::sums;
use vstd::arithmetic::power2::*;
use vstd::prelude::*;

verus! {

/// Fewest time steps; fewer are raised to it.
pub const MC_MIN_STEPS: usize = 1;

/// Most time steps.
pub const MC_MAX_STEPS: usize = 1000;

/// Fewest paths.
pub const MC_MIN_PATHS: usize = 1;

/// Most paths.
pub const MC_MAX_PATHS: usize = 200_000;

/// Sample paths retained by default.
pub const MC_DEFAULT_SAMPLE_PATHS: usize = 80;

/// Percentile level (0.05).
pub const P05: u64 = 0x3FA9_9999_9999_999A;

/// Percentile level (0.25).
pub const P25: u64 = 0x3FD0_0000_0000_0000;

/// Percentile level (0.5).
pub const P50: u64 = 0x3FE0_0000_0000_0000;

/// Percentile level (0.75).
pub const P75: u64 = 0x3FE8_0000_0000_0000;

/// Percentile level (0.95).
pub const P95: u64 = 0x3FEE_6666_6666_6666;

/// Configuration of a simulation.
#[derive(Debug, Clone, Copy, PartialEq)]
pub struct GbmConfig {
    /// Initial spot, points.
    pub spot: Num,
    /// Annualized drift.
    pub drift: Num,
    /// Annualized volatility, decimal.
    pub vol: Num,
    /// Horizon, years.
    pub horizon_years: Num,
    /// Number of time steps, moved into range.
    pub n_steps: usize,
    /// Number of paths, moved into range.
    pub n_paths: usize,
    /// Seed of the draws.
    pub seed: u64,
    /// Number of full paths retained, at most all.
    pub sample_paths: usize,
    /// Whether draws come in pairs of opposite sign.
    pub antithetic: bool,
}

impl GbmConfig {
    /// A configuration with the default sample paths and independent draws.
    pub fn new(
        spot: Num,
        drift: Num,
        vol: Num,
        horizon_years: Num,
        n_steps: usize,
        n_paths: usize,
        seed: u64,
    ) -> (r: GbmConfig)
        ensures
            r == (GbmConfig {
                spot,
                drift,
                vol,
                horizon_years,
                n_steps,
                n_paths,
                seed,
                sample_paths: MC_DEFAULT_SAMPLE_PATHS,
                antithetic: false,
            }),
    {
        GbmConfig {
            spot,
            drift,
            vol,
            horizon_years,
            n_steps,
            n_paths,
            seed,
            sample_paths: MC_DEFAULT_SAMPLE_PATHS,
            antithetic: false,
        }
    }

    /// Time steps of the simulation.
    #[verifier::allow_in_spec]
    pub fn steps(&self) -> usize
        returns
            (if self.n_steps < MC_MIN_STEPS {
                MC_MIN_STEPS
            } else if self.n_steps > MC_MAX_STEPS {
                MC_MAX_STEPS
            } else {
                self.n_steps
            }),
    {
        if self.n_steps < MC_MIN_STEPS {
            MC_MIN_STEPS
        } else if self.n_steps > MC_MAX_STEPS {
            MC_MAX_STEPS
        } else {
            self.n_steps
        }
    }

    /// Paths of the simulation.
    #[verifier::allow_in_spec]
    pub fn paths(&self) -> usize
        returns
            (if self.n_paths < MC_MIN_PATHS {
                MC_MIN_PATHS
            } else if self.n_paths > MC_MAX_PATHS {
                MC_MAX_PATHS
            } else {
                self.n_paths
            }),
    {
        if self.n_paths < MC_MIN_PATHS {
            MC_MIN_PATHS
        } else if self.n_paths > MC_MAX_PATHS {
            MC_MAX_PATHS
        } else {
            self.n_paths
        }
    }

    /// Sample paths retained.
    #[verifier::allow_in_spec]
    pub fn kept(&self) -> usize
        returns
            (if self.sample_paths < self.paths() {
                self.sample_paths
            } else {
                self.paths()
            }),
    {
        if self.sample_paths < self.paths() {
            self.sample_paths
        } else {
            self.paths()
        }
    }

    /// Standard normal draws that a step takes: one per path, or one per pair.
    #[verifier::allow_in_spec]
    pub fn draws_per_step(&self) -> usize
        returns
            (if self.antithetic {
                ((self.paths() + 1) / 2) as usize
            } else {
                self.paths()
            }),
    {
        if self.antithetic {
            (self.paths() + 1) / 2
        } else {
            self.paths()
        }
    }

    /// What is wrong with a configuration.
    pub open spec fn problem(self) -> Option<QuantError> {
        if !(self.spot.finite() && Num::of(ZERO).flt(self.spot)) {
            Some(QuantError::Domain("MC: spot must be finite and positive"))
        } else if !(self.drift.finite() && self.vol.finite() && Num::of(ZERO).fle(self.vol)) {
            Some(QuantError::Domain("MC: drift/vol must be finite, vol non-negative"))
        } else if !(self.horizon_years.finite() && Num::of(ZERO).flt(self.horizon_years)) {
            Some(QuantError::Domain("MC: horizon must be finite and positive"))
        } else {
            None
        }
    }

    /// Length of a time step, years.
    pub open spec fn dt(self) -> Num {
        self.horizon_years.fdiv(Num::whole(false, self.steps() as nat))
    }

    /// Drift of the log price over a step.
    pub open spec fn drift_term(self) -> Num {
        self.drift.fsub(Num::of(HALF).fmul(self.vol).fmul(self.vol)).fmul(self.dt())
    }

    /// Standard deviation of the log price over a step.
    pub open spec fn vol_term(self) -> Num {
        self.vol.fmul(self.dt().fsqrt())
    }

    /// The exponent by which path `i` moves, from the draws of a step.  Under
    /// antithetic draws, paths `2k` and `2k + 1` share draw `k` with opposite signs.
    pub open spec fn exponent(self, normals: Seq<Num>, i: int) -> Num {
        if !self.antithetic {
            self.drift_term().fadd(self.vol_term().fmul(normals[i]))
        } else if i % 2 == 0 {
            self.drift_term().fadd(self.vol_term().fmul(normals[i / 2]))
        } else {
            self.drift_term().fsub(self.vol_term().fmul(normals[i / 2]))
        }
    }

    /// Validates a configuration.
    pub fn validate(&self) -> (r: Result<(), QuantError>)
        ensures
            match r {
                Ok(_) => self.problem() is None,
                Err(e) => self.problem() == Some(e),
            },
    {
        if !(self.spot.is_finite() && self.spot > Num::of(ZERO)) {
            return Err(QuantError::Domain("MC: spot must be finite and positive"));
        }
        if !(self.drift.is_finite() && self.vol.is_finite() && self.vol >= Num::of(ZERO)) {
            return Err(QuantError::Domain("MC: drift/vol must be finite, vol non-negative"));
        }
        if !(self.horizon_years.is_finite() && self.horizon_years > Num::of(ZERO)) {
            return Err(QuantError::Domain("MC: horizon must be finite and positive"));
        }
        Ok(())
    }
}

/// The exponents of one step, a path each, from its draws.
pub fn gbm_exponents(cfg: &GbmConfig, normals: &Vec<Num>) -> (r: Vec<Num>)
    requires
        normals@.len() == cfg.draws_per_step(),
    ensures
        r@ == Seq::new(cfg.paths() as nat, |i: int| cfg.exponent(normals@, i)),
{
    let dt = cfg.horizon_years / Num::from_u64(cfg.steps() as u64);
    let drift_term = (cfg.drift - Num::of(HALF) * cfg.vol * cfg.vol) * dt;
    let vol_term = cfg.vol * dt.sqrt();
    let n: usize = cfg.paths();
    let mut r: Vec<Num> = Vec::new();
    let mut i: usize = 0;
    while i < n
        invariant
            i <= n == cfg.paths() <= MC_MAX_PATHS,
            normals@.len() == cfg.draws_per_step(),
            dt == cfg.dt(),
            drift_term == cfg.drift_term(),
            vol_term == cfg.vol_term(),
            r@ == Seq::new(i as nat, |i: int| cfg.exponent(normals@, i)),
        decreases n - i,
    {
        if !cfg.antithetic {
            r.push(drift_term + vol_term * normals[i]);
        } else if i % 2 == 0 {
            r.push(drift_term + vol_term * normals[i / 2]);
        } else {
            r.push(drift_term - vol_term * normals[i / 2]);
        }
        i = i + 1;
    }
    r
}

/// The exponent of the analytic mean: drift over the horizon.
pub fn mean_exponent(cfg: &GbmConfig) -> (r: Num)
    ensures
        r == cfg.drift.fmul(cfg.horizon_years),
{
    cfg.drift * cfg.horizon_years
}

/// Percentiles of the price at one step.
#[derive(Debug, Clone, Copy, PartialEq)]
pub struct GbmConeStep {
    /// Step index; 0 is the spot.
    pub step: usize,
    /// Elapsed time, years.
    pub t_years: Num,
    /// 5th percentile, points.
    pub p05: Num,
    /// 25th percentile, points.
    pub p25: Num,
    /// Median, points.
    pub p50: Num,
    /// 75th percentile, points.
    pub p75: Num,
    /// 95th percentile, points.
    pub p95: Num,
}

/// Statistics of the terminal price.
#[derive(Debug, Clone, Copy, PartialEq)]
pub struct GbmTerminalStats {
    /// Sample mean, points.
    pub mean: Num,
    /// Sample standard deviation, points.
    pub std_dev: Num,
    /// Fraction of paths above spot.
    pub prob_above_spot: Num,
    /// Fraction of paths below spot.
    pub prob_below_spot: Num,
    /// Closed-form mean, points.
    pub analytic_mean: Num,
}

/// Result of a simulation.
#[derive(Debug, PartialEq)]
pub struct GbmSimulation {
    /// Percentile cone, one entry per step and one for the start.
    pub cone: Vec<GbmConeStep>,
    /// Terminal statistics.
    pub terminal: GbmTerminalStats,
    /// Retained sample paths, from the start to the end.
    pub sample_paths: Vec<Vec<Num>>,
}

/// The price of path `i` after `step` steps.
pub open spec fn price_at(spot: Num, growth: Seq<Vec<Num>>, i: int, step: nat) -> Num
    decreases step,
{
    if step == 0 {
        spot
    } else {
        price_at(spot, growth, i, (step - 1) as nat).fmul(growth[step - 1]@[i])
    }
}

/// The prices of all paths after `step` steps.
pub open spec fn prices_at(spot: Num, growth: Seq<Vec<Num>>, paths: nat, step: nat) -> Seq<Num> {
    Seq::new(paths, |i: int| price_at(spot, growth, i, step))
}

impl GbmConeStep {
    /// The percentiles of some prices.
    pub open spec fn of_prices(step: usize, t_years: Num, prices: Seq<Num>) -> GbmConeStep {
        let sorted = sorting::sorted(prices);
        GbmConeStep {
            step,
            t_years,
            p05: stats::quantile(sorted, Num::of(P05)),
            p25: stats::quantile(sorted, Num::of(P25)),
            p50: stats::quantile(sorted, Num::of(P50)),
            p75: stats::quantile(sorted, Num::of(P75)),
            p95: stats::quantile(sorted, Num::of(P95)),
        }
    }
}

/// Time elapsed after a step.
pub open spec fn elapsed(cfg: GbmConfig, step: nat) -> Num {
    if step == 0 {
        Num::of(ZERO)
    } else {
        Num::whole(false, step).fmul(cfg.dt())
    }
}

/// The cone up to and without `n` entries.
pub open spec fn cone_of(cfg: GbmConfig, growth: Seq<Vec<Num>>, n: nat) -> Seq<GbmConeStep> {
    Seq::new(
        n,
        |s: int|
            GbmConeStep::of_prices(
                s as usize,
                elapsed(cfg, s as nat),
                prices_at(cfg.spot, growth, cfg.paths() as nat, s as nat),
            ),
    )
}

/// How many prices lie above a level.
pub open spec fn count_above(s: Seq<Num>, level: Num) -> nat
    decreases s.len(),
{
    if s.len() == 0 {
        0
    } else {
        count_above(s.drop_last(), level) + if level.flt(s.last()) {
            1nat
        } else {
            0
        }
    }
}

/// How many prices lie below a level.
pub open spec fn count_below(s: Seq<Num>, level: Num) -> nat
    decreases s.len(),
{
    if s.len() == 0 {
        0
    } else {
        count_below(s.drop_last(), level) + if s.last().flt(level) {
            1nat
        } else {
            0
        }
    }
}

impl GbmTerminalStats {
    /// The statistics of some terminal prices.
    pub open spec fn of_prices(prices: Seq<Num>, spot: Num, mean_growth: Num) -> GbmTerminalStats {
        let n = Num::whole(false, prices.len());
        let mean = stats::mean_of(prices);
        let var = if prices.len() > 1 {
            sums::sum(stats::squared_deviations(prices, mean)).fdiv(n.fsub(Num::of(ONE)))
        } else {
            Num::of(ZERO)
        };
        GbmTerminalStats {
            mean,
            std_dev: var.fsqrt(),
            prob_above_spot: Num::whole(false, count_above(prices, spot)).fdiv(n),
            prob_below_spot: Num::whole(false, count_below(prices, spot)).fdiv(n),
            analytic_mean: spot.fmul(mean_growth),
        }
    }
}

impl GbmSimulation {
    /// The simulation that some growth factors give.
    pub open spec fn is_of(self, cfg: GbmConfig, growth: Seq<Vec<Num>>, mean_growth: Num) -> bool {
        let n = cfg.steps() as nat;
        &&& self.cone@ == cone_of(cfg, growth, n + 1)
        &&& self.terminal == GbmTerminalStats::of_prices(
            prices_at(cfg.spot, growth, cfg.paths() as nat, n),
            cfg.spot,
            mean_growth,
        )
        &&& self.sample_paths@.len() == cfg.kept()
        &&& forall|i: int|
            0 <= i < cfg.kept() ==> (#[trigger] self.sample_paths@[i])@ == Seq::new(
                n + 1,
                |s: int| price_at(cfg.spot, growth, i, s as nat),
            )
    }
}

fn cone_step(step: usize, t_years: Num, values: &Vec<Num>) -> (r: GbmConeStep)
    ensures
        r == GbmConeStep::of_prices(step, t_years, values@),
{
    let sorted = sorting::sort(values);
    GbmConeStep {
        step,
        t_years,
        p05: stats::quantile_sorted(&sorted, Num::of(P05)),
        p25: stats::quantile_sorted(&sorted, Num::of(P25)),
        p50: stats::quantile_sorted(&sorted, Num::of(P50)),
        p75: stats::quantile_sorted(&sorted, Num::of(P75)),
        p95: stats::quantile_sorted(&sorted, Num::of(P95)),
    }
}

fn terminal_stats(prices: &Vec<Num>, spot: Num, mean_growth: Num) -> (r: GbmTerminalStats)
    ensures
        r == GbmTerminalStats::of_prices(prices@, spot, mean_growth),
{
    let n = Num::from_u64(prices.len() as u64);
    let mean = stats::sample_mean(prices);
    let var = if prices.len() > 1 {
        stats::squared_deviation_sum(prices, mean) / (n - Num::of(ONE))
    } else {
        Num::of(ZERO)
    };
    let mut above: u64 = 0;
    let mut below: u64 = 0;
    let mut i: usize = 0;
    let len: usize = prices.len();
    proof {
        assert(prices@.take(0) =~= Seq::<Num>::empty());
    }
    while i < len
        invariant
            i <= len == prices@.len(),
            above == count_above(prices@.take(i as int), spot),
            below == count_below(prices@.take(i as int), spot),
            above <= i,
            below <= i,
        decreases len - i,
    {
        proof {
            assert(prices@.take(i + 1).drop_last() =~= prices@.take(i as int));
        }
        if prices[i] > spot {
            above = above + 1;
        }
        if prices[i] < spot {
            below = below + 1;
        }
        i = i + 1;
    }
    proof {
        assert(prices@.take(i as int) =~= prices@);
    }
    GbmTerminalStats {
        mean,
        std_dev: var.sqrt(),
        prob_above_spot: Num::from_u64(above) / n,
        prob_below_spot: Num::from_u64(below) / n,
        analytic_mean: spot * mean_growth,
    }
}

/// Simulates price paths and summarizes them.
///
/// `growth` holds, for each step, the machine's exponential at each exponent of
/// `gbm_exponents`; `mean_growth` its exponential at `mean_exponent`.
pub fn simulate_gbm(cfg: &GbmConfig, growth: &Vec<Vec<Num>>, mean_growth: Num) -> (r: Result<
    GbmSimulation,
    QuantError,
>)
    requires
        growth@.len() == cfg.steps(),
        forall|s: int| 0 <= s < growth@.len() ==> (#[trigger] growth@[s])@.len() == cfg.paths(),
    ensures
        match r {
            Ok(sim) => cfg.problem() is None && sim.is_of(*cfg, growth@, mean_growth),
            Err(e) => cfg.problem() == Some(e),
        },
{
    match cfg.validate() {
        Ok(_) => {},
        Err(e) => return Err(e),
    }
    let n_steps: usize = cfg.steps();
    let n_paths: usize = cfg.paths();
    let keep: usize = cfg.kept();
    let dt = cfg.horizon_years / Num::from_u64(n_steps as u64);
    let mut current: Vec<Num> = Vec::new();
    let mut i: usize = 0;
    while i < n_paths
        invariant
            i <= n_paths,
            current@ == prices_at(cfg.spot, growth@, i as nat, 0),
        decreases n_paths - i,
    {
        current.push(cfg.spot);
        i = i + 1;
        proof {
            assert(current@ =~= prices_at(cfg.spot, growth@, i as nat, 0));
        }
    }
    let mut sample_paths: Vec<Vec<Num>> = Vec::new();
    let mut i: usize = 0;
    while i < keep
        invariant
            i <= keep,
            sample_paths@.len() == i,
            forall|k: int|
                0 <= k < i ==> (#[trigger] sample_paths@[k])@ == Seq::new(
                    1nat,
                    |s: int| price_at(cfg.spot, growth@, k, s as nat),
                ),
        decreases keep - i,
    {
        let mut path: Vec<Num> = Vec::new();
        path.push(cfg.spot);
        proof {
            assert(path@ =~= Seq::new(
                1nat,
                |s: int| price_at(cfg.spot, growth@, i as int, s as nat),
            ));
        }
        sample_paths.push(path);
        i = i + 1;
    }
    let mut cone: Vec<GbmConeStep> = Vec::new();
    cone.push(cone_step(0, Num::of(ZERO), &current));
    proof {
        assert(cone@ =~= cone_of(*cfg, growth@, 1));
    }
    let mut step: usize = 1;
    while step <= n_steps
        invariant
            1 <= step <= n_steps + 1,
            n_steps == cfg.steps() <= MC_MAX_STEPS,
            n_paths == cfg.paths(),
            keep == cfg.kept() <= n_paths,
            dt == cfg.dt(),
            growth@.len() == cfg.steps(),
            forall|s: int| 0 <= s < growth@.len() ==> (#[trigger] growth@[s])@.len() == cfg.paths(),
            current@ == prices_at(cfg.spot, growth@, n_paths as nat, (step - 1) as nat),
            cone@ == cone_of(*cfg, growth@, step as nat),
            sample_paths@.len() == keep,
            forall|k: int|
                0 <= k < keep ==> (#[trigger] sample_paths@[k])@ == Seq::new(
                    step as nat,
                    |s: int| price_at(cfg.spot, growth@, k, s as nat),
                ),
        decreases n_steps + 1 - step,
    {
        let factors = &growth[step - 1];
        let mut next: Vec<Num> = Vec::new();
        let mut i: usize = 0;
        while i < n_paths
            invariant
                i <= n_paths,
                1 <= step <= n_steps,
                n_steps == growth@.len(),
                factors == growth@[step - 1],
                factors@.len() == n_paths,
                current@ == prices_at(cfg.spot, growth@, n_paths as nat, (step - 1) as nat),
                next@ == prices_at(cfg.spot, growth@, i as nat, step as nat),
            decreases n_paths - i,
        {
            next.push(current[i] * factors[i]);
            i = i + 1;
            proof {
                assert(next@ =~= prices_at(cfg.spot, growth@, i as nat, step as nat));
            }
        }
        current = next;
        let mut k: usize = 0;
        while k < keep
            invariant
                k <= keep <= n_paths,
                1 <= step <= n_steps,
                current@ == prices_at(cfg.spot, growth@, n_paths as nat, step as nat),
                sample_paths@.len() == keep,
                forall|j: int|
                    0 <= j < keep ==> (#[trigger] sample_paths@[j])@ == Seq::new(
                        if j < k {
                            (step + 1) as nat
                        } else {
                            step as nat
                        },
                        |s: int| price_at(cfg.spot, growth@, j, s as nat),
                    ),
            decreases keep - k,
        {
            let ghost was = sample_paths@;
            sample_paths[k].push(current[k]);
            proof {
                assert(sample_paths@[k as int]@ =~= Seq::new(
                    (step + 1) as nat,
                    |s: int| price_at(cfg.spot, growth@, k as int, s as nat),
                ));
                assert forall|j: int| 0 <= j < keep && j != k implies #[trigger] sample_paths@[j]
                    == was[j] by {}
            }
            k = k + 1;
        }
        cone.push(cone_step(step, Num::from_u64(step as u64) * dt, &current));
        step = step + 1;
        proof {
            assert(cone@ =~= cone_of(*cfg, growth@, step as nat));
        }
    }
    let terminal = terminal_stats(&current, cfg.spot, mean_growth);
    Ok(GbmSimulation { cone, terminal, sample_paths })
}

/// No path ends both above and below a level.
pub proof fn lemma_above_and_below(s: Seq<Num>, level: Num)
    ensures
        count_above(s, level) + count_below(s, level) <= s.len(),
    decreases s.len(),
{
    if s.len() > 0 {
        lemma_above_and_below(s.drop_last(), level);
    }
}

/// The fractions above and below spot lie between 0 and 1.
pub proof fn law_terminal_fractions_bounded(prices: Seq<Num>, spot: Num, mean_growth: Num)
    requires
        0 < prices.len() <= MC_MAX_PATHS,
    ensures
        ({
            let t = GbmTerminalStats::of_prices(prices, spot, mean_growth);
            &&& Num::of(ZERO).fle(t.prob_above_spot) && t.prob_above_spot.fle(Num::of(ONE))
            &&& Num::of(ZERO).fle(t.prob_below_spot) && t.prob_below_spot.fle(Num::of(ONE))
        }),
{
    lemma2_to64_rest();
    lemma_above_and_below(prices, spot);
    algebra::lemma_fraction(count_above(prices, spot), prices.len());
    algebra::lemma_fraction(count_below(prices, spot), prices.len());
}

/// The percentiles of a step of the cone are in order, where no way between
/// two neighbouring prices rounds beyond its end.
pub proof fn law_cone_is_ordered(step: usize, t_years: Num, prices: Seq<Num>)
    requires
        1 <= prices.len() <= MC_MAX_PATHS,
        prices.len() == 1 ==> !prices[0].nan(),
        stats::steady(sorting::sorted(prices)),
    ensures
        ({
            let c = GbmConeStep::of_prices(step, t_years, prices);
            c.p05.fle(c.p25) && c.p25.fle(c.p50) && c.p50.fle(c.p75) && c.p75.fle(c.p95)
        }),
{
    broadcast use vstd::seq_lib::group_to_multiset_ensures;

    let s = sorting::sorted(prices);
    sorting::law_sorted_sorts(prices);
    lemma2_to64_rest();
    if prices.len() == 1 {
        assert(prices.to_multiset().count(s[0]) > 0) by {
            assert(s.contains(s[0]));
        }
        assert(prices.contains(s[0]));
    } else {
        stats::law_quantiles_never_fall(s, Num::of(P05), Num::of(P25));
        stats::law_quantiles_never_fall(s, Num::of(P25), Num::of(P50));
        stats::law_quantiles_never_fall(s, Num::of(P50), Num::of(P75));
        stats::law_quantiles_never_fall(s, Num::of(P75), Num::of(P95));
    }
}

/// A quantile of prices that are all the same is that price.
proof fn lemma_level_quantile(s: Seq<Num>, x: Num, p: Num)
    requires
        1 <= s.len() < pow2(53),
        forall|i: int| 0 <= i < s.len() ==> #[trigger] s[i] == x,
        x.finite(),
        Num::of(ZERO).flt(x),
        Num::of(ZERO).fle(p),
        p.fle(Num::of(ONE)),
    ensures
        stats::quantile(s, p) == x,
{
    let n = s.len();
    if n >= 2 {
        stats::lemma_place(p, n);
        let frac = stats::rank_of(p, n).fsub(Num::whole(false, stats::rank_index(p, n)));
        algebra::law_sub_self(x);
        algebra::law_zero_mul(Num::of(ZERO), frac);
        algebra::law_mul_commutes(Num::of(ZERO), frac);
        let z = frac.fmul(Num::of(ZERO));
        algebra::lemma_add_any_zero(x, z);
        let (lo, hi) = (stats::rank_index(p, n) as int, stats::rank_index(p, n) as int + 1);
        assert(s[lo] == x);
        if hi < n {
            assert(s[hi] == x);
        }
    }
}

/// A simulation has one cone entry per step and one for the start, where all
/// five levels are the spot; it keeps as many paths as are asked for and there,
/// each with a price per entry and the spot at its start.
pub proof fn law_simulation_starts_at_spot(
    sim: GbmSimulation,
    cfg: GbmConfig,
    growth: Seq<Vec<Num>>,
    mean_growth: Num,
)
    requires
        cfg.problem() is None,
        sim.is_of(cfg, growth, mean_growth),
    ensures
        sim.cone@.len() == cfg.steps() + 1,
        sim.cone@[0].p05 == cfg.spot,
        sim.cone@[0].p25 == cfg.spot,
        sim.cone@[0].p50 == cfg.spot,
        sim.cone@[0].p75 == cfg.spot,
        sim.cone@[0].p95 == cfg.spot,
        sim.sample_paths@.len() == cfg.kept(),
        forall|i: int|
            0 <= i < cfg.kept() ==> (#[trigger] sim.sample_paths@[i])@.len() == cfg.steps() + 1
                && sim.sample_paths@[i]@[0] == cfg.spot,
{
    broadcast use vstd::seq_lib::group_to_multiset_ensures;

    let prices = prices_at(cfg.spot, growth, cfg.paths() as nat, 0);
    let s = sorting::sorted(prices);
    sorting::law_sorted_sorts(prices);
    lemma2_to64_rest();
    assert forall|i: int| 0 <= i < s.len() implies #[trigger] s[i] == cfg.spot by {
        assert(s.contains(s[i]));
        assert(prices.to_multiset().count(s[i]) > 0);
        assert(prices.contains(s[i]));
    }
    lemma_level_quantile(s, cfg.spot, Num::of(P05));
    lemma_level_quantile(s, cfg.spot, Num::of(P25));
    lemma_level_quantile(s, cfg.spot, Num::of(P50));
    lemma_level_quantile(s, cfg.spot, Num::of(P75));
    lemma_level_quantile(s, cfg.spot, Num::of(P95));
}

} // verus!
