//! Book-level greeks, the per-expiry dealer gamma curve, and the charm and
//! vanna decay clock.
//!
//! Cost basis is signed, so a short position profits when its price falls.
//! The curve has one node per expiry present in the input and names the
//! strike with the largest net exposure of each.

use crate::additive;
use crate::black_scholes::{self, BsGreeks, BsInputs, BsTerms, QuantError};
use crate::consts::{ONE, ZERO};
use crate::exact;
use crate::market::{ExpiryDate, OptionRight};
use crate::multileg::{
    self, is_non_negative_finite, is_positive_finite, qty_value, AggregateGreeks, MarketInputs,
};
use crate::num::Num;
use crate::sorting;
use crate::sums;
use vstd::prelude::*;

verus! {

/// Spot move that exposures are quoted for, fraction (0.01).
pub const GEX_PCT_MOVE: u64 = 0x3F84_7AE1_47AE_147B;

/// Trading days per year (252.0).
pub const TRADING_DAYS: u64 = 0x406F_8000_0000_0000;

/// Length of a regular session, hours (6.5).
pub const SESSION_HOURS: u64 = 0x401A_0000_0000_0000;

/// Sampling step of the decay clock, hours (0.5).
pub const DECAY_CLOCK_STEP_HOURS: u64 = 0x3FE0_0000_0000_0000;

/// Sign of a put exposure (-1.0).
pub const MINUS_ONE: u64 = 0xBFF0_0000_0000_0000;

/// Points of the session grid, from the full session down to zero inclusive.
pub const DECAY_CLOCK_POINTS: u32 = 14;

/// Errors from portfolio aggregation.
#[derive(Debug, Clone, Copy, PartialEq)]
pub enum PortfolioError {
    /// An input is outside its domain.
    Domain(&'static str),
    /// Error from the pricing kernel.
    Quant(QuantError),
}

/// One book position.
#[derive(Debug, Clone, Copy, PartialEq)]
pub enum Position {
    /// Shares of the underlying.
    Stock {
        /// Signed share count.
        quantity: Num,
        /// Entry price per share.
        entry_price: Num,
        /// Current price per share.
        current_price: Num,
    },
    /// An option line.
    Option {
        /// Call or put.
        right: OptionRight,
        /// Strike, points.
        strike: Num,
        /// Time to expiry, years.
        t_years: Num,
        /// Implied vol, annualized decimal.
        iv: Num,
        /// Signed contract count.
        quantity: i32,
        /// Entry premium per share.
        entry_price: Num,
        /// Current premium per share.
        current_price: Num,
        /// Shares per contract.
        multiplier: Num,
    },
}

impl Position {
    /// What is wrong with a position.
    pub open spec fn problem(self, market: MarketInputs) -> Option<PortfolioError> {
        match self {
            Position::Stock { quantity, entry_price, current_price } => if quantity.finite()
                && multileg::non_negative_finite(entry_price) && multileg::non_negative_finite(
                current_price,
            ) {
                None
            } else {
                Some(
                    PortfolioError::Domain(
                        "stock position fields must be finite and prices non-negative",
                    ),
                )
            },
            Position::Option { entry_price, current_price, multiplier, .. } => {
                if !(multileg::non_negative_finite(entry_price) && multileg::non_negative_finite(
                    current_price,
                )) {
                    Some(
                        PortfolioError::Domain(
                            "option entry/current prices must be non-negative and finite",
                        ),
                    )
                } else if !multileg::positive_finite(multiplier) {
                    Some(PortfolioError::Domain("option multiplier must be positive and finite"))
                } else if !self.contract(market).in_domain() {
                    Some(PortfolioError::Quant(QuantError::Domain("BsInputs out of domain")))
                } else {
                    None
                }
            },
        }
    }

    /// The contract of an option line.
    pub open spec fn contract(self, market: MarketInputs) -> BsInputs {
        BsInputs {
            spot: market.spot,
            strike: self->Option_strike,
            t_years: self->Option_t_years,
            vol: self->Option_iv,
            rate: market.rate,
            div_yield: market.div_yield,
        }
    }

    /// The contract that the kernel prices for a position; none for stock.
    pub fn kernel_inputs(&self, market: &MarketInputs) -> (r: Option<BsInputs>)
        ensures
            r == (if self is Option {
                Some(self.contract(*market))
            } else {
                None
            }),
    {
        match *self {
            Position::Stock { .. } => None,
            Position::Option { strike, t_years, iv, .. } => Some(
                BsInputs {
                    spot: market.spot,
                    strike,
                    t_years,
                    vol: iv,
                    rate: market.rate,
                    div_yield: market.div_yield,
                },
            ),
        }
    }
}

/// Mark, signed cost, profit and net greeks of a book.
#[derive(Debug, Clone, Copy, PartialEq)]
pub struct PortfolioSummary {
    /// Mark-to-market value, signed.
    pub market_value: Num,
    /// Signed cost basis.
    pub cost_basis: Num,
    /// Mark less cost basis.
    pub total_profit: Num,
    /// Net greeks; options scale by quantity and multiplier, stock adds to delta.
    pub greeks: AggregateGreeks,
}

/// Running totals of a book.
#[derive(Debug, Clone, Copy, PartialEq)]
pub struct BookTotals {
    /// Mark so far.
    pub market_value: Num,
    /// Cost so far.
    pub cost_basis: Num,
    /// Greeks so far.
    pub greeks: AggregateGreeks,
}

impl BookTotals {
    /// Totals of an empty book.
    #[verifier::allow_in_spec]
    pub fn empty() -> BookTotals
        returns
            (BookTotals {
                market_value: Num::of(ZERO),
                cost_basis: Num::of(ZERO),
                greeks: AggregateGreeks::zero(),
            }),
    {
        BookTotals {
            market_value: Num::of(ZERO),
            cost_basis: Num::of(ZERO),
            greeks: AggregateGreeks::zero(),
        }
    }

    /// Totals with one more position.
    pub open spec fn plus(self, p: Position, market: MarketInputs, terms: BsTerms) -> BookTotals {
        match p {
            Position::Stock { quantity, entry_price, current_price } => BookTotals {
                market_value: self.market_value.fadd(current_price.fmul(quantity)),
                cost_basis: self.cost_basis.fadd(entry_price.fmul(quantity)),
                greeks: AggregateGreeks {
                    delta: self.greeks.delta.fadd(quantity),
                    ..self.greeks
                },
            },
            Position::Option { right, quantity, entry_price, current_price, multiplier, .. } => {
                let scale = multileg::qty_num(quantity).fmul(multiplier);
                BookTotals {
                    market_value: self.market_value.fadd(current_price.fmul(scale)),
                    cost_basis: self.cost_basis.fadd(entry_price.fmul(scale)),
                    greeks: self.greeks.plus_scaled(
                        BsGreeks::of_contract(p.contract(market), right, terms),
                        scale,
                    ),
                }
            },
        }
    }
}

/// Totals of the first `n` positions.
pub open spec fn book_totals(
    positions: Seq<Position>,
    market: MarketInputs,
    terms: Seq<BsTerms>,
    n: nat,
) -> BookTotals
    decreases n,
{
    if n == 0 {
        BookTotals::empty()
    } else {
        book_totals(positions, market, terms, (n - 1) as nat).plus(
            positions[n - 1],
            market,
            terms[n - 1],
        )
    }
}

/// The lines of a book's totals.
pub enum BookLine {
    MarketValue,
    CostBasis,
    Delta,
    Gamma,
    Theta,
    Vega,
    Vanna,
    Charm,
}

impl BookTotals {
    /// One line of the totals.
    pub open spec fn line(self, l: BookLine) -> Num {
        match l {
            BookLine::MarketValue => self.market_value,
            BookLine::CostBasis => self.cost_basis,
            BookLine::Delta => self.greeks.delta,
            BookLine::Gamma => self.greeks.gamma,
            BookLine::Theta => self.greeks.theta,
            BookLine::Vega => self.greeks.vega,
            BookLine::Vanna => self.greeks.vanna,
            BookLine::Charm => self.greeks.charm,
        }
    }
}

impl Position {
    /// What a position adds to a line; stock adds to no greek but delta.
    pub open spec fn adds(self, l: BookLine, market: MarketInputs, terms: BsTerms) -> Option<Num> {
        match self {
            Position::Stock { quantity, entry_price, current_price } => match l {
                BookLine::MarketValue => Some(current_price.fmul(quantity)),
                BookLine::CostBasis => Some(entry_price.fmul(quantity)),
                BookLine::Delta => Some(quantity),
                _ => None,
            },
            Position::Option { right, quantity, entry_price, current_price, multiplier, .. } => {
                let scale = multileg::qty_num(quantity).fmul(multiplier);
                let g = BsGreeks::of_contract(self.contract(market), right, terms);
                Some(
                    match l {
                        BookLine::MarketValue => current_price.fmul(scale),
                        BookLine::CostBasis => entry_price.fmul(scale),
                        BookLine::Delta => g.delta.fmul(scale),
                        BookLine::Gamma => g.gamma.fmul(scale),
                        BookLine::Theta => g.theta.fmul(scale),
                        BookLine::Vega => g.vega.fmul(scale),
                        BookLine::Vanna => g.vanna.fmul(scale),
                        BookLine::Charm => g.charm.fmul(scale),
                    },
                )
            },
        }
    }
}

/// What each position adds to a line.
pub open spec fn additions(
    positions: Seq<Position>,
    market: MarketInputs,
    terms: Seq<BsTerms>,
    l: BookLine,
) -> Seq<Option<Num>> {
    Seq::new(positions.len(), |i: int| positions[i].adds(l, market, terms[i]))
}

/// A line of the totals is the running sum of what the positions add to it.
proof fn lemma_line_is_sum(
    positions: Seq<Position>,
    market: MarketInputs,
    terms: Seq<BsTerms>,
    n: nat,
    l: BookLine,
)
    requires
        n <= positions.len(),
    ensures
        book_totals(positions, market, terms, n).line(l) == sums::sum_some(
            additions(positions, market, terms, l).take(n as int),
        ),
    decreases n,
{
    let s = additions(positions, market, terms, l);
    if n > 0 {
        lemma_line_is_sum(positions, market, terms, (n - 1) as nat, l);
        assert(s.take(n as int).drop_last() =~= s.take(n - 1));
        assert(s.take(n as int).last() == s[n - 1]);
    }
}

/// Every line of two books' totals adds up to that of the book of both, up to
/// rounding.
pub proof fn law_books_nearly_add_up(
    a: Seq<Position>,
    b: Seq<Position>,
    market: MarketInputs,
    at: Seq<BsTerms>,
    bt: Seq<BsTerms>,
    l: BookLine,
)
    requires
        a.len() == at.len(),
        b.len() == bt.len(),
        a.len() + b.len() <= 0x8_0000_0000_0000,
        additive::all_finite(additions(a, market, at, l)),
        additive::all_finite(additions(b, market, bt, l)),
        book_totals(a, market, at, a.len()).line(l).finite(),
        book_totals(b, market, bt, b.len()).line(l).finite(),
        book_totals(a + b, market, at + bt, a.len() + b.len()).line(l).finite(),
    ensures
        ({
            let x = book_totals(a, market, at, a.len()).line(l).exact();
            let y = book_totals(b, market, bt, b.len()).line(l).exact();
            let both = book_totals(a + b, market, at + bt, a.len() + b.len()).line(l).exact();
            let gross = additive::exact_gross(additions(a, market, at, l)) + additive::exact_gross(
                additions(b, market, bt, l),
            );
            exact::rabs(both - (x + y)) <= 2real * additive::slack(a.len() + b.len()) * gross
        }),
{
    let (s, t) = (additions(a, market, at, l), additions(b, market, bt, l));
    let u = additions(a + b, market, at + bt, l);
    lemma_line_is_sum(a, market, at, a.len(), l);
    lemma_line_is_sum(b, market, bt, b.len(), l);
    lemma_line_is_sum(a + b, market, at + bt, a.len() + b.len(), l);
    assert(s.take(a.len() as int) =~= s);
    assert(t.take(b.len() as int) =~= t);
    assert(u.take((a.len() + b.len()) as int) =~= u);
    assert(u =~= s + t);
    additive::law_sums_nearly_add_up(s, t);
}

/// The problem of the first of `n` positions that has one.
pub open spec fn first_position_problem(
    positions: Seq<Position>,
    market: MarketInputs,
    n: nat,
) -> Option<PortfolioError>
    decreases n,
{
    if n == 0 {
        None
    } else {
        match first_position_problem(positions, market, (n - 1) as nat) {
            Some(e) => Some(e),
            None => positions[n - 1].problem(market),
        }
    }
}

proof fn lemma_first_position_problem(
    positions: Seq<Position>,
    market: MarketInputs,
    n: nat,
    m: nat,
)
    requires
        n <= m,
        first_position_problem(positions, market, n) is Some,
    ensures
        first_position_problem(positions, market, m) == first_position_problem(
            positions,
            market,
            n,
        ),
    decreases m,
{
    if n < m {
        lemma_first_position_problem(positions, market, n, (m - 1) as nat);
    }
}

/// Net greeks and profit of a book.  An empty book adds up to zeros.
///
/// `terms` holds one entry per position: for an option line the machine's
/// terms of its contract (see `Position::kernel_inputs`), for stock anything.
pub fn aggregate_portfolio(
    positions: &Vec<Position>,
    market: &MarketInputs,
    terms: &Vec<BsTerms>,
) -> (r: Result<PortfolioSummary, PortfolioError>)
    requires
        terms@.len() == positions@.len(),
    ensures
        match r {
            Ok(s) => {
                let t = book_totals(positions@, *market, terms@, positions@.len());
                &&& first_position_problem(positions@, *market, positions@.len()) is None
                &&& s == (PortfolioSummary {
                    market_value: t.market_value,
                    cost_basis: t.cost_basis,
                    total_profit: t.market_value.fsub(t.cost_basis),
                    greeks: t.greeks,
                })
            },
            Err(e) => first_position_problem(positions@, *market, positions@.len()) == Some(e),
        },
{
    let mut t = BookTotals::empty();
    let mut i: usize = 0;
    while i < positions.len()
        invariant
            i <= positions@.len() == terms@.len(),
            t == book_totals(positions@, *market, terms@, i as nat),
            first_position_problem(positions@, *market, i as nat) is None,
        decreases positions@.len() - i,
    {
        let p = positions[i];
        match add_position(&t, &p, market, &terms[i]) {
            Ok(n) => {
                t = n;
            },
            Err(e) => {
                proof {
                    lemma_first_position_problem(
                        positions@,
                        *market,
                        (i + 1) as nat,
                        positions@.len(),
                    );
                }
                return Err(e);
            },
        }
        i = i + 1;
    }
    Ok(
        PortfolioSummary {
            market_value: t.market_value,
            cost_basis: t.cost_basis,
            total_profit: t.market_value - t.cost_basis,
            greeks: t.greeks,
        },
    )
}

fn add_position(t: &BookTotals, p: &Position, market: &MarketInputs, terms: &BsTerms) -> (r: Result<
    BookTotals,
    PortfolioError,
>)
    ensures
        match r {
            Ok(n) => p.problem(*market) is None && n == t.plus(*p, *market, *terms),
            Err(e) => p.problem(*market) == Some(e),
        },
{
    match *p {
        Position::Stock { quantity, entry_price, current_price } => {
            if !(quantity.is_finite() && is_non_negative_finite(entry_price)
                && is_non_negative_finite(current_price)) {
                return Err(
                    PortfolioError::Domain(
                        "stock position fields must be finite and prices non-negative",
                    ),
                );
            }
            let mut greeks = t.greeks;
            greeks.delta = greeks.delta + quantity;
            Ok(
                BookTotals {
                    market_value: t.market_value + current_price * quantity,
                    cost_basis: t.cost_basis + entry_price * quantity,
                    greeks,
                },
            )
        },
        Position::Option {
            right,
            strike,
            t_years,
            iv,
            quantity,
            entry_price,
            current_price,
            multiplier,
        } => {
            if !(is_non_negative_finite(entry_price) && is_non_negative_finite(current_price)) {
                return Err(
                    PortfolioError::Domain(
                        "option entry/current prices must be non-negative and finite",
                    ),
                );
            }
            if !is_positive_finite(multiplier) {
                return Err(
                    PortfolioError::Domain("option multiplier must be positive and finite"),
                );
            }
            let inputs = BsInputs {
                spot: market.spot,
                strike,
                t_years,
                vol: iv,
                rate: market.rate,
                div_yield: market.div_yield,
            };
            let g = match black_scholes::greeks(&inputs, right, terms) {
                Ok(g) => g,
                Err(e) => return Err(PortfolioError::Quant(e)),
            };
            let scale = qty_value(quantity) * multiplier;
            Ok(
                BookTotals {
                    market_value: t.market_value + current_price * scale,
                    cost_basis: t.cost_basis + entry_price * scale,
                    greeks: t.greeks.with_scaled(&g, scale),
                },
            )
        },
    }
}

/// One chain contract of the expiry curve.
#[derive(Debug, Clone, Copy, PartialEq)]
pub struct GexContract {
    /// Expiry of the contract.
    pub expiry: ExpiryDate,
    /// Strike, points.
    pub strike: Num,
    /// Call or put.
    pub right: OptionRight,
    /// Gamma, per share per point.
    pub gamma: Num,
    /// Open interest, contracts.
    pub open_interest: Num,
}

impl GexContract {
    /// What is wrong with a contract.
    pub open spec fn problem(self) -> Option<PortfolioError> {
        if !multileg::positive_finite(self.strike) {
            Some(PortfolioError::Domain("contract strike must be positive and finite"))
        } else if !self.gamma.finite() {
            Some(PortfolioError::Domain("contract gamma must be finite"))
        } else if !multileg::non_negative_finite(self.open_interest) {
            Some(PortfolioError::Domain("contract open interest must be non-negative and finite"))
        } else {
            None
        }
    }

    /// Signed exposure per 1% move: calls positive, puts negative.
    pub open spec fn exposure(self, spot: Num, multiplier: Num) -> Num {
        let sign = match self.right {
            OptionRight::Call => Num::of(ONE),
            OptionRight::Put => Num::of(MINUS_ONE),
        };
        self.gamma.fmul(self.open_interest).fmul(multiplier).fmul(spot).fmul(spot).fmul(
            Num::of(GEX_PCT_MOVE),
        ).fmul(sign)
    }
}

/// Net dealer gamma exposure of one expiry.
#[derive(Debug, Clone, Copy, PartialEq)]
pub struct ExpiryGexNode {
    /// The expiry.
    pub expiry: ExpiryDate,
    /// Net exposure per 1% move.
    pub total_gex: Num,
    /// Call side.
    pub call_gex: Num,
    /// Put side.
    pub put_gex: Num,
    /// Strike of the largest net exposure; none when every strike nets to zero.
    pub dominant_strike: Option<Num>,
}

/// A contract reduced to its exposure.
#[derive(Debug, Clone, Copy, PartialEq)]
pub struct GexRow {
    /// Expiry of the contract.
    pub expiry: ExpiryDate,
    /// Strike, points.
    pub strike: Num,
    /// Call or put.
    pub right: OptionRight,
    /// Signed exposure.
    pub gex: Num,
}

impl GexRow {
    /// The row of a contract.
    pub open spec fn of_contract(c: GexContract, spot: Num, multiplier: Num) -> GexRow {
        GexRow {
            expiry: c.expiry,
            strike: c.strike,
            right: c.right,
            gex: c.exposure(spot, multiplier),
        }
    }
}

/// Whether a date comes before another.
pub open spec fn date_before(a: ExpiryDate, b: ExpiryDate) -> bool {
    a.before(b)
}

fn is_date_before(a: ExpiryDate, b: ExpiryDate) -> (r: bool)
    ensures
        r == date_before(a, b),
{
    a.year < b.year || (a.year == b.year && (a.month < b.month || (a.month == b.month && a.day
        < b.day)))
}

/// Order of rows: by expiry, then by strike.
pub open spec fn row_before(a: GexRow, b: GexRow) -> bool {
    date_before(a.expiry, b.expiry) || (a.expiry == b.expiry && a.strike.rank() < b.strike.rank())
}

/// The rows of a chain by expiry and strike; equal ones in input order.
pub open spec fn rows_of(contracts: Seq<GexContract>, spot: Num, multiplier: Num) -> Seq<GexRow> {
    sorting::stable_sorted(
        contracts.map_values(|c: GexContract| GexRow::of_contract(c, spot, multiplier)),
        |a: GexRow, b: GexRow| row_before(a, b),
    )
}

/// End of the run of rows with the expiry of row `i`, looked for from `j` on.
pub open spec fn bucket_end(rows: Seq<GexRow>, i: int, j: int) -> int
    decreases rows.len() - j,
{
    if j < rows.len() && rows[j].expiry == rows[i].expiry {
        bucket_end(rows, i, j + 1)
    } else {
        j
    }
}

/// End of the run of rows with the strike of row `i`, looked for from `j` on.
pub open spec fn strike_end(rows: Seq<GexRow>, i: int, j: int) -> int
    decreases rows.len() - j,
{
    if j < rows.len() && rows[i].strike.feq(rows[j].strike) {
        strike_end(rows, i, j + 1)
    } else {
        j
    }
}

pub proof fn lemma_bucket_end(rows: Seq<GexRow>, i: int, j: int)
    requires
        0 <= i <= j <= rows.len(),
    ensures
        j <= bucket_end(rows, i, j) <= rows.len(),
        forall|k: int| j <= k < bucket_end(rows, i, j) ==> (#[trigger] rows[k]).expiry == rows[i].expiry,
        bucket_end(rows, i, j) < rows.len() ==> rows[bucket_end(rows, i, j)].expiry
            != rows[i].expiry,
    decreases rows.len() - j,
{
    if j < rows.len() && rows[j].expiry == rows[i].expiry {
        lemma_bucket_end(rows, i, j + 1);
    }
}

pub proof fn lemma_strike_end(rows: Seq<GexRow>, i: int, j: int)
    requires
        0 <= i <= j <= rows.len(),
    ensures
        j <= strike_end(rows, i, j) <= rows.len(),
    decreases rows.len() - j,
{
    if j < rows.len() && rows[i].strike.feq(rows[j].strike) {
        lemma_strike_end(rows, i, j + 1);
    }
}

/// Exposures of the first `n` rows added up, of one right or of both.
pub open spec fn added(rows: Seq<GexRow>, right: Option<OptionRight>, n: nat) -> Num
    decreases n,
{
    if n == 0 {
        Num::of(ZERO)
    } else {
        let rest = added(rows, right, (n - 1) as nat);
        if right is None || right == Some(rows[n - 1].right) {
            rest.fadd(rows[n - 1].gex)
        } else {
            rest
        }
    }
}

/// Exposures of rows `i` to `j`, the first one taken as it is.
pub open spec fn run_sum(rows: Seq<GexRow>, i: int, j: int) -> Num
    decreases j - i,
{
    if j <= i + 1 {
        rows[i].gex
    } else {
        run_sum(rows, i, j - 1).fadd(rows[j - 1].gex)
    }
}

/// The better of a dominant strike and a run's: the larger net exposure, above zero.
pub open spec fn better(best: Option<(Num, Num)>, strike: Num, sum: Num) -> Option<(Num, Num)> {
    if Num::of(ZERO).flt(sum.fabs()) && (best is None || (best->0).1.flt(sum.fabs())) {
        Some((strike, sum.fabs()))
    } else {
        best
    }
}

/// The dominant strike among the strike runs from row `i` on.
pub open spec fn dominant(rows: Seq<GexRow>, i: int, best: Option<(Num, Num)>) -> Option<(Num, Num)>
    decreases rows.len() - i,
{
    if 0 <= i < rows.len() {
        proof {
            lemma_strike_end(rows, i, i + 1);
        }
        let j = strike_end(rows, i, i + 1);
        dominant(rows, j, better(best, rows[i].strike, run_sum(rows, i, j)))
    } else {
        best
    }
}

impl ExpiryGexNode {
    /// The node of the rows of one expiry.
    pub open spec fn of_rows(rows: Seq<GexRow>) -> ExpiryGexNode {
        ExpiryGexNode {
            expiry: rows[0].expiry,
            total_gex: added(rows, None, rows.len()),
            call_gex: added(rows, Some(OptionRight::Call), rows.len()),
            put_gex: added(rows, Some(OptionRight::Put), rows.len()),
            dominant_strike: match dominant(rows, 0, None) {
                Some((k, _)) => Some(k),
                None => None,
            },
        }
    }
}

/// One node per run of equal expiries from row `i` on.
pub open spec fn nodes_from(rows: Seq<GexRow>, i: int) -> Seq<ExpiryGexNode>
    decreases rows.len() - i,
{
    if 0 <= i < rows.len() {
        proof {
            lemma_bucket_end(rows, i, i + 1);
        }
        let j = bucket_end(rows, i, i + 1);
        seq![ExpiryGexNode::of_rows(rows.subrange(i, j))] + nodes_from(rows, j)
    } else {
        Seq::empty()
    }
}

/// The problem of the first of `n` contracts that has one.
pub open spec fn first_contract_problem(contracts: Seq<GexContract>, n: nat) -> Option<
    PortfolioError,
>
    decreases n,
{
    if n == 0 {
        None
    } else {
        match first_contract_problem(contracts, (n - 1) as nat) {
            Some(e) => Some(e),
            None => contracts[n - 1].problem(),
        }
    }
}

proof fn lemma_first_contract_problem(contracts: Seq<GexContract>, n: nat, m: nat)
    requires
        n <= m,
        first_contract_problem(contracts, n) is Some,
    ensures
        first_contract_problem(contracts, m) == first_contract_problem(contracts, n),
    decreases m,
{
    if n < m {
        lemma_first_contract_problem(contracts, n, (m - 1) as nat);
    }
}

/// What is wrong with the inputs of the expiry curve.
pub open spec fn curve_problem(contracts: Seq<GexContract>, spot: Num, multiplier: Num) -> Option<
    PortfolioError,
> {
    if !multileg::positive_finite(spot) {
        Some(PortfolioError::Domain("spot must be positive and finite"))
    } else if !multileg::positive_finite(multiplier) {
        Some(PortfolioError::Domain("multiplier must be positive and finite"))
    } else {
        first_contract_problem(contracts, contracts.len())
    }
}

fn contract_row(c: &GexContract, spot: Num, multiplier: Num) -> (r: Result<GexRow, PortfolioError>)
    ensures
        match r {
            Ok(row) => c.problem() is None && row == GexRow::of_contract(*c, spot, multiplier),
            Err(e) => c.problem() == Some(e),
        },
{
    if !is_positive_finite(c.strike) {
        return Err(PortfolioError::Domain("contract strike must be positive and finite"));
    }
    if !c.gamma.is_finite() {
        return Err(PortfolioError::Domain("contract gamma must be finite"));
    }
    if !is_non_negative_finite(c.open_interest) {
        return Err(
            PortfolioError::Domain("contract open interest must be non-negative and finite"),
        );
    }
    let sign = match c.right {
        OptionRight::Call => Num::of(ONE),
        OptionRight::Put => Num::of(MINUS_ONE),
    };
    let gex = c.gamma * c.open_interest * multiplier * spot * spot * Num::of(GEX_PCT_MOVE) * sign;
    Ok(GexRow { expiry: c.expiry, strike: c.strike, right: c.right, gex })
}

fn node_of(rows: &Vec<GexRow>, lo: usize, hi: usize) -> (r: ExpiryGexNode)
    requires
        lo < hi <= rows@.len(),
    ensures
        r == ExpiryGexNode::of_rows(rows@.subrange(lo as int, hi as int)),
{
    let ghost bucket = rows@.subrange(lo as int, hi as int);
    let mut total_gex = Num::of(ZERO);
    let mut call_gex = Num::of(ZERO);
    let mut put_gex = Num::of(ZERO);
    let mut i: usize = lo;
    while i < hi
        invariant
            lo <= i <= hi <= rows@.len(),
            bucket == rows@.subrange(lo as int, hi as int),
            total_gex == added(bucket, None, (i - lo) as nat),
            call_gex == added(bucket, Some(OptionRight::Call), (i - lo) as nat),
            put_gex == added(bucket, Some(OptionRight::Put), (i - lo) as nat),
        decreases hi - i,
    {
        let row = rows[i];
        proof {
            assert(bucket[i - lo] == row);
        }
        total_gex = total_gex + row.gex;
        match row.right {
            OptionRight::Call => {
                call_gex = call_gex + row.gex;
            },
            OptionRight::Put => {
                put_gex = put_gex + row.gex;
            },
        }
        i = i + 1;
    }
    let mut best: Option<(Num, Num)> = None;
    let mut i: usize = lo;
    while i < hi
        invariant
            lo <= i <= hi <= rows@.len(),
            bucket == rows@.subrange(lo as int, hi as int),
            dominant(bucket, 0, None) == dominant(bucket, i - lo, best),
        decreases hi - i,
    {
        let strike = rows[i].strike;
        let mut sum = rows[i].gex;
        let mut j: usize = i + 1;
        proof {
            assert(bucket[i - lo] == rows@[i as int]);
        }
        while j < hi && strike == rows[j].strike
            invariant
                lo <= i < j <= hi <= rows@.len(),
                bucket == rows@.subrange(lo as int, hi as int),
                strike == bucket[i - lo].strike,
                sum == run_sum(bucket, i - lo, j - lo),
                strike_end(bucket, i - lo, i - lo + 1) == strike_end(bucket, i - lo, j - lo),
            decreases hi - j,
        {
            proof {
                assert(bucket[j - lo] == rows@[j as int]);
            }
            sum = sum + rows[j].gex;
            j = j + 1;
        }
        proof {
            if j < hi {
                assert(bucket[j - lo] == rows@[j as int]);
            }
            assert(strike_end(bucket, i - lo, j - lo) == j - lo);
        }
        let size = sum.abs();
        let wins = match best {
            None => true,
            Some((_, b)) => b < size,
        };
        if size > Num::of(ZERO) && wins {
            best = Some((strike, size));
        }
        i = j;
    }
    ExpiryGexNode {
        expiry: rows[lo].expiry,
        total_gex,
        call_gex,
        put_gex,
        dominant_strike: match best {
            Some((k, _)) => Some(k),
            None => None,
        },
    }
}

/// Net dealer gamma exposure per expiry, ascending; calls count positive and
/// puts negative.
pub fn expiry_gex_curve(contracts: &Vec<GexContract>, spot: Num, multiplier: Num) -> (r: Result<
    Vec<ExpiryGexNode>,
    PortfolioError,
>)
    ensures
        match r {
            Ok(curve) => {
                &&& curve_problem(contracts@, spot, multiplier) is None
                &&& curve@ == nodes_from(rows_of(contracts@, spot, multiplier), 0)
            },
            Err(e) => curve_problem(contracts@, spot, multiplier) == Some(e),
        },
{
    if !is_positive_finite(spot) {
        return Err(PortfolioError::Domain("spot must be positive and finite"));
    }
    if !is_positive_finite(multiplier) {
        return Err(PortfolioError::Domain("multiplier must be positive and finite"));
    }
    let mut raw: Vec<GexRow> = Vec::new();
    let mut i: usize = 0;
    while i < contracts.len()
        invariant
            i <= contracts@.len(),
            raw@.len() == i,
            multileg::positive_finite(spot),
            multileg::positive_finite(multiplier),
            first_contract_problem(contracts@, i as nat) is None,
            forall|k: int|
                0 <= k < i ==> raw@[k] == GexRow::of_contract(contracts@[k], spot, multiplier),
        decreases contracts@.len() - i,
    {
        match contract_row(&contracts[i], spot, multiplier) {
            Ok(row) => {
                raw.push(row);
            },
            Err(e) => {
                proof {
                    lemma_first_contract_problem(contracts@, (i + 1) as nat, contracts@.len());
                }
                return Err(e);
            },
        }
        i = i + 1;
    }
    proof {
        assert(raw@ =~= contracts@.map_values(
            |c: GexContract| GexRow::of_contract(c, spot, multiplier),
        ));
    }
    let ghost order = |a: GexRow, b: GexRow| row_before(a, b);
    let less = |a: GexRow, b: GexRow| -> (c: bool)
        ensures
            c == row_before(a, b),
        {
            is_date_before(a.expiry, b.expiry) || (a.expiry == b.expiry && a.strike.before(
                b.strike,
            ))
        };
    let rows = sorting::sort_stable(&raw, less, Ghost(order));
    let mut curve: Vec<ExpiryGexNode> = Vec::new();
    let mut i: usize = 0;
    proof {
        assert(curve@ + nodes_from(rows@, 0) =~= nodes_from(rows@, 0));
    }
    while i < rows.len()
        invariant
            i <= rows@.len(),
            curve@ + nodes_from(rows@, i as int) == nodes_from(rows@, 0),
        decreases rows@.len() - i,
    {
        let expiry = rows[i].expiry;
        let mut j: usize = i + 1;
        while j < rows.len() && rows[j].expiry == expiry
            invariant
                i < j <= rows@.len(),
                expiry == rows@[i as int].expiry,
                bucket_end(rows@, i as int, i + 1) == bucket_end(rows@, i as int, j as int),
            decreases rows@.len() - j,
        {
            j = j + 1;
        }
        let ghost done = curve@;
        curve.push(node_of(&rows, i, j));
        proof {
            assert(curve@ + nodes_from(rows@, j as int) =~= done + nodes_from(rows@, i as int));
        }
        i = j;
    }
    proof {
        assert(curve@ =~= curve@ + nodes_from(rows@, i as int));
    }
    Ok(curve)
}

/// Nodes come strictly in order of expiry, so each expiry has one node.
pub proof fn law_curve_ascends(rows: Seq<GexRow>, i: int)
    requires
        0 <= i <= rows.len(),
        forall|a: int, b: int|
            0 <= a < b < rows.len() ==> !row_before(#[trigger] rows[b], #[trigger] rows[a]),
    ensures
        forall|a: int, b: int|
            0 <= a < b < nodes_from(rows, i).len() ==> date_before(
                (#[trigger] nodes_from(rows, i)[a]).expiry,
                (#[trigger] nodes_from(rows, i)[b]).expiry,
            ),
        forall|a: int|
            0 <= a < nodes_from(rows, i).len() ==> !date_before(
                (#[trigger] nodes_from(rows, i)[a]).expiry,
                rows[i].expiry,
            ),
    decreases rows.len() - i,
{
    if i < rows.len() {
        lemma_bucket_end(rows, i, i + 1);
        let j = bucket_end(rows, i, i + 1);
        law_curve_ascends(rows, j);
        let nodes = nodes_from(rows, i);
        let rest = nodes_from(rows, j);
        assert(nodes.len() == rest.len() + 1);
        assert(nodes[0].expiry == rows[i].expiry);
        assert forall|a: int| 0 < a < nodes.len() implies date_before(
            rows[i].expiry,
            (#[trigger] nodes[a]).expiry,
        ) by {
            assert(nodes[a] == rest[a - 1]);
            assert(j < rows.len());
            assert(!row_before(rows[j], rows[i]));
        }
        assert forall|a: int, b: int| 0 <= a < b < nodes.len() implies date_before(
            (#[trigger] nodes[a]).expiry,
            (#[trigger] nodes[b]).expiry,
        ) by {
            if a > 0 {
                assert(nodes[a] == rest[a - 1]);
                assert(nodes[b] == rest[b - 1]);
            }
        }
    }
}

/// The curve of any chain has strictly ascending expiries.
pub proof fn law_one_node_per_expiry(contracts: Seq<GexContract>, spot: Num, multiplier: Num)
    ensures
        ({
            let curve = nodes_from(rows_of(contracts, spot, multiplier), 0);
            forall|a: int, b: int|
                0 <= a < b < curve.len() ==> date_before(
                    (#[trigger] curve[a]).expiry,
                    (#[trigger] curve[b]).expiry,
                )
        }),
{
    let order = |a: GexRow, b: GexRow| row_before(a, b);
    let raw = contracts.map_values(|c: GexContract| GexRow::of_contract(c, spot, multiplier));
    sorting::law_stable_is_ordered(raw, order);
    sorting::lemma_stable_len(raw, order);
    let rows = rows_of(contracts, spot, multiplier);
    assert forall|a: int, b: int| 0 <= a < b < rows.len() implies !row_before(
        #[trigger] rows[b],
        #[trigger] rows[a],
    ) by {
        assert(!order(rows[b], rows[a]));
    }
    law_curve_ascends(rows, 0);
}

/// The strikes of the rows from `i` on, each with its net exposure.
pub open spec fn runs_from(rows: Seq<GexRow>, i: int) -> Seq<(Num, Num)>
    decreases rows.len() - i,
{
    if 0 <= i < rows.len() {
        proof {
            lemma_strike_end(rows, i, i + 1);
        }
        let j = strike_end(rows, i, i + 1);
        seq![(rows[i].strike, run_sum(rows, i, j))] + runs_from(rows, j)
    } else {
        Seq::empty()
    }
}

/// Whether strike `t` has the largest net exposure: it has one, none is larger,
/// and none before it is as large.
pub open spec fn leads(runs: Seq<(Num, Num)>, t: int) -> bool {
    let size = runs[t].1.fabs();
    &&& 0 <= t < runs.len()
    &&& Num::of(ZERO).flt(size)
    &&& forall|u: int|
        0 <= u < runs.len() ==> !size.flt((#[trigger] runs[u]).1.fabs()) && (u < t ==> !size.fle(
            runs[u].1.fabs(),
        ))
}

/// Whether no strike has a net exposure.
pub open spec fn all_flat(runs: Seq<(Num, Num)>) -> bool {
    forall|u: int| 0 <= u < runs.len() ==> !Num::of(ZERO).flt((#[trigger] runs[u]).1.fabs())
}

/// Whether this is the strike of the largest net exposure, with its size.
pub open spec fn is_best(runs: Seq<(Num, Num)>, best: Option<(Num, Num)>) -> bool {
    match best {
        Some(b) => exists|t: int|
            #[trigger] leads(runs, t) && b == (runs[t].0, runs[t].1.fabs()),
        None => all_flat(runs),
    }
}

/// One more strike is held against the best so far.
proof fn lemma_better(runs: Seq<(Num, Num)>, best: Option<(Num, Num)>, strike: Num, sum: Num)
    requires
        is_best(runs, best),
    ensures
        is_best(runs.push((strike, sum)), better(best, strike, sum)),
{
    let more = runs.push((strike, sum));
    let n = runs.len() as int;
    assert(more[n] == (strike, sum));
    assert(forall|u: int| 0 <= u < n ==> #[trigger] more[u] == runs[u]);
    match best {
        Some(b) => {
            let t = choose|t: int|
                #[trigger] leads(runs, t) && b == (runs[t].0, runs[t].1.fabs());
            if better(best, strike, sum) == best {
                assert(leads(more, t));
            } else {
                assert(leads(more, n));
            }
        },
        None => {
            if better(best, strike, sum) is Some {
                assert(leads(more, n));
            }
        },
    }
}

/// The dominant strike is the best of all.
proof fn lemma_dominant(rows: Seq<GexRow>, i: int, done: Seq<(Num, Num)>, best: Option<(Num, Num)>)
    requires
        0 <= i,
        is_best(done, best),
    ensures
        is_best(done + runs_from(rows, i), dominant(rows, i, best)),
    decreases rows.len() - i,
{
    if i < rows.len() {
        lemma_strike_end(rows, i, i + 1);
        let j = strike_end(rows, i, i + 1);
        let (strike, sum) = (rows[i].strike, run_sum(rows, i, j));
        lemma_better(done, best, strike, sum);
        lemma_dominant(rows, j, done.push((strike, sum)), better(best, strike, sum));
        assert(done + runs_from(rows, i) =~= done.push((strike, sum)) + runs_from(rows, j));
    } else {
        assert(done + runs_from(rows, i) =~= done);
    }
}

/// Whether rows come in order of strike.
pub open spec fn strikes_ascend(rows: Seq<GexRow>) -> bool {
    forall|a: int, b: int|
        0 <= a < b < rows.len() ==> (#[trigger] rows[a]).strike.fle((#[trigger] rows[b]).strike)
}

/// Each strike comes once, in order.
proof fn lemma_runs_ascend(rows: Seq<GexRow>, i: int)
    requires
        0 <= i,
        strikes_ascend(rows),
    ensures
        forall|u: int|
            0 <= u < runs_from(rows, i).len() ==> rows[i].strike.fle(
                (#[trigger] runs_from(rows, i)[u]).0,
            ) || u == 0 && runs_from(rows, i)[u].0 == rows[i].strike,
        forall|u: int, v: int|
            0 <= u < v < runs_from(rows, i).len() ==> (#[trigger] runs_from(rows, i)[u]).0.flt(
                (#[trigger] runs_from(rows, i)[v]).0,
            ),
    decreases rows.len() - i,
{
    if i < rows.len() {
        lemma_strike_end(rows, i, i + 1);
        lemma_strike_differs(rows, i, i + 1);
        let j = strike_end(rows, i, i + 1);
        lemma_runs_ascend(rows, j);
        let (all, rest) = (runs_from(rows, i), runs_from(rows, j));
        assert(all[0] == (rows[i].strike, run_sum(rows, i, j)));
        assert(forall|u: int| 0 < u < all.len() ==> #[trigger] all[u] == rest[u - 1]);
        if j < rows.len() {
            assert(rows[i].strike.fle(rows[j].strike));
            assert(rest[0].0 == rows[j].strike);
        }
        assert forall|v: int| 0 < v < all.len() implies rows[i].strike.flt(
            (#[trigger] all[v]).0,
        ) by {
            assert(j < rows.len());
            if v > 1 {
                assert(rest[0].0.flt(rest[v - 1].0));
            }
        }
        assert forall|u: int, v: int| 0 <= u < v < all.len() implies (#[trigger] all[u]).0.flt(
            (#[trigger] all[v]).0,
        ) by {
            if u > 0 {
                assert(rest[u - 1].0.flt(rest[v - 1].0));
            }
        }
    }
}

/// A run of one strike ends where another strike begins.
proof fn lemma_strike_differs(rows: Seq<GexRow>, i: int, j: int)
    requires
        0 <= i <= j <= rows.len(),
    ensures
        strike_end(rows, i, j) < rows.len() ==> !rows[i].strike.feq(
            rows[strike_end(rows, i, j)].strike,
        ),
    decreases rows.len() - j,
{
    if j < rows.len() && rows[i].strike.feq(rows[j].strike) {
        lemma_strike_differs(rows, i, j + 1);
    }
}

/// The dominant strike of an expiry has the largest absolute net exposure, of
/// equals the lowest strike; there is none exactly where no strike has any.
pub proof fn law_dominant_strike_is_largest(rows: Seq<GexRow>)
    requires
        strikes_ascend(rows),
    ensures
        ({
            let runs = runs_from(rows, 0);
            let k = ExpiryGexNode::of_rows(rows).dominant_strike;
            &&& k is None <==> all_flat(runs)
            &&& k matches Some(strike) ==> exists|t: int|
                #[trigger] leads(runs, t) && strike == runs[t].0
            &&& forall|u: int, v: int|
                0 <= u < v < runs.len() ==> (#[trigger] runs[u]).0.flt((#[trigger] runs[v]).0)
        }),
{
    let runs = runs_from(rows, 0);
    let none = Seq::<(Num, Num)>::empty();
    lemma_dominant(rows, 0, none, None);
    lemma_runs_ascend(rows, 0);
    assert(none + runs =~= runs);
    if let Some(b) = dominant(rows, 0, None) {
        let t = choose|t: int| #[trigger] leads(runs, t) && b == (runs[t].0, runs[t].1.fabs());
        assert(!all_flat(runs)) by {
            assert(Num::of(ZERO).flt(runs[t].1.fabs()));
        }
    }
}

/// Every node is that of the rows of its expiry.
proof fn lemma_node_rows(rows: Seq<GexRow>, i: int, m: int)
    requires
        0 <= i,
        0 <= m < nodes_from(rows, i).len(),
    ensures
        exists|a: int, b: int|
            {
                let bucket = #[trigger] rows.subrange(a, b);
                &&& i <= a < b <= rows.len()
                &&& nodes_from(rows, i)[m] == ExpiryGexNode::of_rows(bucket)
                &&& forall|k: int| a <= k < b ==> (#[trigger] rows[k]).expiry == rows[a].expiry
            },
    decreases rows.len() - i,
{
    lemma_bucket_end(rows, i, i + 1);
    let j = bucket_end(rows, i, i + 1);
    if m == 0 {
        let bucket = rows.subrange(i, j);
        assert(nodes_from(rows, i)[0] == ExpiryGexNode::of_rows(bucket));
    } else {
        lemma_node_rows(rows, j, m - 1);
        assert(nodes_from(rows, i)[m] == nodes_from(rows, j)[m - 1]);
    }
}

/// Every node of a curve is that of the rows of one expiry, in order of strike.
pub proof fn law_nodes_hold_ascending_strikes(
    contracts: Seq<GexContract>,
    spot: Num,
    multiplier: Num,
    m: int,
)
    requires
        curve_problem(contracts, spot, multiplier) is None,
        0 <= m < nodes_from(rows_of(contracts, spot, multiplier), 0).len(),
    ensures
        ({
            let rows = rows_of(contracts, spot, multiplier);
            exists|a: int, b: int|
                {
                    let bucket = #[trigger] rows.subrange(a, b);
                    &&& 0 <= a < b <= rows.len()
                    &&& nodes_from(rows, 0)[m] == ExpiryGexNode::of_rows(bucket)
                    &&& strikes_ascend(bucket)
                }
        }),
{
    let order = |a: GexRow, b: GexRow| row_before(a, b);
    let raw = contracts.map_values(|c: GexContract| GexRow::of_contract(c, spot, multiplier));
    let rows = rows_of(contracts, spot, multiplier);
    sorting::law_stable_is_ordered(raw, order);
    sorting::lemma_stable_len(raw, order);
    lemma_node_rows(rows, 0, m);
    let (a, b) = choose|a: int, b: int|
        {
            let bucket = #[trigger] rows.subrange(a, b);
            &&& 0 <= a < b <= rows.len()
            &&& nodes_from(rows, 0)[m] == ExpiryGexNode::of_rows(bucket)
            &&& forall|k: int| a <= k < b ==> (#[trigger] rows[k]).expiry == rows[a].expiry
        };
    let bucket = rows.subrange(a, b);
    assert forall|x: int| 0 <= x < rows.len() implies multileg::positive_finite(
        (#[trigger] rows[x]).strike,
    ) by {
        sorting::lemma_stable_member(raw, order, x);
        let y = choose|y: int| 0 <= y < raw.len() && raw[y] == rows[x];
        lemma_no_contract_problem(contracts, y, contracts.len());
    }
    assert forall|x: int, y: int| 0 <= x < y < bucket.len() implies (
    #[trigger] bucket[x]).strike.fle((#[trigger] bucket[y]).strike) by {
        assert(bucket[x] == rows[a + x] && bucket[y] == rows[a + y]);
        assert(!order(rows[a + y], rows[a + x]));
    }
}

/// Where no contract has a problem, a given one has none.
proof fn lemma_no_contract_problem(contracts: Seq<GexContract>, i: int, n: nat)
    requires
        0 <= i < n <= contracts.len(),
        first_contract_problem(contracts, n) is None,
    ensures
        contracts[i].problem() is None,
    decreases n,
{
    if i < n - 1 {
        lemma_no_contract_problem(contracts, i, (n - 1) as nat);
    }
}

/// The exposures of one right, or of both.
pub open spec fn sided(rows: Seq<GexRow>, right: Option<OptionRight>) -> Seq<Option<Num>> {
    rows.map_values(
        |r: GexRow|
            if right is None || right == Some(r.right) {
                Some(r.gex)
            } else {
                None
            },
    )
}

/// What is added up is the sum of a side.
proof fn lemma_added_is_sum(rows: Seq<GexRow>, right: Option<OptionRight>, n: nat)
    requires
        n <= rows.len(),
    ensures
        added(rows, right, n) == sums::sum_some(sided(rows, right).take(n as int)),
    decreases n,
{
    let s = sided(rows, right);
    if n > 0 {
        lemma_added_is_sum(rows, right, (n - 1) as nat);
        assert(s.take(n as int).drop_last() =~= s.take(n - 1));
        assert(s.take(n as int).last() == s[n - 1]);
    }
}

/// Calls and puts add up exactly.
proof fn lemma_sides_add(rows: Seq<GexRow>)
    ensures
        ({
            let c = sided(rows, Some(OptionRight::Call));
            let p = sided(rows, Some(OptionRight::Put));
            let all = sided(rows, None);
            &&& additive::exact_sum(all) == additive::exact_sum(c) + additive::exact_sum(p)
            &&& additive::exact_gross(all) == additive::exact_gross(c) + additive::exact_gross(p)
        }),
    decreases rows.len(),
{
    if rows.len() > 0 {
        let rest = rows.drop_last();
        lemma_sides_add(rest);
        let c = sided(rows, Some(OptionRight::Call));
        let p = sided(rows, Some(OptionRight::Put));
        let all = sided(rows, None);
        assert(c.drop_last() =~= sided(rest, Some(OptionRight::Call)));
        assert(p.drop_last() =~= sided(rest, Some(OptionRight::Put)));
        assert(all.drop_last() =~= sided(rest, None));
    }
}

/// The total of an expiry is its calls plus its puts, up to rounding.
pub proof fn law_total_is_calls_plus_puts(rows: Seq<GexRow>)
    requires
        rows.len() <= 0x8_0000_0000_0000,
        additive::all_finite(sided(rows, None)),
        ExpiryGexNode::of_rows(rows).total_gex.finite(),
        ExpiryGexNode::of_rows(rows).call_gex.finite(),
        ExpiryGexNode::of_rows(rows).put_gex.finite(),
    ensures
        ({
            let node = ExpiryGexNode::of_rows(rows);
            let sides = node.call_gex.exact() + node.put_gex.exact();
            exact::rabs(node.total_gex.exact() - sides) <= 2real * additive::slack(rows.len())
                * additive::exact_gross(sided(rows, None))
        }),
{
    let n = rows.len();
    let c = sided(rows, Some(OptionRight::Call));
    let p = sided(rows, Some(OptionRight::Put));
    let all = sided(rows, None);
    assert(c.take(n as int) =~= c);
    assert(p.take(n as int) =~= p);
    assert(all.take(n as int) =~= all);
    lemma_added_is_sum(rows, None, n);
    lemma_added_is_sum(rows, Some(OptionRight::Call), n);
    lemma_added_is_sum(rows, Some(OptionRight::Put), n);
    assert forall|i: int| 0 <= i < n implies (#[trigger] c[i] matches Some(v) ==> v.finite()) by {
        assert(all[i] == Some(rows[i].gex));
    }
    assert forall|i: int| 0 <= i < n implies (#[trigger] p[i] matches Some(v) ==> v.finite()) by {
        assert(all[i] == Some(rows[i].gex));
    }
    additive::lemma_sum_error(all);
    additive::lemma_sum_error(c);
    additive::lemma_sum_error(p);
    lemma_sides_add(rows);
    let (k, g, h) = (additive::slack(n), additive::exact_gross(c), additive::exact_gross(p));
    assert(2real * k * (g + h) == k * (g + h) + k * g + k * h) by (nonlinear_arith);
}

/// The contract that the decay clock is sampled for.
#[derive(Debug, Clone, Copy, PartialEq)]
pub struct ClockInputs {
    /// Underlying spot, points.
    pub spot: Num,
    /// Strike, points.
    pub strike: Num,
    /// Implied vol, annualized decimal.
    pub vol: Num,
    /// Continuously-compounded risk-free rate, decimal.
    pub rate: Num,
    /// Continuous dividend yield, decimal.
    pub div_yield: Num,
    /// Call or put.
    pub right: OptionRight,
}

impl ClockInputs {
    /// The contract some trading hours before expiry.
    pub open spec fn contract(self, hours: Num) -> BsInputs {
        BsInputs {
            spot: self.spot,
            strike: self.strike,
            t_years: clock_years(hours),
            vol: self.vol,
            rate: self.rate,
            div_yield: self.div_yield,
        }
    }

    /// The contract that the kernel prices some trading hours before expiry.
    pub fn kernel_inputs(&self, hours: Num) -> (r: BsInputs)
        ensures
            r == self.contract(hours),
    {
        BsInputs {
            spot: self.spot,
            strike: self.strike,
            t_years: trading_hours_to_years(hours),
            vol: self.vol,
            rate: self.rate,
            div_yield: self.div_yield,
        }
    }
}

/// One sample of the decay clock.
#[derive(Debug, Clone, Copy, PartialEq)]
pub struct DecayClockPoint {
    /// Trading hours to expiry.
    pub hours_to_expiry: Num,
    /// Year fraction of the sample.
    pub t_years: Num,
    /// Delta per year.
    pub charm: Num,
    /// Delta per unit vol.
    pub vanna: Num,
}

/// Trading hours as a year fraction.
pub open spec fn clock_years(hours: Num) -> Num {
    hours.fdiv(Num::of(SESSION_HOURS)).fdiv(Num::of(TRADING_DAYS))
}

/// Trading hours as a year fraction.  Zero hours is zero years.
pub fn trading_hours_to_years(hours: Num) -> (r: Num)
    ensures
        r == clock_years(hours),
{
    hours / Num::of(SESSION_HOURS) / Num::of(TRADING_DAYS)
}

/// Half-hour samples from a full session down to zero.
pub fn session_clock_grid() -> (r: Vec<Num>)
    ensures
        r@ == Seq::new(
            DECAY_CLOCK_POINTS as nat,
            |i: int|
                Num::of(SESSION_HOURS).fsub(
                    Num::of(DECAY_CLOCK_STEP_HOURS).fmul(Num::whole(false, i as nat)),
                ),
        ),
{
    let mut r: Vec<Num> = Vec::new();
    let mut i: u32 = 0;
    while i < DECAY_CLOCK_POINTS
        invariant
            i <= DECAY_CLOCK_POINTS,
            r@ == Seq::new(
                i as nat,
                |i: int|
                    Num::of(SESSION_HOURS).fsub(
                        Num::of(DECAY_CLOCK_STEP_HOURS).fmul(Num::whole(false, i as nat)),
                    ),
            ),
        decreases DECAY_CLOCK_POINTS - i,
    {
        r.push(
            Num::of(SESSION_HOURS) - Num::of(DECAY_CLOCK_STEP_HOURS) * Num::from_u64(i as u64),
        );
        i = i + 1;
    }
    r
}

/// The sample of a contract some trading hours before expiry.
pub open spec fn clock_point(inputs: ClockInputs, hours: Num, terms: BsTerms) -> DecayClockPoint {
    let g = BsGreeks::of_contract(inputs.contract(hours), inputs.right, terms);
    DecayClockPoint {
        hours_to_expiry: hours,
        t_years: clock_years(hours),
        charm: g.charm,
        vanna: g.vanna,
    }
}

/// What is wrong with the first of `n` hours that cannot be sampled.
pub open spec fn first_hour_problem(inputs: ClockInputs, hours: Seq<Num>, n: nat) -> Option<
    PortfolioError,
>
    decreases n,
{
    if n == 0 {
        None
    } else {
        match first_hour_problem(inputs, hours, (n - 1) as nat) {
            Some(e) => Some(e),
            None => if !multileg::non_negative_finite(hours[n - 1]) {
                Some(PortfolioError::Domain("hours to expiry must be non-negative and finite"))
            } else if !inputs.contract(hours[n - 1]).in_domain() {
                Some(PortfolioError::Quant(QuantError::Domain("BsInputs out of domain")))
            } else {
                None
            },
        }
    }
}

proof fn lemma_first_hour_problem(inputs: ClockInputs, hours: Seq<Num>, n: nat, m: nat)
    requires
        n <= m,
        first_hour_problem(inputs, hours, n) is Some,
    ensures
        first_hour_problem(inputs, hours, m) == first_hour_problem(inputs, hours, n),
    decreases m,
{
    if n < m {
        lemma_first_hour_problem(inputs, hours, n, (m - 1) as nat);
    }
}

/// Charm and vanna across a grid of trading hours to expiry.
///
/// `terms` holds the machine's terms of the contract at each hour (see
/// `ClockInputs::kernel_inputs`).
pub fn charm_vanna_clock(
    inputs: &ClockInputs,
    hours_to_expiry: &Vec<Num>,
    terms: &Vec<BsTerms>,
) -> (r: Result<Vec<DecayClockPoint>, PortfolioError>)
    requires
        terms@.len() == hours_to_expiry@.len(),
    ensures
        match r {
            Ok(points) => {
                let n = hours_to_expiry@.len();
                &&& first_hour_problem(*inputs, hours_to_expiry@, n) is None
                &&& points@ == Seq::new(
                    n,
                    |i: int| clock_point(*inputs, hours_to_expiry@[i], terms@[i]),
                )
            },
            Err(e) => first_hour_problem(*inputs, hours_to_expiry@, hours_to_expiry@.len())
                == Some(e),
        },
{
    let mut points: Vec<DecayClockPoint> = Vec::new();
    let mut i: usize = 0;
    while i < hours_to_expiry.len()
        invariant
            i <= hours_to_expiry@.len() == terms@.len(),
            first_hour_problem(*inputs, hours_to_expiry@, i as nat) is None,
            points@ == Seq::new(
                i as nat,
                |k: int| clock_point(*inputs, hours_to_expiry@[k], terms@[k]),
            ),
        decreases hours_to_expiry@.len() - i,
    {
        let hours = hours_to_expiry[i];
        let ghost all = hours_to_expiry@;
        if !is_non_negative_finite(hours) {
            proof {
                lemma_first_hour_problem(*inputs, all, (i + 1) as nat, all.len());
            }
            return Err(PortfolioError::Domain("hours to expiry must be non-negative and finite"));
        }
        let bs = inputs.kernel_inputs(hours);
        match black_scholes::greeks(&bs, inputs.right, &terms[i]) {
            Ok(g) => {
                points.push(
                    DecayClockPoint {
                        hours_to_expiry: hours,
                        t_years: bs.t_years,
                        charm: g.charm,
                        vanna: g.vanna,
                    },
                );
            },
            Err(e) => {
                proof {
                    lemma_first_hour_problem(*inputs, all, (i + 1) as nat, all.len());
                }
                return Err(PortfolioError::Quant(e));
            },
        }
        i = i + 1;
    }
    Ok(points)
}

} // verus!
