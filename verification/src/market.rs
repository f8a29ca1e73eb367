//! Normalized market data types.
//!
//! Everything downstream of the feed consumes these shapes and nothing else.
//! Time is always a parameter; no function here reads a clock.

use crate::consts::{HALF, ZERO};
use crate::error::CoreError;
use crate::num::Num;
use crate::text;
use vstd::prelude::*;

verus! {

/// Milliseconds since the Unix epoch, UTC.
#[derive(Debug, Clone, Copy, PartialEq, Eq, PartialOrd, Ord, Hash, Default, Structural)]
pub struct TsMillis(pub u64);

impl TsMillis {
    /// Milliseconds elapsed from `earlier` to `self`, saturating at zero.
    pub fn saturating_since(self, earlier: TsMillis) -> (r: u64)
        ensures
            r == (if self.0 >= earlier.0 {
                self.0 - earlier.0
            } else {
                0
            }),
    {
        if self.0 >= earlier.0 {
            self.0 - earlier.0
        } else {
            0
        }
    }
}

/// An uppercase ticker symbol (e.g. `SPX`, `SPY`, `QQQ`).
#[derive(Debug, PartialEq, Eq, Hash, PartialOrd, Ord)]
pub struct Symbol {
    text: String,
}

impl View for Symbol {
    type V = Seq<char>;

    closed spec fn view(&self) -> Seq<char> {
        self.text@
    }
}

/// Characters that a ticker may hold: ASCII digits and capitals, dots for
/// share classes, slashes for futures roots.
pub open spec fn ticker_char(c: char) -> bool {
    ('A' <= c && c <= 'Z') || ('0' <= c && c <= '9') || c == '.' || c == '/'
}

/// One to twelve ticker characters.
pub open spec fn valid_ticker(s: Seq<char>) -> bool {
    &&& 1 <= s.len() <= 12
    &&& forall|i: int| 0 <= i < s.len() ==> ticker_char(#[trigger] s[i])
}

/// White space trimmed, ASCII letters capitalized.
pub open spec fn normalized(raw: Seq<char>) -> Seq<char> {
    text::trimmed(raw).map_values(|c: char| text::upper(c))
}

impl Symbol {
    /// Normalizes to uppercase.  Rejects what is then empty, longer than
    /// twelve characters, or holds anything but ticker characters.
    pub fn new(raw: &str) -> (r: Result<Symbol, CoreError>)
        ensures
            match r {
                Ok(s) => valid_ticker(normalized(raw@)) && s@ == normalized(raw@),
                Err(CoreError::InvalidSymbol(given)) => !valid_ticker(normalized(raw@)) && given@
                    == raw@,
            },
    {
        let (lo, hi) = text::trim_bounds(raw);
        let ghost want = normalized(raw@);
        let mut text = String::new();
        let mut valid: bool = hi > lo && hi - lo <= 12;
        let mut i: usize = lo;
        while i < hi && valid
            invariant
                lo <= i <= hi <= raw@.len(),
                want == normalized(raw@),
                text::trimmed(raw@) == raw@.subrange(lo as int, hi as int),
                want.len() == hi - lo,
                text@ == want.take(i - lo),
                valid ==> 1 <= want.len() <= 12,
                valid ==> forall|k: int| 0 <= k < i - lo ==> ticker_char(#[trigger] want[k]),
                !valid ==> !valid_ticker(want),
            decreases hi - i,
        {
            let c: char = text::upper_char(raw.get_char(i));
            text.push(c);
            proof {
                assert(want[i - lo] == c);
                assert(want.take(i - lo + 1) =~= want.take(i - lo).push(c));
            }
            if !(('A' <= c && c <= 'Z') || ('0' <= c && c <= '9') || c == '.' || c == '/') {
                valid = false;
            }
            i = i + 1;
        }
        if valid {
            proof {
                assert(want.take(i - lo) =~= want);
            }
            Ok(Symbol { text })
        } else {
            Err(CoreError::InvalidSymbol(raw.to_owned()))
        }
    }

    /// The normalized ticker string.
    pub fn as_str(&self) -> (r: &str)
        ensures
            r@ == self@,
    {
        self.text.as_str()
    }

    /// Whether two symbols are the same ticker.
    pub fn same(&self, other: &Symbol) -> (r: bool)
        ensures
            r == (self@ == other@),
    {
        self.text == other.text
    }
}

impl Clone for Symbol {
    fn clone(&self) -> (r: Symbol)
        ensures
            r@ == self@,
    {
        Symbol { text: self.text.clone() }
    }
}

/// A normalized ticker is left as it is by normalizing it again.
pub proof fn law_normalizing_twice_is_once(raw: Seq<char>)
    requires
        valid_ticker(normalized(raw)),
    ensures
        normalized(normalized(raw)) == normalized(raw),
{
    let s = normalized(raw);
    assert(ticker_char(s[0]) && ticker_char(s.last()));
    assert(text::trimmed(s) == s);
    assert forall|i: int| 0 <= i < s.len() implies text::upper(#[trigger] s[i]) == s[i] by {
        assert(ticker_char(s[i]));
    }
    assert(normalized(s) =~= s);
}

/// Option right.
#[derive(Debug, Clone, Copy, PartialEq, Eq, Hash, Structural)]
pub enum OptionRight {
    /// Call option.
    Call,
    /// Put option.
    Put,
}

/// Calendar expiry date.
#[derive(Debug, Clone, Copy, PartialEq, Eq, Hash, PartialOrd, Ord, Structural)]
pub struct ExpiryDate {
    /// Four-digit year.
    pub year: u16,
    /// Month, 1-12.
    pub month: u8,
    /// Day of month, 1-31.
    pub day: u8,
}

impl ExpiryDate {
    /// The ISO 8601 text of a date.
    pub open spec fn iso(self) -> Seq<char> {
        text::zero_padded(text::decimal(self.year as nat), 4) + seq!['-'] + text::zero_padded(
            text::decimal(self.month as nat),
            2,
        ) + seq!['-'] + text::zero_padded(text::decimal(self.day as nat), 2)
    }

    /// Whether a date comes before another.
    pub open spec fn before(self, other: ExpiryDate) -> bool {
        ||| self.year < other.year
        ||| self.year == other.year && self.month < other.month
        ||| self.year == other.year && self.month == other.month && self.day < other.day
    }

    /// The date as `YYYY-MM-DD`.
    pub fn to_text(&self) -> (r: String)
        ensures
            r@ == self.iso(),
    {
        let mut out = String::new();
        text::push_decimal(&mut out, self.year as u64, 4);
        out.push('-');
        text::push_decimal(&mut out, self.month as u64, 2);
        out.push('-');
        text::push_decimal(&mut out, self.day as u64, 2);
        proof {
            assert(out@ =~= self.iso());
        }
        out
    }
}

/// The characters of an ISO date of four-digit year.
proof fn lemma_iso(d: ExpiryDate)
    requires
        d.year <= 9999,
        d.month <= 99,
        d.day <= 99,
    ensures
        d.iso() == seq![
            text::digit(d.year as nat / 1000),
            text::digit(d.year as nat / 100 % 10),
            text::digit(d.year as nat / 10 % 10),
            text::digit(d.year as nat % 10),
            '-',
            text::digit(d.month as nat / 10),
            text::digit(d.month as nat % 10),
            '-',
            text::digit(d.day as nat / 10),
            text::digit(d.day as nat % 10),
        ],
{
    text::lemma_four_digits(d.year as nat);
    text::lemma_two_digits(d.month as nat);
    text::lemma_two_digits(d.day as nat);
    assert(d.iso().len() == 10);
    assert(d.iso() =~= seq![
        text::digit(d.year as nat / 1000),
        text::digit(d.year as nat / 100 % 10),
        text::digit(d.year as nat / 10 % 10),
        text::digit(d.year as nat % 10),
        '-',
        text::digit(d.month as nat / 10),
        text::digit(d.month as nat % 10),
        '-',
        text::digit(d.day as nat / 10),
        text::digit(d.day as nat % 10),
    ]);
}

/// The ISO texts of dates with a four-digit year have ten characters, sort like
/// the dates, and are equal only for equal dates.
pub proof fn law_iso_sorts_like_dates(a: ExpiryDate, b: ExpiryDate)
    requires
        a.year <= 9999,
        a.month <= 99,
        a.day <= 99,
        b.year <= 9999,
        b.month <= 99,
        b.day <= 99,
    ensures
        a.iso().len() == 10,
        a.before(b) <==> text::sorts_before(a.iso(), b.iso()),
        a == b <==> a.iso() == b.iso(),
{
    let (s, t) = (a.iso(), b.iso());
    lemma_iso(a);
    lemma_iso(b);
    text::lemma_sorts_irreflexive(s);
    let (y, z) = (a.year as nat, b.year as nat);
    let (m, n) = (a.month as nat, b.month as nat);
    let (d, e) = (a.day as nat, b.day as nat);
    text::lemma_four_places(y, z);
    text::lemma_two_places(m, n);
    text::lemma_two_places(d, e);
    if y / 1000 != z / 1000 {
        text::lemma_digit_order(y / 1000, z / 1000);
        text::lemma_first_difference(s, t, 0);
    } else if y / 100 % 10 != z / 100 % 10 {
        text::lemma_digit_order(y / 100 % 10, z / 100 % 10);
        text::lemma_first_difference(s, t, 1);
    } else if y / 10 % 10 != z / 10 % 10 {
        text::lemma_digit_order(y / 10 % 10, z / 10 % 10);
        text::lemma_first_difference(s, t, 2);
    } else if y % 10 != z % 10 {
        text::lemma_digit_order(y % 10, z % 10);
        text::lemma_first_difference(s, t, 3);
    } else if m / 10 != n / 10 {
        text::lemma_digit_order(m / 10, n / 10);
        text::lemma_first_difference(s, t, 5);
    } else if m % 10 != n % 10 {
        text::lemma_digit_order(m % 10, n % 10);
        text::lemma_first_difference(s, t, 6);
    } else if d / 10 != e / 10 {
        text::lemma_digit_order(d / 10, e / 10);
        text::lemma_first_difference(s, t, 8);
    } else if d % 10 != e % 10 {
        text::lemma_digit_order(d % 10, e % 10);
        text::lemma_first_difference(s, t, 9);
    }
}

/// First-order option greeks, per contract.
#[derive(Debug, Clone, Copy, PartialEq)]
pub struct Greeks {
    /// Value per spot point, in [-1, 1] per share.
    pub delta: Num,
    /// Delta per spot point, per share.
    pub gamma: Num,
    /// Value per calendar day (negative for long options).
    pub theta: Num,
    /// Value per volatility point.
    pub vega: Num,
}

/// One option quote within a chain, normalized.
#[derive(Debug, Clone, Copy, PartialEq)]
pub struct OptionQuote {
    /// Strike price in underlying points.
    pub strike: Num,
    /// Call or put.
    pub right: OptionRight,
    /// Expiry date.
    pub expiry: ExpiryDate,
    /// Best bid, points.  `None` when the market is one-sided or crossed out.
    pub bid: Option<Num>,
    /// Best ask, points.
    pub ask: Option<Num>,
    /// Contracts traded this session.
    pub volume: u64,
    /// Open interest, contracts.
    pub open_interest: u64,
    /// Annualized implied volatility as a decimal (0.20 = 20%), if known.
    pub iv: Option<Num>,
    /// Provider-supplied greeks, if any.
    pub greeks: Option<Greeks>,
}

impl OptionQuote {
    /// The midpoint of a sane two-sided market.
    pub open spec fn midpoint(self) -> Option<Num> {
        match (self.bid, self.ask) {
            (Some(b), Some(a)) => if Num::of(ZERO).fle(b) && b.fle(a) {
                Some(Num::of(HALF).fmul(a.fadd(b)))
            } else {
                None
            },
            _ => None,
        }
    }

    /// Midpoint of bid and ask when both sides exist and are sane.
    pub fn mid(&self) -> (r: Option<Num>)
        ensures
            r == self.midpoint(),
    {
        match (self.bid, self.ask) {
            (Some(b), Some(a)) => if b >= Num::of(ZERO) && a >= b {
                Some(Num::of(HALF) * (a + b))
            } else {
                None
            },
            _ => None,
        }
    }
}

/// A normalized option chain snapshot for one underlying.
#[derive(Debug, PartialEq)]
pub struct OptionChain {
    /// Underlying ticker.
    pub underlying: Symbol,
    /// Underlying spot at snapshot time, points.
    pub spot: Num,
    /// Snapshot time.
    pub ts: TsMillis,
    /// Contract multiplier (100 for standard US equity and index options).
    pub multiplier: Num,
    /// All quotes in the snapshot window.
    pub quotes: Vec<OptionQuote>,
}

impl OptionChain {
    /// The two snapshots hold the same market data.
    pub open spec fn same_data(self, other: OptionChain) -> bool {
        &&& self.underlying@ == other.underlying@
        &&& self.spot == other.spot
        &&& self.ts == other.ts
        &&& self.multiplier == other.multiplier
        &&& self.quotes@ == other.quotes@
    }
}

impl Clone for OptionChain {
    fn clone(&self) -> (r: OptionChain)
        ensures
            r.same_data(*self),
    {
        let quotes = self.quotes.clone();
        proof {
            assert(quotes@ =~= self.quotes@);
        }
        OptionChain {
            underlying: self.underlying.clone(),
            spot: self.spot,
            ts: self.ts,
            multiplier: self.multiplier,
            quotes,
        }
    }
}

/// One OHLCV bar.  `ts` is the bar open time.
#[derive(Debug, Clone, Copy, PartialEq)]
pub struct Candle {
    /// Bar open time.
    pub ts: TsMillis,
    /// Open price, points.
    pub open: Num,
    /// High price, points.
    pub high: Num,
    /// Low price, points.
    pub low: Num,
    /// Close price, points.
    pub close: Num,
    /// Shares or contracts traded in the bar.
    pub volume: Num,
}

/// Bar interval for candle series.
#[derive(Debug, Clone, Copy, PartialEq, Eq, Hash, Structural)]
pub enum BarInterval {
    /// One-minute bars.
    Min1,
    /// Five-minute bars.
    Min5,
    /// Daily bars.
    Day1,
}

/// A spot (underlying) quote.
#[derive(Debug, PartialEq)]
pub struct SpotQuote {
    /// Ticker.
    pub symbol: Symbol,
    /// Last or mark price, points.
    pub price: Num,
    /// Quote time.
    pub ts: TsMillis,
}

/// A normalized inbound market event.
#[derive(Debug, PartialEq)]
pub enum MarketEvent {
    /// Fresh option chain snapshot.
    Chain(OptionChain),
    /// New or updated candle.
    Candle {
        /// Ticker the bar belongs to.
        symbol: Symbol,
        /// Bar interval.
        interval: BarInterval,
        /// The bar itself.
        candle: Candle,
    },
    /// Spot tick.
    Spot(SpotQuote),
}

/// What a market event says.
pub enum EventData {
    /// A chain snapshot.
    Chain { symbol: Seq<char>, spot: Num, ts: TsMillis, multiplier: Num, quotes: Seq<OptionQuote> },
    /// A candle.
    Candle { symbol: Seq<char>, interval: BarInterval, candle: Candle },
    /// A spot tick.
    Spot { symbol: Seq<char>, price: Num, ts: TsMillis },
}

impl EventData {
    /// The ticker that an event is about.
    pub open spec fn ticker(self) -> Seq<char> {
        match self {
            EventData::Chain { symbol, .. } => symbol,
            EventData::Candle { symbol, .. } => symbol,
            EventData::Spot { symbol, .. } => symbol,
        }
    }
}

impl MarketEvent {
    /// What an event says.
    pub open spec fn data(self) -> EventData {
        match self {
            MarketEvent::Chain(c) => EventData::Chain {
                symbol: c.underlying@,
                spot: c.spot,
                ts: c.ts,
                multiplier: c.multiplier,
                quotes: c.quotes@,
            },
            MarketEvent::Candle { symbol, interval, candle } => EventData::Candle {
                symbol: symbol@,
                interval,
                candle,
            },
            MarketEvent::Spot(q) => EventData::Spot { symbol: q.symbol@, price: q.price, ts: q.ts },
        }
    }

    /// Whether an event calls for a new snapshot of its symbol: candles and
    /// chains do; a spot tick shows in the candle that follows.
    pub fn recomposes(&self) -> (r: bool)
        ensures
            r == !(*self is Spot),
    {
        match self {
            MarketEvent::Candle { .. } | MarketEvent::Chain(_) => true,
            MarketEvent::Spot(_) => false,
        }
    }
}

} // verus!
