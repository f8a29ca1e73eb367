//! Gateway configuration from raw settings.

use crate::market::{self, Symbol};
use crate::text;
use vstd::prelude::*;

verus! {

/// Bind address without a setting.
pub const DEFAULT_BIND: &'static str = "127.0.0.1:8787";

/// Seed without a setting.
pub const DEFAULT_SEED: u64 = 20_260_703;

/// Universe without a setting.
pub const DEFAULT_UNIVERSE: &'static str = "SPX,QQQ";

/// Which feed drives the gateway.
#[derive(Debug, Clone, PartialEq, Eq)]
pub enum FeedKind {
    /// Deterministic synthetic feed.
    Synthetic {
        /// Seed of the simulation.
        seed: u64,
    },
}

/// Resolved configuration.
#[derive(Debug, PartialEq)]
pub struct GatewayConfig {
    /// Socket address to bind.
    pub bind: String,
    /// Symbols to serve.
    pub universe: Vec<Symbol>,
    /// Feed.
    pub feed: FeedKind,
}

/// What is wrong with a setting; holds the text as it was given.
#[derive(Debug, PartialEq, Eq)]
pub enum ConfigError {
    /// The bind address.
    Bind(String),
    /// An entry of the universe.
    Universe(String),
    /// The seed.
    Seed(String),
}

impl ConfigError {
    /// The text that the error holds.
    pub open spec fn given(self) -> Seq<char> {
        match self {
            ConfigError::Bind(s) => s@,
            ConfigError::Universe(s) => s@,
            ConfigError::Seed(s) => s@,
        }
    }

    /// The message of an error.
    pub fn message(&self) -> (r: String)
        ensures
            r@ == (match *self {
                ConfigError::Bind(_) => "invalid SLAYER_BIND: "@,
                ConfigError::Universe(_) => "invalid SLAYER_UNIVERSE entry: "@,
                ConfigError::Seed(_) => "invalid SLAYER_SEED: "@,
            }) + self.given(),
    {
        let mut r = match self {
            ConfigError::Bind(_) => "invalid SLAYER_BIND: ".to_owned(),
            ConfigError::Universe(_) => "invalid SLAYER_UNIVERSE entry: ".to_owned(),
            ConfigError::Seed(_) => "invalid SLAYER_SEED: ".to_owned(),
        };
        match self {
            ConfigError::Bind(s) => r.push_str(s.as_str()),
            ConfigError::Universe(s) => r.push_str(s.as_str()),
            ConfigError::Seed(s) => r.push_str(s.as_str()),
        }
        r
    }
}

/// The value of decimal digits.
pub open spec fn digits_value(s: Seq<char>) -> nat
    decreases s.len(),
{
    if s.len() == 0 {
        0
    } else {
        digits_value(s.drop_last()) * 10 + (s.last() as nat - '0' as nat) as nat
    }
}

/// Whether every character is a decimal digit.
pub open spec fn all_digits(s: Seq<char>) -> bool {
    forall|i: int| 0 <= i < s.len() ==> '0' <= #[trigger] s[i] && s[i] <= '9'
}

/// The digits of a number: a plus sign in front is left out.
pub open spec fn digit_part(s: Seq<char>) -> Seq<char> {
    if s.len() > 0 && s[0] == '+' {
        s.skip(1)
    } else {
        s
    }
}

/// Whether a text is an unsigned 64-bit number.
pub open spec fn is_u64(s: Seq<char>) -> bool {
    let d = digit_part(s);
    d.len() > 0 && all_digits(d) && digits_value(d) <= u64::MAX
}

proof fn lemma_digits_grow(s: Seq<char>, n: int)
    requires
        0 <= n <= s.len(),
        all_digits(s),
    ensures
        digits_value(s.take(n)) <= digits_value(s),
    decreases s.len() - n,
{
    if n < s.len() {
        lemma_digits_grow(s, n + 1);
        let more = s.take(n + 1);
        assert(more.drop_last() =~= s.take(n));
        assert(more.last() == s[n]);
    } else {
        assert(s.take(n) =~= s);
    }
}

/// Reads an unsigned 64-bit number: digits, with at most a plus sign in front.
pub fn parse_u64(raw: &str) -> (r: Option<u64>)
    ensures
        match r {
            Some(n) => is_u64(raw@) && n == digits_value(digit_part(raw@)),
            None => !is_u64(raw@),
        },
{
    let n: usize = raw.unicode_len();
    let start: usize = if n > 0 && raw.get_char(0) == '+' {
        1
    } else {
        0
    };
    let ghost d = digit_part(raw@);
    proof {
        assert(d =~= raw@.skip(start as int));
        assert(d.take(0) =~= Seq::<char>::empty());
    }
    if start == n {
        return None;
    }
    let mut value: u64 = 0;
    let mut i: usize = start;
    while i < n
        invariant
            start <= i <= n == raw@.len(),
            start < n,
            d == digit_part(raw@),
            d == raw@.skip(start as int),
            all_digits(d.take(i - start)),
            value == digits_value(d.take(i - start)),
        decreases n - i,
    {
        let c: char = raw.get_char(i);
        let ghost more = d.take(i - start + 1);
        proof {
            assert(d[i - start] == c);
            assert(more.drop_last() =~= d.take(i - start));
            assert(more.last() == c);
        }
        if !('0' <= c && c <= '9') {
            return None;
        }
        proof {
            assert(all_digits(more)) by {
                assert forall|k: int| 0 <= k < more.len() implies '0' <= #[trigger] more[k]
                    && more[k] <= '9' by {
                    if k < i - start {
                        assert(d.take(i - start)[k] == more[k]);
                    }
                }
            }
            if all_digits(d) {
                lemma_digits_grow(d, i - start + 1);
            }
        }
        let digit: u64 = (c as u64) - 48;
        if value > (u64::MAX - digit) / 10 {
            return None;
        }
        value = value * 10 + digit;
        i = i + 1;
    }
    proof {
        assert(d.take(i - start) =~= d);
    }
    Some(value)
}

/// A text cut at its commas.
pub open spec fn comma_parts(s: Seq<char>) -> Seq<Seq<char>>
    decreases s.len(),
{
    if s.len() == 0 {
        seq![s]
    } else {
        let rest = comma_parts(s.drop_last());
        if s.last() == ',' {
            rest.push(Seq::empty())
        } else {
            rest.drop_last().push(rest.last().push(s.last()))
        }
    }
}

/// The parts of a universe that are not blank.
pub open spec fn entries_of(parts: Seq<Seq<char>>) -> Seq<Seq<char>>
    decreases parts.len(),
{
    if parts.len() == 0 {
        Seq::empty()
    } else {
        let rest = entries_of(parts.drop_last());
        if text::trimmed(parts.last()).len() == 0 {
            rest
        } else {
            rest.push(parts.last())
        }
    }
}

/// The entries of a universe setting.
pub open spec fn universe_entries(raw: Seq<char>) -> Seq<Seq<char>> {
    entries_of(comma_parts(raw))
}

/// The first of `n` entries that is no ticker.
pub open spec fn first_bad(entries: Seq<Seq<char>>, n: nat) -> Option<Seq<char>>
    decreases n,
{
    if n == 0 {
        None
    } else {
        match first_bad(entries, (n - 1) as nat) {
            Some(e) => Some(e),
            None => if market::valid_ticker(market::normalized(entries[n - 1])) {
                None
            } else {
                Some(entries[n - 1])
            },
        }
    }
}

proof fn lemma_first_bad(entries: Seq<Seq<char>>, n: nat, m: nat)
    requires
        n <= m,
        first_bad(entries, n) is Some,
    ensures
        first_bad(entries, m) == first_bad(entries, n),
    decreases m,
{
    if n < m {
        lemma_first_bad(entries, n, (m - 1) as nat);
    }
}

/// What is wrong with a universe setting: the entry that is no ticker, or that
/// there is none.
pub open spec fn universe_problem(raw: Seq<char>) -> Option<Seq<char>> {
    let entries = universe_entries(raw);
    if first_bad(entries, entries.len()) is Some {
        first_bad(entries, entries.len())
    } else if entries.len() == 0 {
        Some("(empty)"@)
    } else {
        None
    }
}

fn split_commas(raw: &str) -> (r: Vec<String>)
    ensures
        r@.map_values(|s: String| s@) == comma_parts(raw@),
{
    let n: usize = raw.unicode_len();
    let mut parts: Vec<String> = Vec::new();
    let mut current = String::new();
    let mut i: usize = 0;
    proof {
        assert(raw@.take(0) =~= Seq::<char>::empty());
        assert(parts@.map_values(|s: String| s@).push(current@) =~= comma_parts(raw@.take(0)));
    }
    while i < n
        invariant
            i <= n == raw@.len(),
            parts@.map_values(|s: String| s@).push(current@) == comma_parts(raw@.take(i as int)),
        decreases n - i,
    {
        let c: char = raw.get_char(i);
        let ghost before = parts@.map_values(|s: String| s@);
        let ghost was = current@;
        proof {
            assert(raw@.take(i + 1).drop_last() =~= raw@.take(i as int));
        }
        if c == ',' {
            let mut done = String::new();
            std::mem::swap(&mut done, &mut current);
            parts.push(done);
            proof {
                assert(parts@.map_values(|s: String| s@) =~= before.push(was));
                assert(parts@.map_values(|s: String| s@).push(current@) =~= before.push(was).push(
                    Seq::empty(),
                ));
            }
        } else {
            current.push(c);
            proof {
                assert(before.push(was).drop_last() =~= before);
                assert(before.push(current@) =~= before.push(was).drop_last().push(was.push(c)));
            }
        }
        i = i + 1;
    }
    proof {
        assert(raw@.take(i as int) =~= raw@);
    }
    let ghost before = parts@.map_values(|s: String| s@);
    let ghost last = current@;
    parts.push(current);
    proof {
        assert(parts@.map_values(|s: String| s@) =~= before.push(last));
    }
    parts
}

/// Reads a universe setting: tickers with commas between them; blank parts are
/// left out.
pub fn parse_universe(raw: &str) -> (r: Result<Vec<Symbol>, ConfigError>)
    ensures
        match r {
            Ok(u) => {
                &&& universe_problem(raw@) is None
                &&& u@.len() == universe_entries(raw@).len()
                &&& forall|i: int|
                    0 <= i < u@.len() ==> (#[trigger] u@[i])@ == market::normalized(
                        universe_entries(raw@)[i],
                    )
            },
            Err(e) => e is Universe && universe_problem(raw@) == Some(e.given()),
        },
{
    let parts = split_commas(raw);
    let ghost texts = parts@.map_values(|s: String| s@);
    let ghost entries = universe_entries(raw@);
    let mut universe: Vec<Symbol> = Vec::new();
    let mut i: usize = 0;
    proof {
        assert(texts.take(0) =~= Seq::<Seq<char>>::empty());
    }
    while i < parts.len()
        invariant
            i <= parts@.len(),
            texts == parts@.map_values(|s: String| s@),
            texts == comma_parts(raw@),
            entries == universe_entries(raw@),
            universe@.len() == entries_of(texts.take(i as int)).len(),
            first_bad(
                entries_of(texts.take(i as int)),
                entries_of(texts.take(i as int)).len(),
            ) is None,
            forall|k: int|
                0 <= k < universe@.len() ==> (#[trigger] universe@[k])@ == market::normalized(
                    entries_of(texts.take(i as int))[k],
                ),
        decreases parts@.len() - i,
    {
        let part = parts[i].as_str();
        let ghost done = entries_of(texts.take(i as int));
        let ghost now = entries_of(texts.take(i + 1));
        proof {
            assert(texts.take(i + 1).drop_last() =~= texts.take(i as int));
            assert(texts.take(i + 1).last() == part@);
        }
        let (lo, hi) = text::trim_bounds(part);
        if lo < hi {
            proof {
                assert(now == done.push(part@));
                lemma_first_bad_prefix(done, now, done.len());
            }
            match Symbol::new(part) {
                Ok(s) => {
                    universe.push(s);
                },
                Err(_) => {
                    proof {
                        assert(first_bad(now, now.len()) == Some(part@));
                        lemma_entries_grow(texts, (i + 1) as int);
                        assert(texts.take(texts.len() as int) =~= texts);
                        lemma_first_bad_prefix(now, entries, now.len());
                        lemma_first_bad(entries, now.len(), entries.len());
                    }
                    return Err(ConfigError::Universe(part.to_owned()));
                },
            }
        }
        i = i + 1;
    }
    proof {
        assert(texts.take(i as int) =~= texts);
    }
    if universe.len() == 0 {
        return Err(ConfigError::Universe("(empty)".to_owned()));
    }
    Ok(universe)
}

/// The first bad of `n` entries depends on those entries alone.
proof fn lemma_first_bad_prefix(a: Seq<Seq<char>>, b: Seq<Seq<char>>, n: nat)
    requires
        n <= a.len(),
        n <= b.len(),
        forall|k: int| 0 <= k < n ==> #[trigger] a[k] == b[k],
    ensures
        first_bad(a, n) == first_bad(b, n),
    decreases n,
{
    if n > 0 {
        lemma_first_bad_prefix(a, b, (n - 1) as nat);
    }
}

/// The entries of the first parts come first among all.
proof fn lemma_entries_grow(parts: Seq<Seq<char>>, n: int)
    requires
        0 <= n <= parts.len(),
    ensures
        entries_of(parts.take(n)).len() <= entries_of(parts).len(),
        forall|k: int|
            0 <= k < entries_of(parts.take(n)).len() ==> #[trigger] entries_of(parts.take(n))[k]
                == entries_of(parts)[k],
    decreases parts.len() - n,
{
    if n < parts.len() {
        lemma_entries_grow(parts, n + 1);
        assert(parts.take(n + 1).drop_last() =~= parts.take(n));
        let (a, b) = (entries_of(parts.take(n)), entries_of(parts.take(n + 1)));
        assert forall|k: int| 0 <= k < a.len() implies #[trigger] a[k] == entries_of(parts)[k] by {
            assert(a[k] == b[k]);
        }
    } else {
        assert(parts.take(n) =~= parts);
    }
}

/// The text of a setting, or its default.
pub open spec fn setting(given: Option<String>, default: Seq<char>) -> Seq<char> {
    match given {
        Some(s) => s@,
        None => default,
    }
}

impl GatewayConfig {
    /// Resolves the configuration from raw settings; those not given have
    /// defaults.  `bind_ok` says whether the bind address is a socket address.
    pub fn resolve(
        bind: Option<String>,
        bind_ok: bool,
        universe: Option<String>,
        seed: Option<String>,
    ) -> (r: Result<GatewayConfig, ConfigError>)
        ensures
            match r {
                Ok(c) => {
                    let u = setting(universe, DEFAULT_UNIVERSE@);
                    &&& bind_ok
                    &&& c.bind@ == setting(bind, DEFAULT_BIND@)
                    &&& universe_problem(u) is None
                    &&& c.universe@.len() == universe_entries(u).len()
                    &&& forall|i: int|
                        0 <= i < c.universe@.len() ==> (#[trigger] c.universe@[i])@
                            == market::normalized(universe_entries(u)[i])
                    &&& match seed {
                        Some(s) => is_u64(s@) && c.feed == (FeedKind::Synthetic {
                            seed: digits_value(digit_part(s@)) as u64,
                        }),
                        None => c.feed == (FeedKind::Synthetic { seed: DEFAULT_SEED }),
                    }
                },
                Err(e) => if !bind_ok {
                    e is Bind && e.given() == setting(bind, DEFAULT_BIND@)
                } else if universe_problem(setting(universe, DEFAULT_UNIVERSE@)) is Some {
                    &&& e is Universe
                    &&& universe_problem(setting(universe, DEFAULT_UNIVERSE@)) == Some(e.given())
                } else {
                    e is Seed && seed is Some && !is_u64((seed->0)@) && e.given() == (seed->0)@
                },
            },
    {
        let bind = match bind {
            Some(s) => s,
            None => DEFAULT_BIND.to_owned(),
        };
        if !bind_ok {
            return Err(ConfigError::Bind(bind));
        }
        let raw = match universe {
            Some(s) => s,
            None => DEFAULT_UNIVERSE.to_owned(),
        };
        let universe = match parse_universe(raw.as_str()) {
            Ok(u) => u,
            Err(e) => return Err(e),
        };
        let seed: u64 = match seed {
            Some(s) => match parse_u64(s.as_str()) {
                Some(n) => n,
                None => return Err(ConfigError::Seed(s)),
            },
            None => DEFAULT_SEED,
        };
        Ok(GatewayConfig { bind, universe, feed: FeedKind::Synthetic { seed } })
    }
}

} // verus!
