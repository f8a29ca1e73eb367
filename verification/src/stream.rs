//! The event stream of a whole simulation: bar by bar, and in each bar symbol
//! by symbol.

use crate::market::{EventData, Symbol};
use crate::num::Num;
use crate::synthetic::{
    self, QuoteTerms, Schedule, SymState, SyntheticConfig, SyntheticSymbol, INTRA_STEPS_PER_BAR,
};
use vstd::prelude::*;

verus! {

/// What the machine draws and evaluates for one bar of one symbol.
pub struct BarDraws {
    /// Normal draws of the steps.
    pub normals: Seq<Num>,
    /// Growth of spot in each step.
    pub growth: Seq<Num>,
    /// Normal draw of the volatility.
    pub vz: Num,
    /// Terms of the chain.
    pub terms: Seq<QuoteTerms>,
}

/// A symbol at the end of its bar `k`, before the bar is closed.
pub open spec fn at_close(s: SymState, draws: Seq<BarDraws>, k: nat) -> SymState {
    state_at(s, draws, k).stepped(
        draws[k as int].normals,
        draws[k as int].growth,
        draws[k as int].vz,
    )
}

/// A symbol before its bar `k`.
pub open spec fn state_at(s: SymState, draws: Seq<BarDraws>, k: nat) -> SymState
    decreases k,
{
    if k == 0 {
        s
    } else {
        let d = draws[k - 1];
        state_at(s, draws, (k - 1) as nat).stepped(d.normals, d.growth, d.vz).with_fresh_bar()
    }
}

/// The schedule before bar `k`.
pub open spec fn schedule_at(s: Schedule, k: nat) -> Schedule
    decreases k,
{
    if k == 0 {
        s
    } else {
        schedule_at(s, (k - 1) as nat).following()
    }
}

/// The events of the first `m` symbols in bar `k`.
pub open spec fn round(
    schedule: Schedule,
    states: Seq<SymState>,
    draws: Seq<Seq<BarDraws>>,
    k: nat,
    m: nat,
) -> Seq<EventData>
    decreases m,
{
    if m == 0 {
        Seq::empty()
    } else {
        round(schedule, states, draws, k, (m - 1) as nat) + at_close(
            states[m - 1],
            draws[m - 1],
            k,
        ).bar_events(schedule_at(schedule, k).beat(), draws[m - 1][k as int].terms)
    }
}

/// The events of the first `n` bars.
pub open spec fn stream(
    schedule: Schedule,
    states: Seq<SymState>,
    draws: Seq<Seq<BarDraws>>,
    n: nat,
) -> Seq<EventData>
    decreases n,
{
    if n == 0 {
        Seq::empty()
    } else {
        stream(schedule, states, draws, (n - 1) as nat) + round(
            schedule,
            states,
            draws,
            (n - 1) as nat,
            states.len(),
        )
    }
}

/// The events of the first `n` bars of a feed.
pub open spec fn feed(
    config: SyntheticConfig,
    symbols: Seq<SyntheticSymbol>,
    draws: Seq<Seq<BarDraws>>,
    n: nat,
) -> Seq<EventData> {
    stream(Schedule::first(config), first_states(symbols), draws, n)
}

/// The first states of some symbols.
pub open spec fn first_states(symbols: Seq<SyntheticSymbol>) -> Seq<SymState> {
    symbols.map_values(|s: SyntheticSymbol| SymState::first(s))
}

/// Whether two states are the same.
pub open spec fn same_state(a: SymState, b: SymState) -> bool {
    &&& a.params.same(b.params)
    &&& a.spot == b.spot
    &&& a.vol == b.vol
    &&& a.bar_open == b.bar_open
    &&& a.bar_high == b.bar_high
    &&& a.bar_low == b.bar_low
    &&& a.bar_volume == b.bar_volume
}

proof fn lemma_same_state(a: SymState, b: SymState, draws: Seq<BarDraws>, k: nat)
    requires
        same_state(a, b),
    ensures
        same_state(state_at(a, draws, k), state_at(b, draws, k)),
        same_state(at_close(a, draws, k), at_close(b, draws, k)),
    decreases k,
{
    if k > 0 {
        lemma_same_state(a, b, draws, (k - 1) as nat);
    }
}

/// The same states quote the same.
proof fn lemma_same_quotes(
    a: SymState,
    b: SymState,
    expiry: crate::market::ExpiryDate,
    t: Seq<QuoteTerms>,
    n: nat,
)
    requires
        same_state(a, b),
    ensures
        a.quotes(expiry, t, n) == b.quotes(expiry, t, n),
    decreases n,
{
    if n > 0 {
        lemma_same_quotes(a, b, expiry, t, (n - 1) as nat);
        let (offset, right) = synthetic::place(n - 1);
        assert(a.contract(offset, right) == b.contract(offset, right));
        assert(a.is_quoted(offset, right) == b.is_quoted(offset, right));
        assert(a.quote(offset, right, expiry, t[n - 1]) == b.quote(
            offset,
            right,
            expiry,
            t[n - 1],
        ));
    }
}

proof fn lemma_same_events(a: SymState, b: SymState, beat: synthetic::Beat, t: Seq<QuoteTerms>)
    requires
        same_state(a, b),
    ensures
        a.bar_events(beat, t) == b.bar_events(beat, t),
{
    lemma_same_quotes(
        a.with_fresh_bar(),
        b.with_fresh_bar(),
        synthetic::chain_expiry(beat.ts),
        t,
        2 * synthetic::STRIKES as nat,
    );
}

proof fn lemma_same_round(
    schedule: Schedule,
    a: Seq<SymState>,
    b: Seq<SymState>,
    draws: Seq<Seq<BarDraws>>,
    k: nat,
    m: nat,
)
    requires
        m <= a.len() == b.len(),
        forall|i: int| 0 <= i < a.len() ==> same_state(#[trigger] a[i], b[i]),
    ensures
        round(schedule, a, draws, k, m) == round(schedule, b, draws, k, m),
    decreases m,
{
    if m > 0 {
        lemma_same_round(schedule, a, b, draws, k, (m - 1) as nat);
        assert(same_state(a[m - 1], b[m - 1]));
        lemma_same_state(a[m - 1], b[m - 1], draws[m - 1], k);
        lemma_same_events(
            at_close(a[m - 1], draws[m - 1], k),
            at_close(b[m - 1], draws[m - 1], k),
            schedule_at(schedule, k).beat(),
            draws[m - 1][k as int].terms,
        );
    }
}

proof fn lemma_same_stream(
    schedule: Schedule,
    a: Seq<SymState>,
    b: Seq<SymState>,
    draws: Seq<Seq<BarDraws>>,
    n: nat,
)
    requires
        a.len() == b.len(),
        forall|i: int| 0 <= i < a.len() ==> same_state(#[trigger] a[i], b[i]),
    ensures
        stream(schedule, a, draws, n) == stream(schedule, b, draws, n),
    decreases n,
{
    if n > 0 {
        lemma_same_stream(schedule, a, b, draws, (n - 1) as nat);
        lemma_same_round(schedule, a, b, draws, (n - 1) as nat, a.len());
    }
}

/// Equal configurations simulate equal events, however many bars on, from equal
/// draws; and the draws come from equal seeds.
pub proof fn law_equal_feeds_agree(
    a: SyntheticConfig,
    b: SyntheticConfig,
    s: Seq<SyntheticSymbol>,
    t: Seq<SyntheticSymbol>,
    draws: Seq<Seq<BarDraws>>,
    n: nat,
)
    requires
        a.seed == b.seed,
        a.start_ts == b.start_ts,
        a.warmup_bars == b.warmup_bars,
        s.len() == t.len(),
        forall|i: int| 0 <= i < s.len() ==> (#[trigger] s[i]).same(t[i]),
    ensures
        feed(a, s, draws, n) == feed(b, t, draws, n),
        forall|i: int|
            0 <= i < s.len() ==> synthetic::seed_of(a.seed, (#[trigger] s[i]).symbol@)
                == synthetic::seed_of(b.seed, t[i].symbol@),
{
    let (x, y) = (first_states(s), first_states(t));
    assert forall|i: int| 0 <= i < x.len() implies same_state(#[trigger] x[i], y[i]) by {
        assert(s[i].same(t[i]));
    }
    lemma_same_stream(Schedule::first(a), x, y, draws, n);
}

/// Whether the draws of a symbol let spot grow: a positive finite factor in
/// every step of the first `n` bars.
pub open spec fn sound_draws(draws: Seq<BarDraws>, n: nat) -> bool {
    forall|k: int, j: int|
        0 <= k < n && 0 <= j < INTRA_STEPS_PER_BAR ==> grows(#[trigger] draws[k].growth[j])
}

/// A positive finite factor.
pub open spec fn grows(g: Num) -> bool {
    Num::of(crate::consts::ZERO).flt(g) && g.finite()
}

/// Whether an event is a sane candle.
pub open spec fn sane_candle(e: EventData) -> bool {
    match e {
        EventData::Candle { candle: c, .. } => {
            &&& c.low.fle(c.open) && c.low.fle(c.close)
            &&& c.open.fle(c.high) && c.close.fle(c.high)
        },
        _ => false,
    }
}

/// Before each bar spot is a number without sign, and the bar is fresh.
proof fn lemma_fresh(s: SyntheticSymbol, draws: Seq<BarDraws>, k: nat, n: nat)
    requires
        k <= n,
        !s.spot.nan() && !s.spot.negative(),
        sound_draws(draws, n),
        forall|i: int|
            0 <= i < n ==> (#[trigger] draws[i]).growth.len() == INTRA_STEPS_PER_BAR,
    ensures
        ({
            let x = state_at(SymState::first(s), draws, k);
            &&& !x.spot.nan() && !x.spot.negative()
            &&& x.bar_open == x.spot && x.bar_high == x.spot && x.bar_low == x.spot
        }),
    decreases k,
{
    if k > 0 {
        lemma_fresh(s, draws, (k - 1) as nat, n);
        lemma_sane_bar(s, draws, (k - 1) as nat, n);
    }
}

/// The bar of each step is sane.
proof fn lemma_sane_bar(s: SyntheticSymbol, draws: Seq<BarDraws>, k: nat, n: nat)
    requires
        k < n,
        sound_draws(draws, n),
        draws[k as int].growth.len() == INTRA_STEPS_PER_BAR,
        ({
            let x = state_at(SymState::first(s), draws, k);
            &&& !x.spot.nan() && !x.spot.negative()
            &&& x.bar_open == x.spot && x.bar_high == x.spot && x.bar_low == x.spot
        }),
    ensures
        ({
            let y = at_close(SymState::first(s), draws, k);
            &&& !y.spot.nan() && !y.spot.negative()
            &&& y.bar_low.fle(y.bar_open) && y.bar_low.fle(y.spot)
            &&& y.bar_open.fle(y.bar_high) && y.spot.fle(y.bar_high)
        }),
{
    let g = draws[k as int].growth;
    assert forall|j: int| 0 <= j < INTRA_STEPS_PER_BAR implies Num::of(crate::consts::ZERO).flt(
        #[trigger] g[j],
    ) && g[j].finite() by {
        assert(grows(draws[k as int].growth[j]));
    }
    synthetic::law_bars_are_sane(
        state_at(SymState::first(s), draws, k).spot,
        g,
        INTRA_STEPS_PER_BAR as nat,
    );
}

/// The schedule stays in its warmup as long as bars of it are left.
proof fn lemma_warming(config: SyntheticConfig, k: nat)
    requires
        k <= config.warmup_bars,
    ensures
        schedule_at(Schedule::first(config), k).warmup_left == config.warmup_bars - k,
    decreases k,
{
    if k > 0 {
        lemma_warming(config, (k - 1) as nat);
    }
}

/// Whether the draws of every symbol are sound.
pub open spec fn all_sound(
    symbols: Seq<SyntheticSymbol>,
    draws: Seq<Seq<BarDraws>>,
    n: nat,
) -> bool {
    forall|i: int|
        0 <= i < symbols.len() ==> {
            &&& !(#[trigger] symbols[i]).spot.nan() && !symbols[i].spot.negative()
            &&& sound_draws(draws[i], n)
            &&& forall|k: int|
                0 <= k < n ==> (#[trigger] draws[i][k]).growth.len() == INTRA_STEPS_PER_BAR
        }
}

proof fn lemma_warm_round(
    config: SyntheticConfig,
    symbols: Seq<SyntheticSymbol>,
    draws: Seq<Seq<BarDraws>>,
    k: nat,
    m: nat,
    n: nat,
)
    requires
        k < n <= config.warmup_bars,
        m <= symbols.len(),
        all_sound(symbols, draws, n),
    ensures
        ({
            let r = round(Schedule::first(config), first_states(symbols), draws, k, m);
            &&& r.len() == m
            &&& forall|i: int| 0 <= i < r.len() ==> sane_candle(#[trigger] r[i])
        }),
    decreases m,
{
    if m > 0 {
        let (schedule, states) = (Schedule::first(config), first_states(symbols));
        lemma_warm_round(config, symbols, draws, k, (m - 1) as nat, n);
        lemma_warming(config, k);
        let s = symbols[m - 1];
        let d = draws[m - 1];
        assert(!s.spot.nan() && !s.spot.negative() && sound_draws(d, n));
        assert(d[k as int].growth.len() == INTRA_STEPS_PER_BAR);
        lemma_fresh(s, d, k, n);
        lemma_sane_bar(s, d, k, n);
        let last = at_close(SymState::first(s), d, k).bar_events(
            schedule_at(schedule, k).beat(),
            d[k as int].terms,
        );
        assert(last.len() == 1 && sane_candle(last[0]));
        let (all, rest) = (
            round(schedule, states, draws, k, m),
            round(schedule, states, draws, k, (m - 1) as nat),
        );
        assert(states[m - 1] == SymState::first(s));
        assert(all == rest + last);
        assert forall|i: int| 0 <= i < all.len() implies sane_candle(#[trigger] all[i]) by {
            if i < rest.len() {
                assert(all[i] == rest[i]);
            }
        }
    }
}

/// A feed begins with its warmup: one sane candle per symbol and bar.
pub proof fn law_warmup_is_sane_candles(
    config: SyntheticConfig,
    symbols: Seq<SyntheticSymbol>,
    draws: Seq<Seq<BarDraws>>,
    n: nat,
)
    requires
        n <= config.warmup_bars,
        all_sound(symbols, draws, n),
    ensures
        feed(config, symbols, draws, n).len() == n * symbols.len(),
        forall|i: int|
            0 <= i < feed(config, symbols, draws, n).len() ==> sane_candle(
                #[trigger] feed(config, symbols, draws, n)[i],
            ),
    decreases n,
{
    if n > 0 {
        let m = (n - 1) as nat;
        assert(all_sound(symbols, draws, m));
        law_warmup_is_sane_candles(config, symbols, draws, m);
        lemma_warm_round(config, symbols, draws, m, symbols.len(), n);
        let (all, rest) = (feed(config, symbols, draws, n), feed(config, symbols, draws, m));
        let last = round(Schedule::first(config), first_states(symbols), draws, m, symbols.len());
        assert(all == rest + last);
        let k = symbols.len();
        assert(n * k == m * k + k) by (nonlinear_arith)
            requires
                n == m + 1,
        ;
        assert forall|i: int| 0 <= i < all.len() implies sane_candle(#[trigger] all[i]) by {
            if i < rest.len() {
                assert(all[i] == rest[i]);
            } else {
                assert(all[i] == last[i - rest.len()]);
            }
        }
    }
}

/// Whether an event is about one of some symbols.
pub open spec fn about(e: EventData, symbols: Seq<SyntheticSymbol>) -> bool {
    exists|i: int| 0 <= i < symbols.len() && e.ticker() == (#[trigger] symbols[i]).symbol@
}

proof fn lemma_params(s: SymState, draws: Seq<BarDraws>, k: nat)
    ensures
        state_at(s, draws, k).params == s.params,
    decreases k,
{
    if k > 0 {
        lemma_params(s, draws, (k - 1) as nat);
    }
}

proof fn lemma_about_round(
    schedule: Schedule,
    symbols: Seq<SyntheticSymbol>,
    draws: Seq<Seq<BarDraws>>,
    k: nat,
    m: nat,
)
    requires
        m <= symbols.len(),
    ensures
        forall|i: int|
            0 <= i < round(schedule, first_states(symbols), draws, k, m).len() ==> about(
                #[trigger] round(schedule, first_states(symbols), draws, k, m)[i],
                symbols,
            ),
    decreases m,
{
    if m > 0 {
        let states = first_states(symbols);
        lemma_about_round(schedule, symbols, draws, k, (m - 1) as nat);
        lemma_params(states[m - 1], draws[m - 1], k);
        let last = at_close(states[m - 1], draws[m - 1], k).bar_events(
            schedule_at(schedule, k).beat(),
            draws[m - 1][k as int].terms,
        );
        let (all, rest) = (
            round(schedule, states, draws, k, m),
            round(schedule, states, draws, k, (m - 1) as nat),
        );
        assert(all == rest + last);
        assert forall|i: int| 0 <= i < all.len() implies about(#[trigger] all[i], symbols) by {
            if i < rest.len() {
                assert(all[i] == rest[i]);
            } else {
                assert(all[i] == last[i - rest.len()]);
                assert(all[i].ticker() == symbols[m - 1].symbol@);
            }
        }
    }
}

/// Every event of a feed is about one of its symbols.
pub proof fn law_events_are_about_the_symbols(
    config: SyntheticConfig,
    symbols: Seq<SyntheticSymbol>,
    draws: Seq<Seq<BarDraws>>,
    n: nat,
)
    ensures
        forall|i: int|
            0 <= i < feed(config, symbols, draws, n).len() ==> about(
                #[trigger] feed(config, symbols, draws, n)[i],
                symbols,
            ),
    decreases n,
{
    if n > 0 {
        let m = (n - 1) as nat;
        law_events_are_about_the_symbols(config, symbols, draws, m);
        lemma_about_round(Schedule::first(config), symbols, draws, m, symbols.len());
        let (all, rest) = (feed(config, symbols, draws, n), feed(config, symbols, draws, m));
        let last = round(Schedule::first(config), first_states(symbols), draws, m, symbols.len());
        assert(all == rest + last);
        assert forall|i: int| 0 <= i < all.len() implies about(#[trigger] all[i], symbols) by {
            if i < rest.len() {
                assert(all[i] == rest[i]);
            } else {
                assert(all[i] == last[i - rest.len()]);
            }
        }
    }
}

/// The symbols that are selected for a universe are in it.
pub proof fn law_selection_is_in_the_universe(
    symbols: Seq<SyntheticSymbol>,
    universe: Seq<Symbol>,
)
    ensures
        forall|i: int|
            0 <= i < synthetic::selected(symbols, universe).len() ==> synthetic::in_universe(
                universe,
                #[trigger] synthetic::selected(symbols, universe)[i],
            ),
    decreases symbols.len(),
{
    if symbols.len() > 0 {
        law_selection_is_in_the_universe(symbols.drop_last(), universe);
        let all = synthetic::selected(symbols, universe);
        let rest = synthetic::selected(symbols.drop_last(), universe);
        assert forall|i: int| 0 <= i < all.len() implies synthetic::in_universe(
            universe,
            #[trigger] all[i],
        ) by {
            if i < rest.len() {
                assert(all[i] == rest[i]);
            }
        }
    }
}

} // verus!
