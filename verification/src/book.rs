//! Rolling market state per symbol: a bounded candle history, the latest chain
//! snapshot and the latest spot.

use crate::market::{Candle, MarketEvent, OptionChain, SpotQuote, Symbol, TsMillis};
use crate::num::Num;
use std::collections::VecDeque;
use vstd::prelude::*;

verus! {

/// Most one-minute candles kept per symbol.
pub const CANDLE_CAPACITY: usize = 512;

/// Rolling state of one symbol.
#[derive(Debug, PartialEq)]
pub struct SymbolBook {
    /// Candle history, oldest first.
    pub candles: VecDeque<Candle>,
    /// Latest chain snapshot.
    pub chain: Option<OptionChain>,
    /// Latest spot quote.
    pub spot: Option<SpotQuote>,
    /// Time of the latest event.
    pub last_event_ts: TsMillis,
}

/// Whether a history is bounded and its times ascend strictly.
pub open spec fn history_ok(candles: Seq<Candle>) -> bool {
    &&& candles.len() <= CANDLE_CAPACITY
    &&& forall|i: int, j: int|
        0 <= i < j < candles.len() ==> (#[trigger] candles[i]).ts.0 < (#[trigger] candles[j]).ts.0
}

/// A history after a candle: one of the same time takes the place of the last,
/// an older one is dropped, a newer one is appended and pushes out the oldest.
pub open spec fn history_after(candles: Seq<Candle>, c: Candle) -> Seq<Candle> {
    if candles.len() > 0 && candles.last().ts == c.ts {
        candles.drop_last().push(c)
    } else if candles.len() > 0 && candles.last().ts.0 > c.ts.0 {
        candles
    } else if candles.len() == CANDLE_CAPACITY {
        candles.skip(1).push(c)
    } else {
        candles.push(c)
    }
}

/// The symbol that an event is about.
pub open spec fn event_symbol(e: MarketEvent) -> Seq<char> {
    match e {
        MarketEvent::Chain(c) => c.underlying@,
        MarketEvent::Candle { symbol, .. } => symbol@,
        MarketEvent::Spot(s) => s.symbol@,
    }
}

/// The time of an event.
pub open spec fn event_ts(e: MarketEvent) -> TsMillis {
    match e {
        MarketEvent::Chain(c) => c.ts,
        MarketEvent::Candle { candle, .. } => candle.ts,
        MarketEvent::Spot(s) => s.ts,
    }
}

impl SymbolBook {
    /// Whether the history is in order.
    pub open spec fn wf(self) -> bool {
        history_ok(self.candles@)
    }

    /// Whether a book has seen no event.
    pub open spec fn is_blank(self) -> bool {
        &&& self.candles@.len() == 0
        &&& self.chain is None
        &&& self.spot is None
        &&& self.last_event_ts == TsMillis(0)
    }

    /// Whether this is `before` after an event.
    pub open spec fn follows(self, before: SymbolBook, e: MarketEvent) -> bool {
        &&& self.last_event_ts == (if before.last_event_ts.0 < event_ts(e).0 {
            event_ts(e)
        } else {
            before.last_event_ts
        })
        &&& self.candles@ == (match e {
            MarketEvent::Candle { candle, .. } => history_after(before.candles@, candle),
            _ => before.candles@,
        })
        &&& self.chain == (match e {
            MarketEvent::Chain(c) => Some(c),
            _ => before.chain,
        })
        &&& self.spot == (match e {
            MarketEvent::Spot(s) => Some(s),
            _ => before.spot,
        })
    }

    /// The spot of a book: the quote's, else the chain's, else the last close.
    pub open spec fn price(self) -> Option<Num> {
        if self.spot is Some {
            Some((self.spot->0).price)
        } else if self.chain is Some {
            Some((self.chain->0).spot)
        } else if self.candles@.len() > 0 {
            Some(self.candles@.last().close)
        } else {
            None
        }
    }

    fn new() -> (r: SymbolBook)
        ensures
            r.is_blank(),
            r.wf(),
    {
        SymbolBook {
            candles: VecDeque::with_capacity(CANDLE_CAPACITY),
            chain: None,
            spot: None,
            last_event_ts: TsMillis(0),
        }
    }

    /// The spot of a book: the quote's, else the chain's, else the last close;
    /// none before any price.
    pub fn effective_spot(&self) -> (r: Option<Num>)
        ensures
            r == self.price(),
    {
        if let Some(s) = &self.spot {
            return Some(s.price);
        }
        if let Some(c) = &self.chain {
            return Some(c.spot);
        }
        let n: usize = self.candles.len();
        if n > 0 {
            Some(self.candles[n - 1].close)
        } else {
            None
        }
    }

    /// The candle history in one piece, oldest first.
    pub fn candle_slice(&self) -> (r: Vec<Candle>)
        ensures
            r@ == self.candles@,
    {
        let mut r: Vec<Candle> = Vec::new();
        let mut i: usize = 0;
        while i < self.candles.len()
            invariant
                i <= self.candles@.len(),
                r@ == self.candles@.take(i as int),
            decreases self.candles@.len() - i,
        {
            r.push(self.candles[i]);
            i = i + 1;
            proof {
                assert(r@ =~= self.candles@.take(i as int));
            }
        }
        proof {
            assert(r@ =~= self.candles@);
        }
        r
    }

    fn apply_candle(&mut self, candle: Candle)
        requires
            old(self).wf(),
        ensures
            final(self).candles@ == history_after(old(self).candles@, candle),
            final(self).wf(),
            final(self).chain == old(self).chain,
            final(self).spot == old(self).spot,
            final(self).last_event_ts == old(self).last_event_ts,
    {
        let n: usize = self.candles.len();
        proof {
            law_history_stays_in_order(self.candles@, candle);
        }
        if n > 0 && self.candles[n - 1].ts.0 == candle.ts.0 {
            let _ = self.candles.pop_back();
            self.candles.push_back(candle);
            proof {
                assert(self.candles@ =~= old(self).candles@.drop_last().push(candle));
            }
        } else if n > 0 && self.candles[n - 1].ts.0 > candle.ts.0 {
        } else {
            if n == CANDLE_CAPACITY {
                let _ = self.candles.pop_front();
                proof {
                    assert(self.candles@ =~= old(self).candles@.skip(1));
                }
            }
            self.candles.push_back(candle);
        }
    }
}

/// Whatever candle comes, a history stays bounded and in order of time.
pub proof fn law_history_stays_in_order(candles: Seq<Candle>, c: Candle)
    requires
        history_ok(candles),
    ensures
        history_ok(history_after(candles, c)),
        candles.len() <= history_after(candles, c).len(),
{
    let after = history_after(candles, c);
    if candles.len() > 0 {
        let last = candles[candles.len() - 1];
        assert forall|i: int, j: int| 0 <= i < j < after.len() implies (#[trigger] after[i]).ts.0
            < (#[trigger] after[j]).ts.0 by {
            if last.ts.0 < c.ts.0 && candles.len() == CANDLE_CAPACITY {
                assert(after[i] == candles[i + 1]);
                if j + 1 < candles.len() {
                    assert(after[j] == candles[j + 1]);
                } else if i + 1 < candles.len() - 1 {
                    assert(candles[i + 1].ts.0 < last.ts.0);
                }
            } else {
                assert(after[i] == candles[i]);
                if j < candles.len() - 1 {
                    assert(after[j] == candles[j]);
                } else if i < candles.len() - 1 {
                    assert(candles[i].ts.0 < last.ts.0);
                }
            }
        }
    }
}

/// A candle older than the last changes nothing.
pub proof fn law_late_candles_are_dropped(candles: Seq<Candle>, c: Candle)
    requires
        candles.len() > 0,
        c.ts.0 < candles.last().ts.0,
    ensures
        history_after(candles, c) == candles,
{
}

/// A book of one symbol.
#[derive(Debug, PartialEq)]
struct Entry {
    symbol: Symbol,
    book: SymbolBook,
}

/// Two sequences of entries have the same symbols at the same places.
spec fn same_symbols(a: Seq<Entry>, b: Seq<Entry>) -> bool {
    a.len() == b.len() && forall|k: int|
        0 <= k < a.len() ==> (#[trigger] a[k]).symbol@ == (#[trigger] b[k]).symbol@
}

/// The books of all symbols.
#[derive(Debug, PartialEq)]
pub struct MarketBook {
    entries: Vec<Entry>,
}

/// Place of a symbol among some entries.
spec fn place_of(entries: Seq<Entry>, symbol: Seq<char>) -> Option<int>
    decreases entries.len(),
{
    if entries.len() == 0 {
        None
    } else if entries.last().symbol@ == symbol {
        Some(entries.len() - 1)
    } else {
        place_of(entries.drop_last(), symbol)
    }
}

proof fn lemma_place(entries: Seq<Entry>, symbol: Seq<char>)
    ensures
        match place_of(entries, symbol) {
            Some(i) => 0 <= i < entries.len() && entries[i].symbol@ == symbol,
            None => forall|i: int| 0 <= i < entries.len() ==> (#[trigger] entries[i]).symbol@
                != symbol,
        },
    decreases entries.len(),
{
    if entries.len() > 0 && entries.last().symbol@ != symbol {
        lemma_place(entries.drop_last(), symbol);
        assert forall|i: int| 0 <= i < entries.len() - 1 implies #[trigger] entries[i]
            == entries.drop_last()[i] by {}
    }
}

proof fn lemma_place_is(entries: Seq<Entry>, symbol: Seq<char>, i: int)
    requires
        0 <= i < entries.len(),
        entries[i].symbol@ == symbol,
        forall|a: int, b: int|
            0 <= a < b < entries.len() ==> (#[trigger] entries[a]).symbol@ != (
            #[trigger] entries[b]).symbol@,
    ensures
        place_of(entries, symbol) == Some(i),
{
    lemma_place(entries, symbol);
    let k = place_of(entries, symbol);
    if k is None {
        assert(entries[i].symbol@ != symbol);
    } else if k->0 < i {
        assert(entries[k->0].symbol@ != entries[i].symbol@);
    } else if i < k->0 {
        assert(entries[i].symbol@ != entries[k->0].symbol@);
    }
}

impl MarketBook {
    /// Whether every symbol has one book, in order.
    pub closed spec fn wf(self) -> bool {
        &&& forall|a: int, b: int|
            0 <= a < b < self.entries@.len() ==> (#[trigger] self.entries@[a]).symbol@ != (
            #[trigger] self.entries@[b]).symbol@
        &&& forall|a: int| 0 <= a < self.entries@.len() ==> (#[trigger] self.entries@[a]).book.wf()
    }

    /// The book of a symbol, once an event has come for it.
    pub closed spec fn lookup(self, symbol: Seq<char>) -> Option<SymbolBook> {
        match place_of(self.entries@, symbol) {
            Some(i) => Some(self.entries@[i].book),
            None => None,
        }
    }

    /// No books.
    pub fn new() -> (r: MarketBook)
        ensures
            r.wf(),
            forall|s: Seq<char>| #[trigger] r.lookup(s) is None,
    {
        MarketBook { entries: Vec::new() }
    }

    fn find(&self, symbol: &Symbol) -> (r: Option<usize>)
        requires
            self.wf(),
        ensures
            match r {
                Some(i) => {
                    &&& i < self.entries@.len()
                    &&& place_of(self.entries@, symbol@) == Some(i as int)
                },
                None => place_of(self.entries@, symbol@) is None,
            },
    {
        let mut i: usize = 0;
        while i < self.entries.len()
            invariant
                self.wf(),
                i <= self.entries@.len(),
                forall|k: int| 0 <= k < i ==> (#[trigger] self.entries@[k]).symbol@ != symbol@,
            decreases self.entries@.len() - i,
        {
            if self.entries[i].symbol.same(symbol) {
                proof {
                    lemma_place_is(self.entries@, symbol@, i as int);
                }
                return Some(i);
            }
            i = i + 1;
        }
        proof {
            lemma_place(self.entries@, symbol@);
        }
        None
    }

    /// Applies one event and returns the symbol it is about.  A first event
    /// opens a book; the books of other symbols stay as they are.
    pub fn apply(&mut self, event: MarketEvent) -> (r: Symbol)
        requires
            old(self).wf(),
        ensures
            final(self).wf(),
            r@ == event_symbol(event),
            final(self).lookup(r@) is Some,
            match old(self).lookup(r@) {
                Some(b) => (final(self).lookup(r@)->0).follows(b, event),
                None => exists|b: SymbolBook|
                    #[trigger] b.is_blank() && (final(self).lookup(r@)->0).follows(b, event),
            },
            forall|s: Seq<char>|
                s != r@ ==> #[trigger] final(self).lookup(s) == old(self).lookup(s),
    {
        let (symbol, ts) = match &event {
            MarketEvent::Chain(c) => (c.underlying.clone(), c.ts),
            MarketEvent::Candle { symbol, candle, .. } => (symbol.clone(), candle.ts),
            MarketEvent::Spot(s) => (s.symbol.clone(), s.ts),
        };
        let ghost before = self.entries@;
        let i: usize = match self.find(&symbol) {
            Some(i) => i,
            None => {
                let book = SymbolBook::new();
                proof {
                    lemma_place(before, symbol@);
                    assert(book.is_blank());
                }
                self.entries.push(Entry { symbol: symbol.clone(), book });
                self.entries.len() - 1
            },
        };
        let ghost opened = self.entries@;
        proof {
            lemma_place(before, symbol@);
            assert forall|s: Seq<char>| s != symbol@ implies #[trigger] place_of(opened, s)
                == place_of(before, s) by {
                if opened.len() != before.len() {
                    assert(opened.drop_last() =~= before);
                }
            }
            assert(opened[i as int].symbol@ == symbol@);
            assert(forall|a: int, b: int|
                0 <= a < b < opened.len() ==> (#[trigger] opened[a]).symbol@ != (
                #[trigger] opened[b]).symbol@);
        }
        let mut book = SymbolBook::new();
        std::mem::swap(&mut book, &mut self.entries[i].book);
        if book.last_event_ts.0 < ts.0 {
            book.last_event_ts = ts;
        }
        match event {
            MarketEvent::Chain(chain) => {
                book.chain = Some(chain);
            },
            MarketEvent::Candle { candle, .. } => {
                book.apply_candle(candle);
            },
            MarketEvent::Spot(spot) => {
                book.spot = Some(spot);
            },
        }
        std::mem::swap(&mut book, &mut self.entries[i].book);
        proof {
            let after = self.entries@;
            assert(after.len() == opened.len());
            assert forall|k: int| 0 <= k < after.len() implies (#[trigger] after[k]).symbol@
                == opened[k].symbol@ && (k != i ==> after[k].book == opened[k].book) by {}
            lemma_place_is(after, symbol@, i as int);
            lemma_place_is(opened, symbol@, i as int);
            assert forall|s: Seq<char>| s != symbol@ implies #[trigger] self.lookup(s) == old(
                self,
            ).lookup(s) by {
                lemma_same_places(after, opened, s);
                lemma_place(opened, s);
                lemma_place(before, s);
                assert(place_of(opened, s) == place_of(before, s));
            }
        }
        symbol
    }

    /// The book of a symbol, to change in place.
    pub fn get_mut(&mut self, symbol: &Symbol) -> (r: Option<&mut SymbolBook>)
        requires
            old(self).wf(),
        ensures
            match r {
                Some(b) => {
                    &&& old(self).lookup(symbol@) == Some(*b)
                    &&& final(self).lookup(symbol@) == Some(*final(b))
                    &&& final(b).wf() ==> final(self).wf()
                    &&& forall|s: Seq<char>|
                        s != symbol@ ==> #[trigger] final(self).lookup(s) == old(self).lookup(s)
                },
                None => old(self).lookup(symbol@) is None && *final(self) == *old(self),
            },
    {
        match self.find(symbol) {
            Some(i) => {
                let ghost before = self.entries@;
                proof {
                    lemma_place(before, symbol@);
                    assert forall|after: Seq<Entry>, s: Seq<char>|
                        same_symbols(before, after) implies #[trigger] place_of(after, s)
                        == place_of(before, s) by {
                        lemma_same_places(after, before, s);
                    }
                    assert forall|s: Seq<char>| #[trigger] place_of(before, s) matches Some(
                        k,
                    ) ==> 0 <= k < before.len() && before[k].symbol@ == s by {
                        lemma_place(before, s);
                    }
                }
                let book = &mut self.entries[i].book;
                assert(forall|e: Entry|
                    e.symbol == before[i as int].symbol ==> #[trigger] same_symbols(
                        before,
                        before.update(i as int, e),
                    ));
                Some(book)
            },
            None => None,
        }
    }

    /// The book of a symbol, once an event has come for it.
    pub fn get(&self, symbol: &Symbol) -> (r: Option<&SymbolBook>)
        requires
            self.wf(),
        ensures
            match r {
                Some(b) => self.lookup(symbol@) == Some(*b) && b.wf(),
                None => self.lookup(symbol@) is None,
            },
    {
        match self.find(symbol) {
            Some(i) => Some(&self.entries[i].book),
            None => None,
        }
    }
}

proof fn lemma_same_places(a: Seq<Entry>, b: Seq<Entry>, s: Seq<char>)
    requires
        a.len() == b.len(),
        forall|k: int| 0 <= k < a.len() ==> (#[trigger] a[k]).symbol@ == b[k].symbol@,
    ensures
        place_of(a, s) == place_of(b, s),
    decreases a.len(),
{
    if a.len() > 0 {
        assert(a[a.len() - 1].symbol@ == b[a.len() - 1].symbol@);
        assert forall|k: int| 0 <= k < a.len() - 1 implies (#[trigger] a.drop_last()[k]).symbol@
            == b.drop_last()[k].symbol@ by {
            assert(a[k].symbol@ == b[k].symbol@);
        }
        lemma_same_places(a.drop_last(), b.drop_last(), s);
    }
}

} // verus!
