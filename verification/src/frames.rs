//! Published frames: the latest of each symbol and a bounded history for
//! replay, the answers to requests, and the course of a client session.

use crate::error::CoreError;
use crate::market::{self, Symbol};
use std::collections::VecDeque;
use vstd::prelude::*;

verus! {

/// Frames kept per symbol.
pub const REPLAY_DEPTH: usize = 900;

/// Frames of a replay that does not say how many.
pub const DEFAULT_REPLAY_FRAMES: usize = 120;

/// The frames of one symbol.
#[derive(Debug, PartialEq)]
struct Ring {
    symbol: Symbol,
    frames: VecDeque<String>,
}

/// The frames of all symbols.
#[derive(Debug, PartialEq)]
pub struct FrameStore {
    rings: Vec<Ring>,
}

/// The texts of some frames.
pub open spec fn texts(frames: Seq<String>) -> Seq<Seq<char>> {
    frames.map_values(|f: String| f@)
}

/// A history after a frame: at full depth the oldest leaves.
pub open spec fn ring_after(ring: Seq<Seq<char>>, frame: Seq<char>) -> Seq<Seq<char>> {
    if ring.len() == REPLAY_DEPTH {
        ring.skip(1).push(frame)
    } else {
        ring.push(frame)
    }
}

/// The last `n` frames of a history, oldest first.
pub open spec fn last_frames(ring: Seq<Seq<char>>, n: nat) -> Seq<Seq<char>> {
    if ring.len() <= n {
        ring
    } else {
        ring.skip(ring.len() - n)
    }
}

/// Place of a symbol among some rings.
spec fn place_of(rings: Seq<Ring>, symbol: Seq<char>) -> Option<int>
    decreases rings.len(),
{
    if rings.len() == 0 {
        None
    } else if rings.last().symbol@ == symbol {
        Some(rings.len() - 1)
    } else {
        place_of(rings.drop_last(), symbol)
    }
}

proof fn lemma_place(rings: Seq<Ring>, symbol: Seq<char>)
    ensures
        match place_of(rings, symbol) {
            Some(i) => 0 <= i < rings.len() && rings[i].symbol@ == symbol,
            None => forall|i: int| 0 <= i < rings.len() ==> (#[trigger] rings[i]).symbol@ != symbol,
        },
    decreases rings.len(),
{
    if rings.len() > 0 && rings.last().symbol@ != symbol {
        lemma_place(rings.drop_last(), symbol);
        assert forall|i: int| 0 <= i < rings.len() - 1 implies #[trigger] rings[i]
            == rings.drop_last()[i] by {}
    }
}

proof fn lemma_place_is(rings: Seq<Ring>, symbol: Seq<char>, i: int)
    requires
        0 <= i < rings.len(),
        rings[i].symbol@ == symbol,
        forall|a: int, b: int|
            0 <= a < b < rings.len() ==> (#[trigger] rings[a]).symbol@ != (
            #[trigger] rings[b]).symbol@,
    ensures
        place_of(rings, symbol) == Some(i),
{
    lemma_place(rings, symbol);
    let k = place_of(rings, symbol);
    if k is None {
        assert(rings[i].symbol@ != symbol);
    } else if k->0 < i {
        assert(rings[k->0].symbol@ != rings[i].symbol@);
    } else if i < k->0 {
        assert(rings[i].symbol@ != rings[k->0].symbol@);
    }
}

proof fn lemma_same_places(a: Seq<Ring>, b: Seq<Ring>, s: Seq<char>)
    requires
        a.len() == b.len(),
        forall|k: int| 0 <= k < a.len() ==> (#[trigger] a[k]).symbol@ == b[k].symbol@,
    ensures
        place_of(a, s) == place_of(b, s),
    decreases a.len(),
{
    if a.len() > 0 {
        assert(a[a.len() - 1].symbol@ == b[a.len() - 1].symbol@);
        assert forall|k: int| 0 <= k < a.len() - 1 implies (#[trigger] a.drop_last()[k]).symbol@
            == b.drop_last()[k].symbol@ by {
            assert(a[k].symbol@ == b[k].symbol@);
        }
        lemma_same_places(a.drop_last(), b.drop_last(), s);
    }
}

impl FrameStore {
    /// Whether every symbol has one history of bounded depth that is not empty.
    pub closed spec fn wf(self) -> bool {
        &&& forall|a: int, b: int|
            0 <= a < b < self.rings@.len() ==> (#[trigger] self.rings@[a]).symbol@ != (
            #[trigger] self.rings@[b]).symbol@
        &&& forall|a: int|
            0 <= a < self.rings@.len() ==> 0 < (#[trigger] self.rings@[a]).frames@.len()
                <= REPLAY_DEPTH
    }

    /// The history of a symbol, oldest first; empty before any frame.
    pub closed spec fn history(self, symbol: Seq<char>) -> Seq<Seq<char>> {
        match place_of(self.rings@, symbol) {
            Some(i) => texts(self.rings@[i].frames@),
            None => Seq::empty(),
        }
    }

    /// The symbols with frames, in order of their first.
    pub closed spec fn symbols(self) -> Seq<Seq<char>> {
        self.rings@.map_values(|r: Ring| r.symbol@)
    }

    /// No frames.
    pub fn new() -> (r: FrameStore)
        ensures
            r.wf(),
            r.symbols().len() == 0,
            forall|s: Seq<char>| (#[trigger] r.history(s)).len() == 0,
    {
        FrameStore { rings: Vec::new() }
    }

    fn find(&self, symbol: &Symbol) -> (r: Option<usize>)
        requires
            self.wf(),
        ensures
            match r {
                Some(i) => {
                    &&& i < self.rings@.len()
                    &&& place_of(self.rings@, symbol@) == Some(i as int)
                },
                None => place_of(self.rings@, symbol@) is None,
            },
    {
        let mut i: usize = 0;
        while i < self.rings.len()
            invariant
                self.wf(),
                i <= self.rings@.len(),
                forall|k: int| 0 <= k < i ==> (#[trigger] self.rings@[k]).symbol@ != symbol@,
            decreases self.rings@.len() - i,
        {
            if self.rings[i].symbol.same(symbol) {
                proof {
                    lemma_place_is(self.rings@, symbol@, i as int);
                }
                return Some(i);
            }
            i = i + 1;
        }
        proof {
            lemma_place(self.rings@, symbol@);
        }
        None
    }

    /// Publishes a frame of a symbol.
    pub fn publish(&mut self, symbol: &Symbol, frame: String)
        requires
            old(self).wf(),
        ensures
            final(self).wf(),
            final(self).history(symbol@) == ring_after(old(self).history(symbol@), frame@),
            forall|s: Seq<char>|
                s != symbol@ ==> #[trigger] final(self).history(s) == old(self).history(s),
            final(self).symbols() == (if old(self).history(symbol@).len() == 0 {
                old(self).symbols().push(symbol@)
            } else {
                old(self).symbols()
            }),
    {
        let ghost before = self.rings@;
        match self.find(symbol) {
            None => {
                let mut frames: VecDeque<String> = VecDeque::new();
                frames.push_back(frame);
                self.rings.push(Ring { symbol: symbol.clone(), frames });
                proof {
                    let after = self.rings@;
                    lemma_place(before, symbol@);
                    assert(after.drop_last() =~= before);
                    assert(texts(frames@) =~= seq![frame@]);
                    assert(self.symbols() =~= old(self).symbols().push(symbol@));
                    assert forall|s: Seq<char>| s != symbol@ implies #[trigger] self.history(s)
                        == old(self).history(s) by {
                        lemma_place(before, s);
                    }
                }
            },
            Some(i) => {
                let mut frames: VecDeque<String> = VecDeque::new();
                std::mem::swap(&mut frames, &mut self.rings[i].frames);
                let ghost was = frames@;
                if frames.len() == REPLAY_DEPTH {
                    let _ = frames.pop_front();
                }
                frames.push_back(frame);
                let ghost now = frames@;
                std::mem::swap(&mut frames, &mut self.rings[i].frames);
                proof {
                    let after = self.rings@;
                    lemma_place(before, symbol@);
                    assert(texts(now) =~= ring_after(texts(was), frame@));
                    assert forall|k: int| 0 <= k < after.len() implies (
                    #[trigger] after[k]).symbol@ == before[k].symbol@ && (k != i
                        ==> after[k].frames == before[k].frames) by {}
                    lemma_place_is(after, symbol@, i as int);
                    lemma_place_is(before, symbol@, i as int);
                    assert(before[i as int].frames@.len() > 0);
                    assert(self.symbols() =~= old(self).symbols());
                    assert forall|s: Seq<char>| s != symbol@ implies #[trigger] self.history(s)
                        == old(self).history(s) by {
                        lemma_same_places(after, before, s);
                        lemma_place(before, s);
                    }
                }
            },
        }
    }

    /// The latest frame of a symbol.
    pub fn latest(&self, symbol: &Symbol) -> (r: Option<String>)
        requires
            self.wf(),
        ensures
            match r {
                Some(f) => self.history(symbol@).len() > 0 && f@ == self.history(symbol@).last(),
                None => self.history(symbol@).len() == 0,
            },
    {
        match self.find(symbol) {
            Some(i) => {
                let frames = &self.rings[i].frames;
                Some(frames[frames.len() - 1].clone())
            },
            None => None,
        }
    }

    /// The latest frame of every symbol.
    pub fn latest_all(&self) -> (r: Vec<String>)
        requires
            self.wf(),
        ensures
            r@.len() == self.symbols().len(),
            forall|i: int|
                0 <= i < r@.len() ==> (#[trigger] r@[i])@ == self.history(
                    self.symbols()[i],
                ).last(),
    {
        let mut r: Vec<String> = Vec::new();
        let mut i: usize = 0;
        while i < self.rings.len()
            invariant
                self.wf(),
                i <= self.rings@.len(),
                r@.len() == i,
                forall|k: int|
                    0 <= k < i ==> (#[trigger] r@[k])@ == self.history(self.symbols()[k]).last(),
            decreases self.rings@.len() - i,
        {
            proof {
                lemma_place_is(self.rings@, self.rings@[i as int].symbol@, i as int);
                assert(0 < self.rings@[i as int].frames@.len());
            }
            let frames = &self.rings[i].frames;
            r.push(frames[frames.len() - 1].clone());
            i = i + 1;
        }
        r
    }

    /// Up to `n` of the most recent frames of a symbol, oldest first.
    pub fn replay(&self, symbol: &Symbol, n: usize) -> (r: Vec<String>)
        requires
            self.wf(),
        ensures
            texts(r@) == last_frames(self.history(symbol@), n as nat),
    {
        let mut r: Vec<String> = Vec::new();
        match self.find(symbol) {
            None => {
                proof {
                    assert(texts(r@) =~= last_frames(self.history(symbol@), n as nat));
                }
                r
            },
            Some(at) => {
                let frames = &self.rings[at].frames;
                let len: usize = frames.len();
                let start: usize = if len <= n {
                    0
                } else {
                    len - n
                };
                let mut i: usize = start;
                while i < len
                    invariant
                        start <= i <= len == frames@.len(),
                        texts(r@) == texts(frames@).subrange(start as int, i as int),
                    decreases len - i,
                {
                    let ghost done = r@;
                    r.push(frames[i].clone());
                    proof {
                        assert(texts(r@) =~= texts(done).push(texts(frames@)[i as int]));
                    }
                    i = i + 1;
                    proof {
                        assert(texts(r@) =~= texts(frames@).subrange(start as int, i as int));
                    }
                }
                proof {
                    assert(texts(r@) =~= last_frames(texts(frames@), n as nat));
                }
                r
            },
        }
    }
}

/// The symbols of a store are those with frames, each once.
pub proof fn law_symbols_have_frames(store: FrameStore, symbol: Seq<char>)
    requires
        store.wf(),
    ensures
        store.symbols().contains(symbol) <==> store.history(symbol).len() > 0,
        store.symbols().no_duplicates(),
{
    lemma_place(store.rings@, symbol);
    if store.symbols().contains(symbol) {
        let i = choose|i: int| 0 <= i < store.symbols().len() && store.symbols()[i] == symbol;
        assert(store.rings@[i].symbol@ == symbol);
        lemma_place_is(store.rings@, symbol, i);
        assert(store.rings@[i].frames@.len() > 0);
    }
    if let Some(i) = place_of(store.rings@, symbol) {
        assert(store.symbols()[i] == symbol);
    }
    assert forall|a: int, b: int|
        0 <= a < store.symbols().len() && 0 <= b < store.symbols().len() && a != b implies
        store.symbols()[a] != store.symbols()[b] by {
        assert(store.rings@[a].symbol@ == store.symbols()[a]);
        assert(store.rings@[b].symbol@ == store.symbols()[b]);
    }
}

/// A history never grows beyond its depth, and its last frame is the one
/// published last.
pub proof fn law_history_is_bounded(ring: Seq<Seq<char>>, frame: Seq<char>)
    requires
        ring.len() <= REPLAY_DEPTH,
    ensures
        0 < ring_after(ring, frame).len() <= REPLAY_DEPTH,
        ring_after(ring, frame).last() == frame,
{
}

/// The frames of a replay follow each other as they were published.
pub proof fn law_replay_is_a_suffix(ring: Seq<Seq<char>>, n: nat)
    ensures
        last_frames(ring, n).len() <= n,
        last_frames(ring, n).len() <= ring.len(),
        forall|i: int|
            0 <= i < last_frames(ring, n).len() ==> #[trigger] last_frames(ring, n)[i] == ring[i
                + ring.len() - last_frames(ring, n).len()],
{
}

/// How many frames a replay request asks for.
pub fn replay_count(n: Option<usize>) -> (r: usize)
    ensures
        r == (match n {
            Some(k) => k,
            None => DEFAULT_REPLAY_FRAMES,
        }),
{
    match n {
        Some(k) => k,
        None => DEFAULT_REPLAY_FRAMES,
    }
}

/// Frames with commas between them.
pub open spec fn joined(frames: Seq<Seq<char>>) -> Seq<char>
    decreases frames.len(),
{
    if frames.len() == 0 {
        Seq::empty()
    } else if frames.len() == 1 {
        frames[0]
    } else {
        joined(frames.drop_last()).push(',') + frames.last()
    }
}

/// The body of a replay response: the frames as one array.
pub fn replay_body(frames: &Vec<String>) -> (r: String)
    ensures
        r@ == seq!['['] + joined(texts(frames@)) + seq![']'],
{
    let mut body = String::new();
    body.push('[');
    let mut i: usize = 0;
    proof {
        assert(texts(frames@).take(0) =~= Seq::<Seq<char>>::empty());
        assert(body@ =~= seq!['['] + joined(texts(frames@).take(0)));
    }
    while i < frames.len()
        invariant
            i <= frames@.len(),
            body@ == seq!['['] + joined(texts(frames@).take(i as int)),
        decreases frames@.len() - i,
    {
        let ghost done = texts(frames@).take(i as int);
        if i > 0 {
            body.push(',');
        }
        body.push_str(frames[i].as_str());
        proof {
            let more = texts(frames@).take(i + 1);
            assert(more.drop_last() =~= done);
            assert(more.last() == frames@[i as int]@);
            assert(body@ =~= seq!['['] + joined(more));
        }
        i = i + 1;
    }
    proof {
        assert(texts(frames@).take(i as int) =~= texts(frames@));
    }
    body.push(']');
    proof {
        assert(body@ =~= seq!['['] + joined(texts(frames@)) + seq![']']);
    }
    body
}

/// The answer to a request.
#[derive(Debug, PartialEq, Eq)]
pub enum Reply {
    /// The symbol is no ticker; holds the text as it was given.
    BadRequest(String),
    /// There is no snapshot of the symbol.
    NotFound,
    /// The body of the answer.
    Json(String),
}

impl Reply {
    /// The status code of an answer.
    pub fn status(&self) -> (r: u16)
        ensures
            r == (match *self {
                Reply::BadRequest(_) => 400u16,
                Reply::NotFound => 404u16,
                Reply::Json(_) => 200u16,
            }),
    {
        match self {
            Reply::BadRequest(_) => 400,
            Reply::NotFound => 404,
            Reply::Json(_) => 200,
        }
    }
}

impl FrameStore {
    /// Answers a request for the latest snapshot of a symbol.
    pub fn snapshot_reply(&self, raw: &str) -> (r: Reply)
        requires
            self.wf(),
        ensures
            ({
                let name = market::normalized(raw@);
                match r {
                    Reply::BadRequest(given) => !market::valid_ticker(name) && given@ == raw@,
                    Reply::NotFound => market::valid_ticker(name) && self.history(name).len() == 0,
                    Reply::Json(body) => {
                        &&& market::valid_ticker(name)
                        &&& self.history(name).len() > 0
                        &&& body@ == self.history(name).last()
                    },
                }
            }),
    {
        match Symbol::new(raw) {
            Ok(symbol) => match self.latest(&symbol) {
                Some(frame) => Reply::Json(frame),
                None => Reply::NotFound,
            },
            Err(CoreError::InvalidSymbol(given)) => Reply::BadRequest(given),
        }
    }

    /// Answers a request for a replay of a symbol.
    pub fn replay_reply(&self, raw: &str, n: Option<usize>) -> (r: Reply)
        requires
            self.wf(),
        ensures
            ({
                let name = market::normalized(raw@);
                let count = match n {
                    Some(k) => k,
                    None => DEFAULT_REPLAY_FRAMES,
                };
                match r {
                    Reply::BadRequest(given) => !market::valid_ticker(name) && given@ == raw@,
                    Reply::NotFound => false,
                    Reply::Json(body) => {
                        &&& market::valid_ticker(name)
                        &&& body@ == seq!['['] + joined(
                            last_frames(self.history(name), count as nat),
                        ) + seq![']']
                    },
                }
            }),
    {
        match Symbol::new(raw) {
            Ok(symbol) => Reply::Json(replay_body(&self.replay(&symbol, replay_count(n)))),
            Err(CoreError::InvalidSymbol(given)) => Reply::BadRequest(given),
        }
    }
}

/// What happened on a client connection.
#[derive(Debug, Clone, Copy, PartialEq, Eq, Structural)]
pub enum SessionEvent {
    /// A frame was published.
    Frame,
    /// The client fell behind and frames were skipped.
    Lagged,
    /// No more frames will be published.
    Closed,
    /// The client sent a message.
    Inbound,
    /// The client left, or its message could not be read.
    Gone,
    /// A frame could not be sent.
    SendFailed,
}

/// What to do on a client connection.
#[derive(Debug, Clone, Copy, PartialEq, Eq, Structural)]
pub enum SessionAction {
    /// Send the frame.
    Send,
    /// Wait for what comes next.
    Wait,
    /// End the session.
    End,
}

/// The next step of a session: frames are sent, a lagging client skips forward,
/// messages are ignored, and the session ends with either side.
pub fn session_step(event: SessionEvent) -> (r: SessionAction)
    ensures
        r is Send <==> event is Frame,
        r is Wait <==> event is Lagged || event is Inbound,
        r is End <==> event is Closed || event is Gone || event is SendFailed,
{
    match event {
        SessionEvent::Frame => SessionAction::Send,
        SessionEvent::Lagged | SessionEvent::Inbound => SessionAction::Wait,
        SessionEvent::Closed | SessionEvent::Gone | SessionEvent::SendFailed => SessionAction::End,
    }
}

} // verus!
