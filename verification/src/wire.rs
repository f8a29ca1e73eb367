//! Wire schema: the one definition of every payload that the gateway emits.
//!
//! Every stateful readout is a binary state beside the score that it was
//! resolved from.

use crate::market::{ExpiryDate, TsMillis};
use crate::num::Num;
use crate::state::{BinaryState, Readout};
use vstd::prelude::*;

verus! {

/// Protocol version; it rises with every breaking change of the schema.
pub const WIRE_VERSION: u32 = 1;

/// A labelled number with a unit, which is empty where there is none.
#[derive(Debug, PartialEq)]
pub struct Metric {
    /// Short label.
    pub label: String,
    /// Value.
    pub value: Num,
    /// Unit.
    pub unit: String,
}

impl Metric {
    /// Whether this is the metric of a label, a value and a unit.
    pub open spec fn is_of(self, label: Seq<char>, value: Num, unit: Seq<char>) -> bool {
        self.label@ == label && self.value == value && self.unit@ == unit
    }

    /// Whether two metrics read the same.
    pub open spec fn same(self, other: Metric) -> bool {
        self.is_of(other.label@, other.value, other.unit@)
    }

    /// The metric of a label, a value and a unit.
    pub fn new(label: &str, value: Num, unit: &str) -> (r: Metric)
        ensures
            r.is_of(label@, value, unit@),
    {
        Metric { label: label.to_owned(), value, unit: unit.to_owned() }
    }
}

impl Clone for Metric {
    fn clone(&self) -> (r: Metric)
        ensures
            r.same(*self),
    {
        Metric { label: self.label.clone(), value: self.value, unit: self.unit.clone() }
    }
}

/// Whether two rows of metrics read the same.
pub open spec fn same_metrics(a: Seq<Metric>, b: Seq<Metric>) -> bool {
    a.len() == b.len() && forall|i: int| 0 <= i < a.len() ==> (#[trigger] a[i]).same(b[i])
}

/// A copy of a row of metrics.
pub fn copy_metrics(v: &Vec<Metric>) -> (r: Vec<Metric>)
    ensures
        same_metrics(r@, v@),
{
    let mut r: Vec<Metric> = Vec::new();
    let mut i: usize = 0;
    while i < v.len()
        invariant
            i <= v@.len(),
            r@.len() == i,
            forall|k: int| 0 <= k < i ==> (#[trigger] r@[k]).same(v@[k]),
        decreases v@.len() - i,
    {
        r.push(v[i].clone());
        i = i + 1;
    }
    r
}

/// One rung of the per-strike exposure ladder.
#[derive(Debug, Clone, Copy, PartialEq)]
pub struct StrikeRow {
    /// Strike, points.
    pub strike: Num,
    /// Net gamma exposure.
    pub gex: Num,
    /// Net delta exposure.
    pub dex: Num,
    /// Net vanna exposure.
    pub vex: Num,
    /// Open interest of the strike, contracts.
    pub open_interest: u64,
    /// Whether this is the strike nearest spot.
    pub at_spot: bool,
}

/// A dealer wall and its zone-state.
#[derive(Debug, Clone, Copy, PartialEq)]
pub struct WallReadout {
    /// Strike; none where no wall dominates on this side.
    pub strike: Option<Num>,
    /// Signed margin on the defended side, a fraction of spot.
    pub margin: Num,
    /// Strength, 0 to 100.
    pub strength: Num,
    /// Whether the wall is in force; the score is the margin in testing bands.
    pub state: Readout,
}

/// Dealer positioning.
#[derive(Debug, PartialEq)]
pub struct DealerPanel {
    /// Net gamma exposure.
    pub net_gex: Num,
    /// Gross gamma exposure.
    pub gross_gex: Num,
    /// Net delta exposure.
    pub net_dex: Num,
    /// Net vanna exposure.
    pub net_vex: Num,
    /// Net charm exposure, per year.
    pub net_charm: Num,
    /// Dealer state index, in [-1, 1].
    pub dsi: Num,
    /// The index mapped to [0, 1].
    pub dealer01: Num,
    /// Gamma-flip spot; none without a crossing.
    pub gamma_flip: Option<Num>,
    /// Whether the flip is a decisive one; the score is the crossing quality.
    pub gamma_flip_state: Readout,
    /// Call wall.
    pub call_wall: WallReadout,
    /// Put wall.
    pub put_wall: WallReadout,
    /// Expected move, a fraction of spot.
    pub expected_move_pct: Num,
    /// Strike of the greatest gravity.
    pub magnet: Option<Num>,
    /// Exposure ladder, ascending in strike.
    pub ladder: Vec<StrikeRow>,
    /// Quotes left out for lack of greeks and implied vol.
    pub excluded_quotes: u32,
}

impl DealerPanel {
    /// Whether two panels read the same.
    pub open spec fn same(self, other: DealerPanel) -> bool {
        &&& self.net_gex == other.net_gex
        &&& self.gross_gex == other.gross_gex
        &&& self.net_dex == other.net_dex
        &&& self.net_vex == other.net_vex
        &&& self.net_charm == other.net_charm
        &&& self.dsi == other.dsi
        &&& self.dealer01 == other.dealer01
        &&& self.gamma_flip == other.gamma_flip
        &&& self.gamma_flip_state == other.gamma_flip_state
        &&& self.call_wall == other.call_wall
        &&& self.put_wall == other.put_wall
        &&& self.expected_move_pct == other.expected_move_pct
        &&& self.magnet == other.magnet
        &&& self.ladder@ == other.ladder@
        &&& self.excluded_quotes == other.excluded_quotes
    }
}

impl Clone for DealerPanel {
    fn clone(&self) -> (r: DealerPanel)
        ensures
            r.same(*self),
    {
        let ladder = self.ladder.clone();
        proof {
            assert(ladder@ =~= self.ladder@);
        }
        DealerPanel {
            net_gex: self.net_gex,
            gross_gex: self.gross_gex,
            net_dex: self.net_dex,
            net_vex: self.net_vex,
            net_charm: self.net_charm,
            dsi: self.dsi,
            dealer01: self.dealer01,
            gamma_flip: self.gamma_flip,
            gamma_flip_state: self.gamma_flip_state,
            call_wall: self.call_wall,
            put_wall: self.put_wall,
            expected_move_pct: self.expected_move_pct,
            magnet: self.magnet,
            ladder,
            excluded_quotes: self.excluded_quotes,
        }
    }
}

/// Directional thesis.
#[derive(Debug, PartialEq)]
pub struct ThesisPanel {
    /// Stability of the long side, 0 to 100.
    pub long_score: Num,
    /// Stability of the short side, 0 to 100.
    pub short_score: Num,
    /// +1 long, -1 short, 0 balanced.
    pub direction: i8,
    /// Whether the thesis is in force.
    pub engagement: Readout,
    /// Sub-scores of the dominant side, each 0 to 10.
    pub sub_scores: Vec<Metric>,
}

/// Volatility regime.
#[derive(Debug, PartialEq)]
pub struct RegimePanel {
    /// Hurst exponent.
    pub hurst: Num,
    /// Half-life of mean reversion, bars.
    pub half_life_bars: Option<Num>,
    /// Name of the regime.
    pub label: String,
    /// Probabilities of the regimes.
    pub probabilities: Vec<Metric>,
    /// Whether the most likely regime is confident.
    pub confidence: Readout,
    /// Whether volatility is compressed.
    pub compression: Readout,
    /// Whether volatility is expanding.
    pub expansion: Readout,
    /// Slope of the realized-vol term structure: near over far, less one.
    pub term_structure_slope: Num,
}

/// Volatility.
#[derive(Debug, PartialEq)]
pub struct VolPanel {
    /// Realized volatility, annualized.
    pub realized_vol: Num,
    /// Implied volatility at the money, annualized.
    pub implied_vol: Num,
    /// Implied less realized.
    pub variance_risk_premium: Num,
    /// Rank of the implied vol in its history, in [0, 1].
    pub iv_rank: Num,
    /// Percentile of the implied vol in its history, in [0, 1].
    pub iv_percentile: Num,
    /// Percentiles of the risk-neutral density, points.
    pub rnd_percentiles: Vec<Metric>,
}

/// Dealer flow.
#[derive(Debug, Clone, Copy, PartialEq)]
pub struct FlowPanel {
    /// Vanna hedge flow, in [-1, 1].
    pub vanna_flow: Num,
    /// Charm bias, in [-1, 1].
    pub charm_bias: Num,
    /// Migration of the gamma centre, in [-1, 1].
    pub migration: Num,
    /// Whether dealers adjust hedges.
    pub gamma_dynamics: Readout,
    /// Whether open interest flows.
    pub oi_flow: Readout,
}

/// One engine's state and score.
#[derive(Debug, PartialEq)]
pub struct EngineStatus {
    /// Engine name.
    pub engine: String,
    /// State.
    pub state: BinaryState,
    /// Score that the state was resolved from.
    pub score: Num,
}

impl EngineStatus {
    /// Whether this is the entry of a readout under a name.
    pub open spec fn is_of(self, name: Seq<char>, r: Readout) -> bool {
        self.engine@ == name && self.state == r.state && self.score == r.score
    }

    /// The entry of a readout under a name.
    pub fn new(name: &str, r: &Readout) -> (e: EngineStatus)
        ensures
            e.is_of(name@, *r),
    {
        EngineStatus { engine: name.to_owned(), state: r.state, score: r.score }
    }
}

/// The complete snapshot of one symbol.
#[derive(Debug, PartialEq)]
pub struct TerminalSnapshot {
    /// Protocol version.
    pub wire_version: u32,
    /// Ticker.
    pub symbol: String,
    /// Spot, points.
    pub spot: Num,
    /// Event time of the snapshot.
    pub ts: TsMillis,
    /// Nearest expiry of the chain.
    pub expiry: Option<ExpiryDate>,
    /// Whether the data is synthetic.
    pub synthetic: bool,
    /// Dealer positioning.
    pub dealer: DealerPanel,
    /// Directional thesis.
    pub thesis: ThesisPanel,
    /// Volatility regime.
    pub regime: RegimePanel,
    /// Volatility.
    pub vol: VolPanel,
    /// Dealer flow.
    pub flow: FlowPanel,
    /// State and score of every engine.
    pub engines: Vec<EngineStatus>,
}

/// Frames that the gateway pushes to its clients.
#[derive(Debug, PartialEq)]
pub enum WireFrame {
    /// First frame of a connection.
    Hello {
        /// Protocol version.
        wire_version: u32,
        /// Name of the feed.
        feed: String,
    },
    /// Snapshot of a symbol.
    Snapshot(Box<TerminalSnapshot>),
}

impl WireFrame {
    /// The first frame of a connection.
    pub fn hello(feed: &str) -> (r: WireFrame)
        ensures
            match r {
                WireFrame::Hello { wire_version, feed: f } => wire_version == WIRE_VERSION && f@
                    == feed@,
                _ => false,
            },
    {
        WireFrame::Hello { wire_version: WIRE_VERSION, feed: feed.to_owned() }
    }
}

} // verus!
