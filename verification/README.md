# slayer

The verified core of an options dealer-positioning terminal, with the gateway
that serves it.

`src/` is the library. Everything that is computed or decided stands there,
with its contract, and is proved by Verus: the pricing and distribution
kernel, the dealer, zone, regime and thesis engines, the strategy and risk
layers, the snapshot pipeline, the market book, the frame store and the
synthetic market. Nothing in it reads a clock, the environment, a socket or a
random number.

## Numbers

A price, a volatility or a score is a `Num`: the 64-bit pattern of a
double-precision number. Addition, multiplication, division, square root,
rounding and comparison of `Num` are integer code, proved to return the
correctly rounded result, so every contract says exactly which bits come out.

Exponentials, logarithms, hyperbolic tangents, cosines and random draws are
the machine's. A function that needs one takes its value as an argument, and
a companion function gives the point at which the machine is to evaluate it
(`gauss_arg` and `norm_cdf`, `exposure_args` and `analyze`, `step_exponents`
and `SymState::step`). The contracts then hold for every value that the machine
may hand back.

## Layout

| Path | What it holds |
| --- | --- |
| `src/num.rs`, `arith.rs`, `rounding.rs`, `root.rs`, `integral.rs` | numbers and their operations |
| `src/algebra.rs`, `bounds.rs`, `exact.rs`, `sums.rs`, `additive.rs`, `stats.rs`, `sorting.rs` | laws of rounded arithmetic, how far rounding moves a value, sums, order statistics |
| `src/dist.rs`, `black_scholes.rs`, `implied.rs`, `first_passage.rs`, `realized_vol.rs`, `rnd.rs`, `mass.rs`, `monte_carlo.rs`, `vol_metrics.rs` | pricing and distribution kernel |
| `src/state.rs`, `market.rs`, `wire.rs`, `error.rs`, `text.rs` | shared types, the two-state doctrine, the wire schema |
| `src/gex.rs`, `zones.rs`, `dealer.rs`, `dealer_read.rs`, `regime.rs`, `technicals.rs`, `thesis.rs` | signal engines |
| `src/multileg.rs`, `payoff.rs`, `breakeven.rs`, `portfolio.rs`, `scenario.rs` | strategies, their exact payoff and breakevens, books, shocks |
| `src/calibration.rs`, `wilson.rs`, `decision.rs`, `risk.rs` | calibration and its intervals, decisions, risk |
| `src/synthetic.rs`, `stream.rs`, `book.rs`, `pipeline.rs`, `frames.rs`, `config.rs`, `calendar.rs` | feed and its event stream, book, snapshots, stored frames, settings, calendar |
| `app/` | the gateway: environment, sockets, channels, random numbers, serialization |
| `tests/` | known values, and the laws on concrete values |

Functions named `law_...` state what holds across calls: they are proofs, not
code.

## Gateway

Settings come from `SLAYER_BIND`, `SLAYER_UNIVERSE` (comma-separated tickers)
and `SLAYER_SEED`. The gateway serves `/api/v1/health`,
`/api/v1/snapshot/{symbol}` and `/api/v1/replay/{symbol}`, and streams frames
at `/ws`.
