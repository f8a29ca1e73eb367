//! Verified core of an options dealer-positioning terminal.

pub mod additive;
pub mod algebra;
pub mod arith;
pub mod black_scholes;
pub mod book;
pub mod bounds;
pub mod breakeven;
pub mod calendar;
pub mod calibration;
pub mod closeness;
pub mod config;
pub mod consts;
pub mod dealer;
pub mod dealer_read;
pub mod decimal;
pub mod decision;
pub mod dist;
pub mod error;
pub mod exact;
pub mod exposure;
pub mod first_passage;
pub mod flows;
pub mod frames;
pub mod gex;
pub mod greeks;
pub mod implied;
pub mod integral;
pub mod interpolation;
pub mod market;
pub mod mass;
pub mod monte_carlo;
pub mod moves;
pub mod multileg;
pub mod num;
pub mod payoff;
pub mod pipeline;
pub mod portfolio;
pub mod realized_vol;
pub mod regime;
pub mod risk;
pub mod rnd;
pub mod root;
pub mod rounding;
pub mod scenario;
pub mod smile;
pub mod sorting;
pub mod state;
pub mod stats;
pub mod stream;
pub mod sums;
pub mod synthetic;
pub mod technicals;
pub mod text;
pub mod thesis;
pub mod vol_metrics;
pub mod wilson;
pub mod wire;
pub mod worth;
pub mod zones;
