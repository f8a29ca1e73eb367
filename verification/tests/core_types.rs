//! Core types: states, symbols, dates, quotes.

use slayer::error::CoreError;
use slayer::market::{ExpiryDate, OptionQuote, OptionRight, Symbol, TsMillis};
use slayer::num::Num;
use slayer::state::{BinaryState, HysteresisBand, Readout};

fn n(x: f64) -> Num {
    Num::of(x.to_bits())
}

fn band() -> HysteresisBand {
    HysteresisBand::new(n(0.7), n(0.4))
}

#[test]
fn activates_at_upper_threshold() {
    assert_eq!(band().resolve(n(0.7), BinaryState::Inactive), BinaryState::Active);
    assert_eq!(band().resolve(n(0.95), BinaryState::Inactive), BinaryState::Active);
}

#[test]
fn deactivates_at_lower_threshold() {
    assert_eq!(band().resolve(n(0.4), BinaryState::Active), BinaryState::Inactive);
    assert_eq!(band().resolve(n(0.1), BinaryState::Active), BinaryState::Inactive);
}

#[test]
fn holds_previous_state_inside_band() {
    assert_eq!(band().resolve(n(0.55), BinaryState::Active), BinaryState::Active);
    assert_eq!(band().resolve(n(0.55), BinaryState::Inactive), BinaryState::Inactive);
}

#[test]
fn non_finite_scores_resolve_inactive() {
    assert_eq!(band().resolve(n(f64::NAN), BinaryState::Active), BinaryState::Inactive);
    assert_eq!(band().resolve(n(f64::INFINITY), BinaryState::Active), BinaryState::Inactive);
    assert_eq!(band().resolve(n(f64::NEG_INFINITY), BinaryState::Active), BinaryState::Inactive);
}

#[test]
fn resolving_again_changes_nothing() {
    for s in [-1.0, 0.4, 0.5, 0.7, 2.0] {
        for p in [BinaryState::Active, BinaryState::Inactive] {
            let once = band().resolve(n(s), p);
            assert_eq!(band().resolve(n(s), once), once);
        }
    }
    let r = Readout::resolve(&HysteresisBand::strict(n(0.5)), n(0.5));
    assert!(r.state.is_active());
    assert_eq!(r.score, n(0.5));
    assert_eq!(BinaryState::default(), BinaryState::Inactive);
}

#[test]
fn symbol_normalizes_and_validates() {
    assert_eq!(Symbol::new(" spx ").unwrap().as_str(), "SPX");
    assert_eq!(Symbol::new("brk.b").unwrap().as_str(), "BRK.B");
    assert!(Symbol::new("").is_err());
    assert!(Symbol::new("BAD SYMBOL").is_err());
}

#[test]
fn symbol_errors_carry_the_raw_text() {
    assert_eq!(
        Symbol::new(" bad$ ").unwrap_err(),
        CoreError::InvalidSymbol(" bad$ ".to_owned())
    );
    assert!(Symbol::new("ABCDEFGHIJKL").is_ok());
    assert!(Symbol::new("ABCDEFGHIJKLM").is_err());
    assert!(Symbol::new("\u{3000}\tes/z\u{85}").unwrap().as_str() == "ES/Z");
    assert!(Symbol::new("é").is_err());
    let once = Symbol::new("qqq").unwrap();
    assert_eq!(Symbol::new(once.as_str()).unwrap(), once);
}

#[test]
fn mid_requires_sane_two_sided_market() {
    let q = |bid: Option<f64>, ask: Option<f64>| OptionQuote {
        strike: n(100.0),
        right: OptionRight::Call,
        expiry: ExpiryDate { year: 2026, month: 12, day: 18 },
        bid: bid.map(n),
        ask: ask.map(n),
        volume: 0,
        open_interest: 0,
        iv: None,
        greeks: None,
    };
    assert_eq!(q(Some(1.0), Some(2.0)).mid(), Some(n(1.5)));
    assert_eq!(q(None, Some(2.0)).mid(), None);
    assert_eq!(q(Some(3.0), Some(2.0)).mid(), None); // crossed
}

#[test]
fn expiry_displays_iso() {
    let e = ExpiryDate { year: 2026, month: 7, day: 2 };
    assert_eq!(e.to_text(), "2026-07-02");
}

#[test]
fn iso_texts_sort_like_dates() {
    let dates: Vec<ExpiryDate> = [(7, 12, 31), (999, 1, 9), (2026, 7, 2), (2026, 7, 17), (9999, 99, 99)]
        .iter()
        .map(|&(year, month, day)| ExpiryDate { year, month, day })
        .collect();
    for a in &dates {
        assert_eq!(a.to_text().len(), 10);
        for b in &dates {
            assert_eq!(a < b, a.to_text() < b.to_text());
            assert_eq!(a == b, a.to_text() == b.to_text());
        }
    }
}

#[test]
fn dates_outside_the_calendar_keep_their_digits() {
    assert_eq!(ExpiryDate { year: 65535, month: 255, day: 100 }.to_text(), "65535-255-100");
    assert_eq!(ExpiryDate { year: 7, month: 1, day: 31 }.to_text(), "0007-01-31");
}

#[test]
fn elapsed_time_saturates() {
    assert_eq!(TsMillis(10).saturating_since(TsMillis(4)), 6);
    assert_eq!(TsMillis(4).saturating_since(TsMillis(10)), 0);
}
