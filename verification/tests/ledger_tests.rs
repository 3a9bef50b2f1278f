use chronos::ledger::{Ledger, LedgerError, MarketPosition};
use chronos::risk::Caps;
use chronos::types::{Fill, Side};

const U: u128 = 1;
const S: u128 = 2;
const B: u128 = 3;

fn caps() -> Caps {
    Caps { max_position: 10_000, max_notional_cents: 1_000_000, rate_per_sec: 1000, burst: 2000 }
}

fn fill(m: &str, buyer: u128, seller: u128, price: u32, qty: u32) -> Fill {
    Fill { market_id: m.to_string(), taker_order_id: 100, maker_order_id: 200, price, qty, buyer, seller }
}

fn sample() -> Vec<Fill> {
    vec![fill("T", U, S, 40, 10), fill("T", U, S, 60, 10), fill("T", B, U, 70, 5)]
}

fn pos_of(l: &Ledger, user: u128, m: &str) -> Option<MarketPosition> {
    l.positions_for_user(user).into_iter().find(|(k, _)| k == m).map(|(_, p)| p)
}

fn pnl_of(l: &Ledger, user: u128) -> Option<i64> {
    l.realized_pnl_cents.iter().find(|(u, _)| *u == user).map(|(_, v)| *v)
}

#[test]
fn check_intent_enforces_position_and_notional_caps() {
    let l = Ledger::new();
    let c = caps();
    assert_eq!(l.check_intent(U, Side::Buy, 10_000, 100, "T", &c), Ok(()));
    assert_eq!(l.check_intent(U, Side::Buy, 10_001, 1, "T", &c), Err(LedgerError::PositionCap));
    assert_eq!(l.check_intent(U, Side::Sell, 10_001, 1, "T", &c), Err(LedgerError::PositionCap));
    assert_eq!(l.check_intent(U, Side::Buy, 10_000, 101, "T", &c), Err(LedgerError::NotionalCap));
    assert_eq!(LedgerError::PositionCap.message(), "position cap");
    assert_eq!(LedgerError::NotionalCap.message(), "notional cap");
}

#[test]
fn check_intent_counts_the_current_position() {
    let mut l = Ledger::new();
    let f = vec![fill("T", U, S, 50, 9_000)];
    assert!(l.fills_in_range(&f));
    l.apply_fills(&f);
    let c = caps();
    assert_eq!(l.check_intent(U, Side::Buy, 1_000, 1, "T", &c), Ok(()));
    assert_eq!(l.check_intent(U, Side::Buy, 1_001, 1, "T", &c), Err(LedgerError::PositionCap));
    assert_eq!(l.check_intent(U, Side::Sell, 19_000, 1, "T", &c), Ok(()));
    assert_eq!(l.check_intent(U, Side::Buy, 1_001, 1, "OTHER", &c), Ok(()));
    assert!(l.intent_in_range(U, Side::Buy, 5, 99, "T", &c));
    assert!(!l.intent_in_range(U, Side::Buy, 5, i64::MAX, "T", &c));
    assert!(l.intent_in_range(U, Side::Buy, 20_000, i64::MAX, "T", &c));
}

#[test]
fn apply_fills_averages_adds_and_reprices_reductions() {
    let mut l = Ledger::new();
    let f = sample();
    assert!(l.fills_in_range(&f));
    l.apply_fills(&f);
    assert_eq!(pos_of(&l, U, "T"), Some(MarketPosition { qty_yes: 15, avg_price_cents: 70 }));
    assert_eq!(pos_of(&l, S, "T"), Some(MarketPosition { qty_yes: -20, avg_price_cents: 50 }));
    assert_eq!(pos_of(&l, B, "T"), Some(MarketPosition { qty_yes: 5, avg_price_cents: 70 }));
}

#[test]
fn closing_a_position_resets_its_average() {
    let mut l = Ledger::new();
    l.apply_fills(&vec![fill("T", U, S, 40, 10), fill("T", S, U, 55, 10)]);
    assert_eq!(pos_of(&l, U, "T"), Some(MarketPosition { qty_yes: 0, avg_price_cents: 0 }));
    assert_eq!(pos_of(&l, S, "T"), Some(MarketPosition { qty_yes: 0, avg_price_cents: 0 }));
}

#[test]
fn flipping_a_position_keeps_the_fill_price() {
    let mut l = Ledger::new();
    l.apply_fills(&vec![fill("T", U, S, 40, 10), fill("T", S, U, 55, 25)]);
    assert_eq!(pos_of(&l, U, "T"), Some(MarketPosition { qty_yes: -15, avg_price_cents: 55 }));
}

#[test]
fn fills_are_zero_sum_per_market() {
    let mut l = Ledger::new();
    let mut f = sample();
    f.push(fill("Q", S, B, 30, 7));
    l.apply_fills(&f);
    let net = |m: &str| -> i64 {
        [U, S, B].iter().filter_map(|u| pos_of(&l, *u, m)).map(|p| p.qty_yes).sum()
    };
    assert_eq!(net("T"), 0);
    assert_eq!(net("Q"), 0);
}

#[test]
fn recent_fills_are_newest_first_and_limited() {
    let mut l = Ledger::new();
    l.apply_fills(&sample());
    let r = l.recent_fills(2);
    assert_eq!(r.len(), 2);
    assert_eq!((r[0].price, r[0].qty), (70, 5));
    assert_eq!((r[1].price, r[1].qty), (60, 10));
    assert_eq!(l.recent_fills(50).len(), 3);
    assert!(l.recent_fills(0).is_empty());
}

#[test]
fn market_trade_stats_count_and_notional() {
    let mut l = Ledger::new();
    let mut f = sample();
    f.push(fill("Q", S, B, 30, 7));
    l.apply_fills(&f);
    assert_eq!(l.market_trade_stats("T"), (3, 1350));
    assert_eq!(l.market_trade_stats("Q"), (1, 210));
    assert_eq!(l.market_trade_stats("NONE"), (0, 0));
}

#[test]
fn settlement_yes_pays_100_against_average_entry() {
    let mut l = Ledger::new();
    l.apply_fills(&sample());
    l.apply_fills(&vec![fill("Q", U, S, 30, 2)]);
    assert!(l.settlement_fits("T", true));
    l.apply_settlement("T", true);
    assert_eq!(pnl_of(&l, U), Some(450));
    assert_eq!(pnl_of(&l, S), Some(-1000));
    assert_eq!(pnl_of(&l, B), Some(150));
    assert_eq!(pos_of(&l, U, "T"), None);
    assert_eq!(pos_of(&l, B, "T"), None);
    assert_eq!(pos_of(&l, U, "Q"), Some(MarketPosition { qty_yes: 2, avg_price_cents: 30 }));
}

#[test]
fn settlement_no_pays_zero_and_accumulates() {
    let mut l = Ledger::new();
    l.apply_fills(&sample());
    l.apply_fills(&vec![fill("Q", U, S, 30, 2)]);
    l.apply_settlement("T", false);
    assert_eq!(pnl_of(&l, U), Some(-1050));
    assert_eq!(pnl_of(&l, S), Some(1000));
    l.apply_settlement("Q", true);
    assert_eq!(pnl_of(&l, U), Some(-1050 + 140));
    assert_eq!(pnl_of(&l, S), Some(1000 - 140));
    assert!(l.positions_for_user(U).is_empty());
}

#[test]
fn settlement_keeps_flat_positions() {
    let mut l = Ledger::new();
    l.apply_fills(&vec![fill("T", U, S, 40, 10), fill("T", S, U, 55, 10)]);
    l.apply_settlement("T", true);
    assert!(l.realized_pnl_cents.is_empty());
    assert_eq!(pos_of(&l, U, "T"), Some(MarketPosition { qty_yes: 0, avg_price_cents: 0 }));
}

#[test]
fn positions_beyond_u32_sizes_are_kept_exactly() {
    let mut l = Ledger::new();
    let big = vec![fill("T", U, S, 1, u32::MAX), fill("T", U, S, 1, u32::MAX), fill("T", U, S, 1, u32::MAX)];
    assert!(l.fills_in_range(&big));
    l.apply_fills(&big);
    let q = 3 * u32::MAX as i64;
    assert_eq!(pos_of(&l, U, "T"), Some(MarketPosition { qty_yes: q, avg_price_cents: 1 }));
    assert_eq!(pos_of(&l, S, "T"), Some(MarketPosition { qty_yes: -q, avg_price_cents: 1 }));
}

#[test]
fn fills_whose_averaging_overflows_are_refused() {
    let l = Ledger::new();
    let one = fill("T", U, S, 2_000_000_000, 4_000_000_000);
    assert!(l.fills_in_range(&vec![one.clone()]));
    assert!(!l.fills_in_range(&vec![one.clone(), one]));
    assert!(!l.fills_in_range(&vec![fill("T", U, S, u32::MAX, u32::MAX)]));
}

#[test]
fn settlement_of_large_positions_is_exact() {
    let mut l = Ledger::new();
    let mut f = Vec::new();
    for _ in 0..4 {
        f.push(fill("T", U, S, 0, u32::MAX));
    }
    l.apply_fills(&f);
    assert!(l.settlement_fits("T", true));
    l.apply_settlement("T", true);
    assert_eq!(pnl_of(&l, U), Some(4 * u32::MAX as i64 * 100));
    assert_eq!(pnl_of(&l, S), Some(-4 * u32::MAX as i64 * 100));
}
