use chronos::engine::{Engine, RestoreError, SettleRec, WalRecord};
use chronos::hash::state_hash;
use chronos::orderbook::OrderBook;
use chronos::types::{BookError, Market, NewOrder, ReplaceOrder, Side, Tif};
use uuid::Uuid;

fn mk_m() -> Market {
    Market {
        id: "T".to_string(),
        name: "Test".to_string(),
        tick_size: 1,
        description: String::new(),
        tags: vec![],
    }
}

fn mk_named(id: &str) -> Market {
    Market {
        id: id.to_string(),
        name: id.to_string(),
        tick_size: 1,
        description: String::new(),
        tags: vec![],
    }
}

fn new_id() -> u128 {
    Uuid::new_v4().as_u128()
}

fn order(user: u128, side: Side, price: u32, qty: u32, tif: Tif) -> NewOrder {
    NewOrder {
        id: new_id(),
        user_id: user,
        market_id: "T".to_string(),
        side,
        price,
        qty,
        tif,
        idempotency: None,
    }
}

fn book_bytes(e: &Engine) -> Vec<Vec<u8>> {
    e.markets.iter().map(|ob| format!("{:?}", ob.state).into_bytes()).collect()
}

/// Places through the registry the way the service does: the record is
/// logged only when the placement reaches the book.
fn place_logged(e: &mut Engine, log: &mut Vec<WalRecord>, o: NewOrder) {
    if e.place_needs_log(&o) == Ok(true) {
        log.push(WalRecord::Place(o.clone()));
        e.place_order(o).unwrap();
    }
}

#[test]
fn wal_replay_matches_continuous_state_hash() {
    let mut log: Vec<WalRecord> = Vec::new();
    let h1 = {
        let mut e = Engine::new();
        e.ensure_market(mk_m());
        let a = new_id();
        let b = new_id();
        place_logged(&mut e, &mut log, order(a, Side::Sell, 50, 10, Tif::Gtc));
        place_logged(&mut e, &mut log, order(b, Side::Buy, 50, 4, Tif::Gtc));
        state_hash(&book_bytes(&e))
    };

    let mut e2 = Engine::new();
    e2.ensure_market(mk_m());
    e2.restore_from_latest(None, log).unwrap();
    let h2 = state_hash(&book_bytes(&e2));
    assert_eq!(h1, h2, "deterministic replay should match state hash");
}

#[test]
fn fok_rejects_when_not_fully_fillable() {
    let mut ob = OrderBook::new(mk_m());
    let a = new_id();
    let b = new_id();
    ob.place(order(a, Side::Sell, 50, 5, Tif::Gtc)).unwrap();
    let r = ob.place(order(b, Side::Buy, 50, 10, Tif::Fok)).unwrap();
    assert!(r.fills.is_empty());
    assert_eq!(ob.state.bids.len() + ob.state.asks.len(), 1);
}

#[test]
fn fok_fills_when_book_has_liquidity() {
    let mut ob = OrderBook::new(mk_m());
    let a = new_id();
    let b = new_id();
    ob.place(order(a, Side::Sell, 50, 10, Tif::Gtc)).unwrap();
    let r = ob.place(order(b, Side::Buy, 50, 10, Tif::Fok)).unwrap();
    assert_eq!(r.fills.len(), 1);
    assert_eq!(r.fills[0].qty, 10);
}

#[test]
fn self_trade_prevents_crossing_own_quote() {
    let mut ob = OrderBook::new(mk_m());
    let u = new_id();
    ob.place(order(u, Side::Buy, 50, 10, Tif::Gtc)).unwrap();
    let r = ob.place(order(u, Side::Sell, 50, 2, Tif::Gtc)).unwrap();
    assert!(r.fills.is_empty());
    assert!(r.self_trade_prevented);
    assert!(!r.rested);
}

#[test]
fn fifo_at_price_fills_oldest_first() {
    let mut ob = OrderBook::new(mk_m());
    let (a, b, c) = (new_id(), new_id(), new_id());
    let first = order(a, Side::Sell, 50, 3, Tif::Gtc);
    let first_id = first.id;
    ob.place(first).unwrap();
    ob.place(order(b, Side::Sell, 50, 3, Tif::Gtc)).unwrap();
    let r = ob.place(order(c, Side::Buy, 50, 4, Tif::Ioc)).unwrap();
    assert_eq!(r.fills.len(), 2);
    assert_eq!(r.fills[0].maker_order_id, first_id);
    assert_eq!(r.fills[0].qty, 3);
    assert_eq!(r.fills[0].seller, a);
    assert_eq!(r.fills[1].seller, b);
    assert_eq!(r.fills[1].qty, 1);
    assert!(!r.rested);
    let l2 = ob.l2(10);
    assert_eq!(l2.asks.len(), 1);
    assert_eq!(l2.asks[0].price, 50);
    assert_eq!(l2.asks[0].qty, 2);
    assert_eq!(ob.state.last_trade, Some(50));
}

#[test]
fn trades_at_maker_price_and_gtc_remainder_rests() {
    let mut ob = OrderBook::new(mk_m());
    let (a, b) = (new_id(), new_id());
    ob.place(order(a, Side::Sell, 48, 5, Tif::Gtc)).unwrap();
    let r = ob.place(order(b, Side::Buy, 52, 8, Tif::Gtc)).unwrap();
    assert_eq!(r.fills.len(), 1);
    assert_eq!(r.fills[0].price, 48);
    assert_eq!(r.fills[0].buyer, b);
    assert!(r.rested);
    let l2 = ob.l2(10);
    assert!(l2.asks.is_empty());
    assert_eq!(l2.bids.len(), 1);
    assert_eq!(l2.bids[0].price, 52);
    assert_eq!(l2.bids[0].qty, 3);
}

#[test]
fn ioc_remainder_does_not_rest() {
    let mut ob = OrderBook::new(mk_m());
    let r = ob.place(order(new_id(), Side::Buy, 40, 5, Tif::Ioc)).unwrap();
    assert!(r.fills.is_empty());
    assert!(!r.rested);
    assert!(ob.l2(10).bids.is_empty());
}

#[test]
fn book_never_crosses_after_resting() {
    let mut ob = OrderBook::new(mk_m());
    for x in 0u32..60 {
        let side = if x % 2 == 0 { Side::Buy } else { Side::Sell };
        let price = 30 + (x * 7) % 40;
        ob.place(order(new_id(), side, price, 10, Tif::Gtc)).unwrap();
        let l2 = ob.l2(100);
        if let (Some(b), Some(a)) = (l2.bids.first(), l2.asks.first()) {
            assert!(b.price < a.price, "crossed book: bid {} >= ask {}", b.price, a.price);
        }
    }
}

#[test]
fn l2_orders_levels_best_first() {
    let mut ob = OrderBook::new(mk_m());
    ob.place(order(new_id(), Side::Buy, 40, 1, Tif::Gtc)).unwrap();
    ob.place(order(new_id(), Side::Buy, 42, 2, Tif::Gtc)).unwrap();
    ob.place(order(new_id(), Side::Buy, 42, 3, Tif::Gtc)).unwrap();
    ob.place(order(new_id(), Side::Sell, 60, 4, Tif::Gtc)).unwrap();
    ob.place(order(new_id(), Side::Sell, 55, 5, Tif::Gtc)).unwrap();
    let l2 = ob.l2(1);
    assert_eq!(l2.bids.len(), 1);
    assert_eq!((l2.bids[0].price, l2.bids[0].qty), (42, 5));
    assert_eq!((l2.asks[0].price, l2.asks[0].qty), (55, 5));
    let l2 = ob.l2(5);
    assert_eq!(l2.bids.len(), 2);
    assert_eq!(l2.bids[1].price, 40);
    assert_eq!(l2.asks[1].price, 60);
}

#[test]
fn cancel_removes_order_and_unknown_is_ok() {
    let mut ob = OrderBook::new(mk_m());
    let o = order(7, Side::Buy, 45, 5, Tif::Gtc);
    let id = o.id;
    ob.place(o).unwrap();
    let seq = ob.state.seq;
    ob.cancel(id).unwrap();
    let l2 = ob.l2(10);
    assert_eq!(l2.bids.len(), 1);
    assert_eq!((l2.bids[0].price, l2.bids[0].qty), (45, 0));
    assert!(ob.resting_orders_for_user(7).is_empty());
    assert_eq!(ob.state.seq, seq + 1);
    ob.cancel(new_id()).unwrap();
    assert_eq!(ob.state.seq, seq + 1);
}

#[test]
fn replace_moves_order_and_loses_priority() {
    let mut ob = OrderBook::new(mk_m());
    let (a, b) = (new_id(), new_id());
    let first = order(a, Side::Sell, 50, 5, Tif::Gtc);
    let first_id = first.id;
    ob.place(first).unwrap();
    ob.place(order(b, Side::Sell, 50, 5, Tif::Gtc)).unwrap();
    ob.replace(ReplaceOrder { market_id: "T".to_string(), order_id: first_id, new_price: None, new_qty: Some(7) })
        .unwrap();
    let r = ob.place(order(new_id(), Side::Buy, 50, 5, Tif::Ioc)).unwrap();
    assert_eq!(r.fills.len(), 1);
    assert_eq!(r.fills[0].seller, b);
    let l2 = ob.l2(10);
    assert_eq!((l2.asks[0].price, l2.asks[0].qty), (50, 7));
}

#[test]
fn replace_errors() {
    let mut ob = OrderBook::new(mk_m());
    let o = order(new_id(), Side::Sell, 50, 5, Tif::Gtc);
    let id = o.id;
    ob.place(o).unwrap();
    let missing = ob.replace(ReplaceOrder { market_id: "T".to_string(), order_id: new_id(), new_price: Some(1), new_qty: None });
    assert_eq!(missing, Err(BookError::OrderNotFound));
    assert_eq!(BookError::OrderNotFound.message(), "order not found");
    let zero = ob.replace(ReplaceOrder { market_id: "T".to_string(), order_id: id, new_price: None, new_qty: Some(0) });
    assert_eq!(zero, Err(BookError::InvalidNewQty));
    assert_eq!(BookError::InvalidNewQty.message(), "invalid new_qty");
    assert!(ob.l2(10).asks.is_empty());
}

#[test]
fn settled_book_takes_no_orders() {
    let mut ob = OrderBook::new(mk_m());
    ob.place(order(new_id(), Side::Sell, 50, 5, Tif::Gtc)).unwrap();
    ob.settle(true);
    assert_eq!(ob.state.settled, Some(true));
    let before = format!("{:?}", ob.state.asks);
    let seq = ob.state.seq;
    let r = ob.place(order(new_id(), Side::Buy, 50, 5, Tif::Gtc)).unwrap();
    assert!(r.fills.is_empty());
    assert!(!r.rested);
    assert_eq!(format!("{:?}", ob.state.asks), before);
    assert!(ob.state.bids.is_empty());
    assert_eq!(ob.state.seq, seq);
}

#[test]
fn can_fok_fill_reports_feasibility() {
    let mut ob = OrderBook::new(mk_m());
    let a = new_id();
    ob.place(order(a, Side::Sell, 50, 5, Tif::Gtc)).unwrap();
    ob.place(order(new_id(), Side::Sell, 51, 5, Tif::Gtc)).unwrap();
    assert!(ob.can_fok_fill(&order(new_id(), Side::Buy, 51, 10, Tif::Fok)));
    assert!(!ob.can_fok_fill(&order(new_id(), Side::Buy, 50, 10, Tif::Fok)));
    assert!(!ob.can_fok_fill(&order(a, Side::Buy, 51, 10, Tif::Fok)));
}

#[test]
fn engine_unknown_market_is_refused() {
    let mut e = Engine::new();
    e.ensure_market(mk_m());
    let mut o = order(new_id(), Side::Buy, 50, 1, Tif::Gtc);
    o.market_id = "NOPE".to_string();
    assert_eq!(e.place_needs_log(&o), Err(BookError::UnknownMarket));
    assert_eq!(e.place_order(o).err(), Some(BookError::UnknownMarket));
    assert_eq!(e.cancel_order("NOPE".to_string(), 1), Err(BookError::UnknownMarket));
    assert_eq!(BookError::UnknownMarket.message(), "unknown market");
    assert!(e.get_market_snapshot("NOPE", 5).is_none());
}

#[test]
fn engine_fok_infeasible_is_not_logged() {
    let mut e = Engine::new();
    e.ensure_market(mk_m());
    assert_eq!(e.place_needs_log(&order(new_id(), Side::Buy, 50, 1, Tif::Fok)), Ok(false));
    assert_eq!(e.place_needs_log(&order(new_id(), Side::Buy, 50, 1, Tif::Gtc)), Ok(true));
}

#[test]
fn engine_lists_markets_in_id_order() {
    let mut e = Engine::new();
    e.ensure_market(mk_named("ZETA"));
    e.ensure_market(mk_named("ALPHA"));
    e.ensure_market(mk_named("MID"));
    e.ensure_market(mk_named("ALPHA"));
    let rows = e.list_markets_detail();
    let ids: Vec<&str> = rows.iter().map(|(m, _)| m.id.as_str()).collect();
    assert_eq!(ids, vec!["ALPHA", "MID", "ZETA"]);
    assert!(rows.iter().all(|(_, s)| s.is_none()));
    e.settle_market("MID".to_string(), false).unwrap();
    let rows = e.list_markets_detail();
    assert_eq!(rows[1].1, Some(false));
}

#[test]
fn engine_snapshot_reports_depth_last_trade_and_seq() {
    let mut e = Engine::new();
    e.ensure_market(mk_m());
    e.place_order(order(new_id(), Side::Sell, 55, 4, Tif::Gtc)).unwrap();
    e.place_order(order(new_id(), Side::Buy, 55, 1, Tif::Gtc)).unwrap();
    let (l2, last, seq) = e.get_market_snapshot("T", 20).unwrap();
    assert_eq!(l2.asks.len(), 1);
    assert_eq!(l2.asks[0].qty, 3);
    assert_eq!(last, Some(55));
    assert!(seq >= 2);
}

#[test]
fn engine_resting_orders_for_user() {
    let mut e = Engine::new();
    e.ensure_market(mk_m());
    e.ensure_market(mk_named("U"));
    let u = new_id();
    let o1 = order(u, Side::Buy, 40, 2, Tif::Gtc);
    let id1 = o1.id;
    e.place_order(o1).unwrap();
    let mut o2 = order(u, Side::Sell, 70, 3, Tif::Gtc);
    o2.market_id = "U".to_string();
    e.place_order(o2).unwrap();
    e.place_order(order(new_id(), Side::Buy, 41, 2, Tif::Gtc)).unwrap();
    let all = e.resting_orders_for_user(u, None);
    assert_eq!(all.len(), 2);
    let only_t = e.resting_orders_for_user(u, Some("T"));
    assert_eq!(only_t.len(), 1);
    assert_eq!(only_t[0].order_id, id1);
    assert_eq!(only_t[0].side, Side::Buy);
    assert_eq!((only_t[0].price, only_t[0].qty), (40, 2));
    assert!(e.resting_orders_for_user(u, Some("NOPE")).is_empty());
}

#[test]
fn replay_of_every_record_kind_matches_live_run() {
    let mut e = Engine::new();
    e.ensure_market(mk_m());
    let mut log: Vec<WalRecord> = Vec::new();
    let a = new_id();
    let o = order(a, Side::Sell, 50, 10, Tif::Gtc);
    let oid = o.id;
    place_logged(&mut e, &mut log, o);
    place_logged(&mut e, &mut log, order(new_id(), Side::Buy, 50, 2, Tif::Gtc));
    place_logged(&mut e, &mut log, order(new_id(), Side::Buy, 50, 50, Tif::Fok));
    let r = ReplaceOrder { market_id: "T".to_string(), order_id: oid, new_price: Some(53), new_qty: None };
    log.push(WalRecord::Replace(r.clone()));
    e.replace_order(r).unwrap();
    let c = new_id();
    log.push(WalRecord::Cancel { market_id: "T".to_string(), order_id: c });
    e.cancel_order("T".to_string(), c).unwrap();
    log.push(WalRecord::Settle { s: SettleRec { market_id: "T".to_string(), resolve_yes: true } });
    e.settle_market("T".to_string(), true).unwrap();

    let mut e2 = Engine::new();
    e2.ensure_market(mk_m());
    e2.restore_from_latest(None, log).unwrap();
    assert_eq!(book_bytes(&e), book_bytes(&e2));
}

#[test]
fn snapshot_plus_tail_replays_like_full_log() {
    let mut e = Engine::new();
    e.ensure_market(mk_m());
    let mut log: Vec<WalRecord> = Vec::new();
    place_logged(&mut e, &mut log, order(new_id(), Side::Sell, 50, 10, Tif::Gtc));
    let snap: Vec<OrderBook> = e.markets.iter().map(|ob| ob.clone()).collect();
    let cut = log.len();
    place_logged(&mut e, &mut log, order(new_id(), Side::Buy, 50, 3, Tif::Gtc));
    place_logged(&mut e, &mut log, order(new_id(), Side::Sell, 47, 1, Tif::Gtc));

    let mut from_snap = Engine::new();
    from_snap.restore_from_latest(Some(snap), log[cut..].to_vec()).unwrap();
    let mut full = Engine::new();
    full.ensure_market(mk_m());
    full.restore_from_latest(None, log).unwrap();
    assert_eq!(book_bytes(&from_snap), book_bytes(&full));
    assert_eq!(book_bytes(&full), book_bytes(&e));
}

#[test]
fn restore_refuses_unsorted_snapshot() {
    let mut a = Engine::new();
    a.ensure_market(mk_named("A"));
    a.ensure_market(mk_named("B"));
    let mut books: Vec<OrderBook> = a.markets.iter().map(|ob| ob.clone()).collect();
    books.reverse();
    let mut e = Engine::new();
    e.ensure_market(mk_m());
    let before = book_bytes(&e);
    assert_eq!(e.restore_from_latest(Some(books), vec![]), Err(RestoreError::BadSnapshot));
    assert_eq!(book_bytes(&e), before);
}

#[test]
fn records_for_unknown_markets_are_skipped_in_replay() {
    let mut e = Engine::new();
    e.ensure_market(mk_m());
    let mut o = order(new_id(), Side::Buy, 50, 1, Tif::Gtc);
    o.market_id = "GONE".to_string();
    let before = book_bytes(&e);
    e.apply_record(WalRecord::Place(o));
    e.apply_record(WalRecord::Settle { s: SettleRec { market_id: "GONE".to_string(), resolve_yes: false } });
    assert_eq!(book_bytes(&e), before);
}

#[test]
fn settled_market_freezes_in_registry() {
    let mut e = Engine::new();
    e.ensure_market(mk_m());
    e.place_order(order(new_id(), Side::Sell, 50, 5, Tif::Gtc)).unwrap();
    e.settle_market("T".to_string(), true).unwrap();
    let before = book_bytes(&e);
    let r = e.place_order(order(new_id(), Side::Buy, 50, 5, Tif::Gtc)).unwrap();
    assert!(r.fills.is_empty());
    assert!(!r.rested);
    assert_eq!(book_bytes(&e), before);
    assert_eq!(e.list_markets_detail()[0].1, Some(true));
}
