use chronos::gateway::{
    admit_order, authorized, resync_from_seq, book_delta, book_stats, choose_user, default_market_id, default_primary_market,
    fills_limit, hash_mid, markets_or_default, mid_from_hash, oid, parse_order_id, parse_side, parse_tif,
    seed_disabled, seed_one_market, seed_orders, user_from_header, PlaceReq, Rejection,
};
use chronos::ledger::{Ledger, LedgerError};
use chronos::risk::{Caps, Risk, RiskError};
use chronos::types::{L2Book, L2Level, Market, Side, Tif};
use std::hash::{Hash, Hasher};

fn caps() -> Caps {
    Caps { max_position: 10_000, max_notional_cents: 1_000_000, rate_per_sec: 1000, burst: 2000 }
}

fn req(side: &str, price: u32, qty: u32, tif: &str, idem: Option<&str>) -> PlaceReq {
    PlaceReq {
        market_id: "OKC_WIN_YESNO".to_string(),
        side: side.to_string(),
        price,
        qty,
        tif: tif.to_string(),
        idempotency: idem.map(|s| s.to_string()),
    }
}

#[test]
fn parse_side_is_case_insensitive_buy() {
    assert_eq!(parse_side("buy"), Side::Buy);
    assert_eq!(parse_side("BuY"), Side::Buy);
    assert_eq!(parse_side("sell"), Side::Sell);
    assert_eq!(parse_side("anything"), Side::Sell);
    assert_eq!(parse_side(""), Side::Sell);
}

#[test]
fn parse_tif_defaults_to_gtc() {
    assert_eq!(parse_tif("IOC"), Tif::Ioc);
    assert_eq!(parse_tif("FOK"), Tif::Fok);
    assert_eq!(parse_tif("GTC"), Tif::Gtc);
    assert_eq!(parse_tif("ioc"), Tif::Gtc);
}

#[test]
fn default_market_is_okc() {
    let m = default_primary_market();
    assert_eq!(default_market_id(), "OKC_WIN_YESNO");
    assert_eq!(m.id, "OKC_WIN_YESNO");
    assert_eq!(m.name, "OKC wins YES/NO");
    assert_eq!(m.tick_size, 1);
    assert_eq!(m.description, "Simulation contract; not real trading.");
    assert_eq!(m.tags, vec!["Demo".to_string(), "NBA".to_string()]);
}

#[test]
fn catalog_falls_back_to_default() {
    let d = markets_or_default(None);
    assert_eq!(d.len(), 1);
    assert_eq!(d[0].id, "OKC_WIN_YESNO");
    let e = markets_or_default(Some(vec![]));
    assert_eq!(e.len(), 1);
    assert_eq!(e[0].id, "OKC_WIN_YESNO");
    let m = Market { id: "X".to_string(), name: "x".to_string(), tick_size: 1, description: String::new(), tags: vec![] };
    let k = markets_or_default(Some(vec![m]));
    assert_eq!(k.len(), 1);
    assert_eq!(k[0].id, "X");
}

#[test]
fn hash_mid_matches_default_hasher() {
    for id in ["OKC_WIN_YESNO", "A", "", "LAL_WIN"] {
        let mut h = std::collections::hash_map::DefaultHasher::new();
        id.hash(&mut h);
        let expect = 25 + (h.finish() % 50) as u32;
        let got = hash_mid(id);
        assert_eq!(got, expect);
        assert!((25..=74).contains(&got));
    }
}

#[test]
fn mid_from_hash_values() {
    assert_eq!(mid_from_hash(0), 25);
    assert_eq!(mid_from_hash(49), 74);
    assert_eq!(mid_from_hash(50), 25);
    assert_eq!(mid_from_hash(u64::MAX), 40);
}

#[test]
fn oid_packs_market_index_and_sequence() {
    assert_eq!(oid(0, 7), 7);
    assert_eq!(oid(1, 100), (1u128 << 96) | 100);
    assert_eq!(oid(3, 301), (3u128 << 96) | 301);
    assert_eq!(oid((1usize << 32) + 3, 5), (3u128 << 96) | 5);
}

#[test]
fn seed_orders_ladder_around_mid() {
    let v = seed_orders("M", 1, 50);
    assert_eq!(v.len(), 14);
    for k in 0..6usize {
        let b = &v[k];
        assert_eq!(b.side, Side::Buy);
        assert_eq!(b.tif, Tif::Gtc);
        assert_eq!(b.price, 49 - k as u32);
        assert_eq!(b.qty, 12 + ((13 + k) % 120) as u32);
        assert_eq!(b.id, oid(1, 100 + k as u32));
        assert_eq!(b.user_id, b.id);
        assert_eq!(b.market_id, "M");
        let a = &v[6 + k];
        assert_eq!(a.side, Side::Sell);
        assert_eq!(a.price, 51 + k as u32);
        assert_eq!(a.qty, 12 + ((17 + k) % 120) as u32);
        assert_eq!(a.id, oid(1, 200 + k as u32));
    }
    assert_eq!((v[12].side, v[12].price, v[12].qty, v[12].tif), (Side::Buy, 99, 45, Tif::Ioc));
    assert_eq!(v[12].id, oid(1, 300));
    assert_eq!((v[13].side, v[13].price, v[13].qty, v[13].tif), (Side::Sell, 1, 40, Tif::Ioc));
    assert_eq!(v[13].id, oid(1, 301));
}

#[test]
fn seed_orders_clamp_prices() {
    let low = seed_orders("M", 0, 3);
    let bids: Vec<u32> = low[0..6].iter().map(|o| o.price).collect();
    assert_eq!(bids, vec![2, 1, 1, 1, 1, 1]);
    let high = seed_orders("M", 0, 97);
    let asks: Vec<u32> = high[6..12].iter().map(|o| o.price).collect();
    assert_eq!(asks, vec![98, 99, 99, 99, 99, 99]);
    assert_eq!(high[0].qty, 12);
}

#[test]
fn seed_one_market_uses_hashed_mid() {
    let v = seed_one_market("OKC_WIN_YESNO", 2);
    let mid = hash_mid("OKC_WIN_YESNO");
    assert_eq!(v.len(), 14);
    assert_eq!(v[0].price, mid - 1);
    assert_eq!(v[6].price, mid + 1);
}

#[test]
fn seed_disabled_by_marker_or_env() {
    assert!(seed_disabled(true, None));
    assert!(seed_disabled(false, Some("0")));
    assert!(seed_disabled(false, Some("FALSE")));
    assert!(seed_disabled(false, Some("false")));
    assert!(!seed_disabled(false, Some("1")));
    assert!(!seed_disabled(false, None));
}

#[test]
fn fills_limit_defaults_and_caps() {
    assert_eq!(fills_limit(None), 50);
    assert_eq!(fills_limit(Some(10)), 10);
    assert_eq!(fills_limit(Some(500)), 500);
    assert_eq!(fills_limit(Some(10_000)), 500);
}

#[test]
fn admin_token_must_be_set_and_match() {
    assert!(!authorized("", ""));
    assert!(authorized("tok", "tok"));
    assert!(!authorized("tok", "TOK"));
    assert!(!authorized("tok", ""));
}

#[test]
fn book_stats_best_prices_and_mid() {
    let l2 = L2Book {
        bids: vec![L2Level { price: 42, qty: 5 }, L2Level { price: 40, qty: 1 }],
        asks: vec![L2Level { price: 55, qty: 2 }],
    };
    let s = book_stats(&l2, Some(50));
    assert_eq!(s.best_bid_cents, Some(42));
    assert_eq!(s.best_ask_cents, Some(55));
    assert_eq!(s.mid_half_cents, Some(97));
    assert_eq!(s.yes_half_cents, Some(97));
    assert_eq!(s.last_trade_cents, Some(50));
    let one = L2Book { bids: vec![L2Level { price: 42, qty: 5 }], asks: vec![] };
    assert_eq!(book_stats(&one, None).mid_half_cents, Some(84));
    let empty = L2Book { bids: vec![], asks: vec![] };
    let e = book_stats(&empty, Some(60));
    assert_eq!(e.mid_half_cents, None);
    assert_eq!(e.yes_half_cents, None);
    assert_eq!(e.last_trade_cents, Some(60));
    assert_eq!(book_stats(&empty, None).yes_half_cents, None);
}

#[test]
fn book_delta_uses_trade_hint_then_last_price() {
    let l2 = L2Book { bids: vec![L2Level { price: 42, qty: 5 }], asks: vec![L2Level { price: 55, qty: 2 }] };
    let d = book_delta("M", &l2, Some(50), 9, Some((48, 3)));
    assert_eq!(d.market_id, "M");
    assert_eq!(d.seq, 9);
    assert_eq!(d.bids_upd, vec![(42, 5)]);
    assert_eq!(d.asks_upd, vec![(55, 2)]);
    assert_eq!(d.last_trade, Some((48, 3)));
    assert_eq!(book_delta("M", &l2, Some(50), 9, None).last_trade, Some((50, 1)));
    assert_eq!(book_delta("M", &l2, None, 9, None).last_trade, None);
}

#[test]
fn uuid_text_is_parsed() {
    let u = uuid::Uuid::new_v4();
    assert_eq!(parse_order_id(&u.to_string()), Some(u.as_u128()));
    assert_eq!(parse_order_id("67e55044-10b1-426f-9247-bb680e5fe0c8"), Some(0x67e55044_10b1_426f_9247_bb680e5fe0c8));
    assert_eq!(parse_order_id("bad order"), None);
}

#[test]
fn user_comes_from_header_or_is_fresh() {
    assert_eq!(user_from_header(Some("67e55044-10b1-426f-9247-bb680e5fe0c8")), 0x67e55044_10b1_426f_9247_bb680e5fe0c8);
    let fresh = user_from_header(None);
    assert_eq!((fresh >> 76) & 0xf, 4);
    assert_eq!((fresh >> 62) & 3, 2);
    let other = user_from_header(Some("not a uuid"));
    assert_ne!(other, fresh);
    assert_eq!(choose_user(Some(5), 9), 5);
    assert_eq!(choose_user(None, 9), 9);
}

#[test]
fn admission_accepts_and_builds_order() {
    let mut risk = Risk::new(caps());
    let ledger = Ledger::new();
    let r = req("BUY", 45, 3, "GTC", Some("k1"));
    let o = admit_order(&mut risk, &ledger, 7, 99, &r).unwrap();
    assert_eq!(o.id, 99);
    assert_eq!(o.user_id, 7);
    assert_eq!(o.market_id, "OKC_WIN_YESNO");
    assert_eq!(o.side, Side::Buy);
    assert_eq!((o.price, o.qty, o.tif), (45, 3, Tif::Gtc));
    assert_eq!(o.idempotency, Some("k1".to_string()));
}

#[test]
fn admission_refuses_repeated_idempotency_key() {
    let mut risk = Risk::new(caps());
    let ledger = Ledger::new();
    let r = req("buy", 45, 3, "GTC", Some("k1"));
    assert!(admit_order(&mut risk, &ledger, 7, 1, &r).is_ok());
    let e = admit_order(&mut risk, &ledger, 7, 2, &r).unwrap_err();
    assert_eq!(e, Rejection::Duplicate(RiskError::DuplicateIdempotencyKey));
    assert_eq!(e.status(), 409);
    assert_eq!(e.message(), "duplicate idempotency key");
}

#[test]
fn admission_applies_rate_limit() {
    let mut risk = Risk::new(Caps { max_position: 10_000, max_notional_cents: 1_000_000, rate_per_sec: 0, burst: 1 });
    let ledger = Ledger::new();
    let r = req("buy", 45, 3, "IOC", None);
    assert!(admit_order(&mut risk, &ledger, 7, 1, &r).is_ok());
    let e = admit_order(&mut risk, &ledger, 7, 2, &r).unwrap_err();
    assert_eq!(e, Rejection::RateLimited(RiskError::RateLimited));
    assert_eq!(e.status(), 429);
    assert_eq!(e.message(), "rate limit exceeded");
    assert!(admit_order(&mut risk, &ledger, 8, 3, &r).is_ok());
}

#[test]
fn admission_applies_position_caps() {
    let mut risk = Risk::new(caps());
    let ledger = Ledger::new();
    let e = admit_order(&mut risk, &ledger, 7, 1, &req("sell", 1, 10_001, "GTC", None)).unwrap_err();
    assert_eq!(e, Rejection::Risk(LedgerError::PositionCap));
    assert_eq!(e.status(), 403);
    let e = admit_order(&mut risk, &ledger, 7, 2, &req("buy", 200, 10_000, "GTC", None)).unwrap_err();
    assert_eq!(e, Rejection::Risk(LedgerError::NotionalCap));
    assert_eq!(e.message(), "notional cap");
}

#[test]
fn load_plan_splits_total_rounding_up() {
    assert_eq!(chronos::gateway::load_plan(1000, 10, 4), (10_000, 2_500));
    assert_eq!(chronos::gateway::load_plan(10, 1, 3), (10, 4));
    assert_eq!(chronos::gateway::load_plan(0, 5, 2), (0, 0));
}

#[test]
fn resync_point_from_first_frame() {
    assert_eq!(resync_from_seq(Some(r#"{"type":"resync","from_seq":5}"#)), 5);
    assert_eq!(resync_from_seq(Some(r#"{"type":"resync"}"#)), 0);
    assert_eq!(resync_from_seq(Some(r#"{"type":"resync","from_seq":-3}"#)), 0);
    assert_eq!(resync_from_seq(Some(r#"{"type":"other","from_seq":5}"#)), 0);
    assert_eq!(resync_from_seq(Some("not json")), 0);
    assert_eq!(resync_from_seq(None), 0);
}
