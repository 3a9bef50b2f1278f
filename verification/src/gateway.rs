//! The decisions of the HTTP gateway: request parsing, order admission
//! (idempotency, rate limit, position caps), the built-in market catalog,
//! the synthetic liquidity plan, book statistics and market-data deltas.
use vstd::prelude::*;
use crate::ledger::{Ledger, LedgerError, intent_fits, intent_spec, ledger_message};
use crate::md::MktDelta;
use crate::risk::{Risk, RiskError, idem_step, key_views, rate_step, risk_message};
use crate::text::{eq_ignore_ascii_case, str_eq, str_eq_ignore_ascii_case};
use crate::types::{L2Book, Market, MarketView, NewOrder, OrderId, Side, Tif, UserId, clone_opt_string};

verus! {

// ---------------------------------------------------------------- parsing

/// The side a request names: "buy" in any letter case is a buy, anything
/// else a sell.
pub open spec fn side_of(s: Seq<char>) -> Side {
    if eq_ignore_ascii_case(s, "buy"@) {
        Side::Buy
    } else {
        Side::Sell
    }
}

/// The time in force a request names: "IOC", "FOK", anything else GTC.
pub open spec fn tif_of(s: Seq<char>) -> Tif {
    if s == "IOC"@ {
        Tif::Ioc
    } else if s == "FOK"@ {
        Tif::Fok
    } else {
        Tif::Gtc
    }
}

pub fn parse_side(s: &str) -> (res: Side)
    ensures
        res == side_of(s@),
{
    if str_eq_ignore_ascii_case(s, "buy") {
        Side::Buy
    } else {
        Side::Sell
    }
}

pub fn parse_tif(s: &str) -> (res: Tif)
    ensures
        res == tif_of(s@),
{
    if str_eq(s, "IOC") {
        Tif::Ioc
    } else if str_eq(s, "FOK") {
        Tif::Fok
    } else {
        Tif::Gtc
    }
}

/// The id `Uuid::parse_str` reads from a string, or `None` when it is no UUID.
pub uninterp spec fn uuid_value(s: Seq<char>) -> Option<u128>;

/// Calls `uuid::Uuid::parse_str` and takes the UUID's 128 bits
/// (`Uuid::as_u128`); the result is named `uuid_value`, which depends on
/// the text alone. Which texts are UUIDs is not stated.
#[verifier::external_body]
fn uuid_parse(s: &str) -> (res: Option<u128>)
    ensures
        res == uuid_value(s@),
{
    uuid::Uuid::parse_str(s).ok().map(|u| u.as_u128())
}

/// Calls `uuid::Uuid::new_v4`: a random UUID. Only its version (4) and
/// variant (RFC 4122) bits are stated.
#[verifier::external_body]
fn new_uuid_v4() -> (res: u128)
    ensures
        (res >> 76u128) & 0xfu128 == 4,
        (res >> 62u128) & 3u128 == 2,
{
    uuid::Uuid::new_v4().as_u128()
}

/// An order id from a path segment; `None` answers "bad order id".
pub fn parse_order_id(s: &str) -> (res: Option<OrderId>)
    ensures
        res == uuid_value(s@),
{
    uuid_parse(s)
}

/// The user of a request: the parsed `X-User-Id` header when there is one,
/// else `fresh`.
pub fn choose_user(parsed: Option<UserId>, fresh: UserId) -> (res: UserId)
    ensures
        res == match parsed {
            Some(u) => u,
            None => fresh,
        },
{
    match parsed {
        Some(u) => u,
        None => fresh,
    }
}

/// The user named by the `X-User-Id` header (its text, when it has one);
/// a request without a readable UUID there gets a fresh random id.
pub fn user_from_header(header: Option<&str>) -> (res: UserId)
    ensures
        header matches Some(h) && uuid_value(h@) is Some ==> res == uuid_value(header->0@)->0,
        !(header matches Some(h) && uuid_value(h@) is Some) ==> (res >> 76u128) & 0xfu128 == 4 && (res >> 62u128)
            & 3u128 == 2,
{
    let parsed = match header {
        Some(h) => uuid_parse(h),
        None => None,
    };
    let fresh = match parsed {
        Some(_) => 0,
        None => new_uuid_v4(),
    };
    choose_user(parsed, fresh)
}

// ---------------------------------------------------------------- resync

/// What `serde_json` reads from a text frame: the string under "type" and
/// the unsigned integer under "from_seq" (each `None` when absent or of
/// another kind), or `None` when the text is not JSON.
pub uninterp spec fn resync_fields(t: Seq<char>) -> Option<(Option<Seq<char>>, Option<u64>)>;

/// The fields of a parsed frame as values.
pub open spec fn fields_view(r: Option<(Option<String>, Option<u64>)>) -> Option<(Option<Seq<char>>, Option<u64>)> {
    match r {
        Some((k, f)) => Some(
            (
                match k {
                    Some(s) => Some(s@),
                    None => None,
                },
                f,
            ),
        ),
        None => None,
    }
}

/// Calls `serde_json::from_str` into a `serde_json::Value` and picks its
/// "type" string and "from_seq" integer (`Value::get`, `as_str`, `as_u64`).
/// The result is named `resync_fields`, a function of the text alone; which
/// texts are JSON is not stated.
#[verifier::external_body]
fn parse_resync(t: &str) -> (res: Option<(Option<String>, Option<u64>)>)
    ensures
        fields_view(res) == resync_fields(t@),
{
    serde_json::from_str::<serde_json::Value>(t).ok().map(
        |v| (v.get("type").and_then(|x| x.as_str()).map(|x| x.to_owned()), v.get("from_seq").and_then(|x| x.as_u64())),
    )
}

/// The resync point from a frame's fields: `from_seq` (0 when absent) of a
/// frame whose type is "resync", else 0.
pub open spec fn resync_point(f: Option<(Option<Seq<char>>, Option<u64>)>) -> u64 {
    match f {
        Some((Some(k), n)) => if k == "resync"@ {
            match n {
                Some(x) => x,
                None => 0,
            }
        } else {
            0
        },
        _ => 0,
    }
}

/// The resync point from already parsed fields (see `resync_point`).
pub fn resync_from_fields(f: Option<(Option<String>, Option<u64>)>) -> (res: u64)
    ensures
        res == resync_point(fields_view(f)),
{
    match f {
        Some((Some(k), n)) => {
            if str_eq(k.as_str(), "resync") {
                match n {
                    Some(x) => x,
                    None => 0,
                }
            } else {
                0
            }
        },
        _ => 0,
    }
}

/// The sequence number a WebSocket subscriber resyncs from: its first text
/// frame (if one came in time), when it is `{"type":"resync","from_seq":N}`,
/// gives N (0 without `from_seq`); anything else gives 0.
pub fn resync_from_seq(first: Option<&str>) -> (res: u64)
    ensures
        res == match first {
            Some(t) => resync_point(resync_fields(t@)),
            None => 0,
        },
{
    match first {
        Some(t) => {
            let f = parse_resync(t);
            resync_from_fields(f)
        },
        None => 0,
    }
}

// ---------------------------------------------------------------- catalog

/// The id of the built-in market.
pub fn default_market_id() -> (s: &'static str)
    ensures
        s@ == "OKC_WIN_YESNO"@,
{
    "OKC_WIN_YESNO"
}

/// Whether `m` is the built-in market: id "OKC_WIN_YESNO", name "OKC wins
/// YES/NO", tick size 1, a simulation description and tags Demo and NBA.
pub open spec fn is_default_market(m: MarketView) -> bool {
    &&& m.id@ == "OKC_WIN_YESNO"@
    &&& m.name@ == "OKC wins YES/NO"@
    &&& m.tick_size == 1
    &&& m.description@ == "Simulation contract; not real trading."@
    &&& m.tags.len() == 2
    &&& m.tags[0]@ == "Demo"@
    &&& m.tags[1]@ == "NBA"@
}

/// The built-in market used when no catalog file can be read.
pub fn default_primary_market() -> (m: Market)
    ensures
        is_default_market(m@),
{
    let mut tags: Vec<String> = Vec::new();
    tags.push("Demo".to_owned());
    tags.push("NBA".to_owned());
    Market {
        id: default_market_id().to_owned(),
        name: "OKC wins YES/NO".to_owned(),
        tick_size: 1,
        description: "Simulation contract; not real trading.".to_owned(),
        tags,
    }
}

/// The catalog: the markets read from the seed file, or the built-in
/// market when the file is missing, unreadable, or lists no market.
pub fn markets_or_default(loaded: Option<Vec<Market>>) -> (res: Vec<Market>)
    ensures
        loaded matches Some(v) && v@.len() > 0 ==> res@ == loaded->0@,
        !(loaded matches Some(v) && v@.len() > 0) ==> res@.len() == 1 && is_default_market(res@[0]@),
        res@.len() > 0,
{
    match loaded {
        Some(v) => {
            if v.len() > 0 {
                return v;
            }
        },
        None => {},
    }
    let mut out: Vec<Market> = Vec::new();
    out.push(default_primary_market());
    out
}

// ---------------------------------------------------------------- synthetic liquidity

/// What `DefaultHasher` (std's SipHash with its fixed keys) gives for a
/// string hashed as a `str`.
pub uninterp spec fn std_str_hash(s: Seq<char>) -> u64;

/// Calls `BuildHasher::hash_one` on a `BuildHasherDefault<DefaultHasher>`:
/// the same value as hashing the string into `DefaultHasher::new()` and
/// finishing. The result is named `std_str_hash`; it depends on the string
/// alone (the hasher's keys are fixed, not seeded per process).
#[verifier::external_body]
fn str_hash(s: &str) -> (res: u64)
    ensures
        res == std_str_hash(s@),
{
    std::hash::BuildHasher::hash_one(&std::hash::BuildHasherDefault::<std::hash::DefaultHasher>::default(), s)
}

/// A mid price in 25..=74 cents from a hash value.
pub fn mid_from_hash(x: u64) -> (res: u32)
    ensures
        res == 25 + x % 50,
        25 <= res <= 74,
{
    25 + (x % 50) as u32
}

/// The implied center price of a market's synthetic ladder, from its id.
pub fn hash_mid(market_id: &str) -> (res: u32)
    ensures
        res == 25 + std_str_hash(market_id@) % 50,
        25 <= res <= 74,
{
    let x = str_hash(market_id);
    mid_from_hash(x)
}

/// A deterministic id for synthetic order `seq` of market number `mi`: the
/// low 32 bits of `mi` above bit 96, `seq` in the low bits.
pub fn oid(mi: usize, seq: u32) -> (res: u128)
    ensures
        res as int == (mi as int % 0x1_0000_0000) * 0x1_0000_0000_0000_0000_0000_0000 + seq as int,
{
    let m: u128 = mi as u128;
    let s: u128 = seq as u128;
    assert(((m << 96u128) | s) == (m % 0x1_0000_0000) * 0x1_0000_0000_0000_0000_0000_0000 + s) by (bit_vector)
        requires
            m < 0x1_0000_0000_0000_0000,
            s < 0x1_0000_0000,
    ;
    (m << 96u128) | s
}

/// Price of bid `k` (0-based) of the ladder: `k + 1` cents below the mid,
/// at least 1 cent.
pub open spec fn seed_bid_price(mid: u32, k: int) -> int {
    let p = if mid >= k + 1 { mid - (k + 1) } else { 0 };
    if p >= 1 {
        p
    } else {
        1
    }
}

/// Price of ask `k` of the ladder: `k + 1` cents above the mid, at most 99.
pub open spec fn seed_ask_price(mid: u32, k: int) -> int {
    if mid + k + 1 <= 99 {
        mid + k + 1
    } else {
        99
    }
}

/// The fourteen synthetic orders of market number `mi`: six GTC bids and six
/// GTC asks around `mid` with sizes 12..131, then an IOC buy of 45 at 99¢
/// and an IOC sell of 40 at 1¢. Each order has its own user.
pub open spec fn seed_order_ok(o: NewOrder, m: Seq<char>, mi: usize, mid: u32, j: int) -> bool {
    &&& o.market_id@ == m
    &&& o.idempotency is None
    &&& o.user_id == o.id
    &&& if j < 6 {
        &&& o.id as int == (mi as int % 0x1_0000_0000) * 0x1_0000_0000_0000_0000_0000_0000 + 100 + j
        &&& o.side == Side::Buy
        &&& o.price == seed_bid_price(mid, j)
        &&& o.qty == 12 + (mi * 13 + j) % 120
        &&& o.tif == Tif::Gtc
    } else if j < 12 {
        &&& o.id as int == (mi as int % 0x1_0000_0000) * 0x1_0000_0000_0000_0000_0000_0000 + 200 + (j - 6)
        &&& o.side == Side::Sell
        &&& o.price == seed_ask_price(mid, j - 6)
        &&& o.qty == 12 + (mi * 17 + (j - 6)) % 120
        &&& o.tif == Tif::Gtc
    } else if j == 12 {
        &&& o.id as int == (mi as int % 0x1_0000_0000) * 0x1_0000_0000_0000_0000_0000_0000 + 300
        &&& o.side == Side::Buy
        &&& o.price == 99
        &&& o.qty == 45
        &&& o.tif == Tif::Ioc
    } else {
        &&& o.id as int == (mi as int % 0x1_0000_0000) * 0x1_0000_0000_0000_0000_0000_0000 + 301
        &&& o.side == Side::Sell
        &&& o.price == 1
        &&& o.qty == 40
        &&& o.tif == Tif::Ioc
    }
}

/// The synthetic orders for one market around `mid`, in placement order.
pub fn seed_orders(market_id: &str, mi: usize, mid: u32) -> (res: Vec<NewOrder>)
    requires
        mi * 17 + 6 <= usize::MAX,
        mid <= u32::MAX - 6,
    ensures
        res@.len() == 14,
        forall|j: int| 0 <= j < 14 ==> seed_order_ok(#[trigger] res@[j], market_id@, mi, mid, j),
{
    let mut out: Vec<NewOrder> = Vec::new();
    let mut k: u32 = 0;
    while k < 6
        invariant
            k <= 6,
            mi * 17 + 6 <= usize::MAX,
            mid <= u32::MAX - 6,
            out@.len() == k,
            forall|j: int| 0 <= j < k ==> seed_order_ok(#[trigger] out@[j], market_id@, mi, mid, j),
        decreases 6 - k,
    {
        let p0: u32 = mid.saturating_sub(k + 1);
        let price: u32 = if p0 >= 1 { p0 } else { 1 };
        let qty: u32 = 12 + ((mi * 13 + k as usize) % 120) as u32;
        let id = oid(mi, 100 + k);
        out.push(NewOrder {
            id,
            user_id: id,
            market_id: market_id.to_owned(),
            side: Side::Buy,
            price,
            qty,
            tif: Tif::Gtc,
            idempotency: None,
        });
        k = k + 1;
    }
    let mut k: u32 = 0;
    while k < 6
        invariant
            k <= 6,
            mi * 17 + 6 <= usize::MAX,
            mid <= u32::MAX - 6,
            out@.len() == 6 + k,
            forall|j: int| 0 <= j < 6 + k ==> seed_order_ok(#[trigger] out@[j], market_id@, mi, mid, j),
        decreases 6 - k,
    {
        let p: u32 = mid + k + 1;
        let price: u32 = if p <= 99 { p } else { 99 };
        let qty: u32 = 12 + ((mi * 17 + k as usize) % 120) as u32;
        let id = oid(mi, 200 + k);
        out.push(NewOrder {
            id,
            user_id: id,
            market_id: market_id.to_owned(),
            side: Side::Sell,
            price,
            qty,
            tif: Tif::Gtc,
            idempotency: None,
        });
        k = k + 1;
    }
    let id = oid(mi, 300);
    out.push(NewOrder {
        id,
        user_id: id,
        market_id: market_id.to_owned(),
        side: Side::Buy,
        price: 99,
        qty: 45,
        tif: Tif::Ioc,
        idempotency: None,
    });
    let id = oid(mi, 301);
    out.push(NewOrder {
        id,
        user_id: id,
        market_id: market_id.to_owned(),
        side: Side::Sell,
        price: 1,
        qty: 40,
        tif: Tif::Ioc,
        idempotency: None,
    });
    out
}

/// The synthetic orders of market number `mi`, around the mid its id hashes to.
pub fn seed_one_market(market_id: &str, mi: usize) -> (res: Vec<NewOrder>)
    requires
        mi * 17 + 6 <= usize::MAX,
    ensures
        res@.len() == 14,
        forall|j: int|
            0 <= j < 14 ==> seed_order_ok(#[trigger] res@[j], market_id@, mi, (25 + std_str_hash(market_id@) % 50) as u32, j),
{
    let mid = hash_mid(market_id);
    seed_orders(market_id, mi, mid)
}

/// Whether the synthetic seeding is skipped: it ran before (its marker
/// file exists), or `CHRONOS_SEED_DUMMY_TRADES` is "0" or "false" in any case.
pub fn seed_disabled(marker_exists: bool, env: Option<&str>) -> (res: bool)
    ensures
        res == (marker_exists || (env matches Some(v) && (v@ == "0"@ || eq_ignore_ascii_case(v@, "false"@)))),
{
    if marker_exists {
        return true;
    }
    match env {
        Some(v) => str_eq(v, "0") || str_eq_ignore_ascii_case(v, "false"),
        None => false,
    }
}

// ---------------------------------------------------------------- queries

/// The number of fills a listing returns: 50 by default, at most 500.
pub fn fills_limit(limit: Option<usize>) -> (res: usize)
    ensures
        res == match limit {
            Some(l) => if l < 500 { l } else { 500 },
            None => 50,
        },
{
    let l = match limit {
        Some(l) => l,
        None => 50,
    };
    if l < 500 {
        l
    } else {
        500
    }
}

/// Whether an admin request carries the configured token (an empty
/// configured token refuses everyone).
pub fn authorized(token: &str, got: &str) -> (res: bool)
    ensures
        res == (token@.len() > 0 && got@ == token@),
{
    !token.is_empty() && str_eq(got, token)
}

/// The whole-number part of a market's statistics, prices in cents; the
/// mid and the implied probability are given in half cents.
#[derive(Debug, Clone, Copy, PartialEq, Eq, Structural)]
pub struct BookStats {
    pub best_bid_cents: Option<u32>,
    pub best_ask_cents: Option<u32>,
    /// Twice the mid: best bid plus best ask when both exist, else twice the one that does.
    pub mid_half_cents: Option<u64>,
    /// Twice the implied YES probability, which for a binary contract priced
    /// in cents is the mid.
    pub yes_half_cents: Option<u64>,
    pub last_trade_cents: Option<u32>,
}

pub open spec fn mid_half(bb: Option<u32>, ba: Option<u32>) -> Option<u64> {
    match (bb, ba) {
        (Some(b), Some(a)) => Some((b + a) as u64),
        (Some(b), None) => Some((2 * b) as u64),
        (None, Some(a)) => Some((2 * a) as u64),
        (None, None) => None,
    }
}

/// Statistics of a book from its depth and last trade: best bid and ask,
/// mid, implied YES probability.
pub fn book_stats(l2: &L2Book, last_trade: Option<u32>) -> (res: BookStats)
    requires
        l2.bids@.len() > 0 && l2.asks@.len() > 0 ==> l2.bids@[0].price + l2.asks@[0].price <= u32::MAX,
    ensures
        res.best_bid_cents == if l2.bids@.len() > 0 { Some(l2.bids@[0].price) } else { None::<u32> },
        res.best_ask_cents == if l2.asks@.len() > 0 { Some(l2.asks@[0].price) } else { None::<u32> },
        res.mid_half_cents == mid_half(res.best_bid_cents, res.best_ask_cents),
        res.yes_half_cents == res.mid_half_cents,
        res.last_trade_cents == last_trade,
{
    let bb: Option<u32> = if l2.bids.len() > 0 { Some(l2.bids[0].price) } else { None };
    let ba: Option<u32> = if l2.asks.len() > 0 { Some(l2.asks[0].price) } else { None };
    let mid: Option<u64> = match (bb, ba) {
        (Some(b), Some(a)) => Some((b + a) as u64),
        (Some(b), None) => Some(2 * b as u64),
        (None, Some(a)) => Some(2 * a as u64),
        (None, None) => None,
    };
    let yes: Option<u64> = mid;
    BookStats { best_bid_cents: bb, best_ask_cents: ba, mid_half_cents: mid, yes_half_cents: yes, last_trade_cents: last_trade }
}

/// The delta a book change publishes: the depth levels as (price, size)
/// and the last trade, taken from `trade_hint` when given, else the last
/// trade price with size 1.
pub fn book_delta(market_id: &str, l2: &L2Book, last_px: Option<u32>, seq: u64, trade_hint: Option<(u32, u32)>) -> (res: MktDelta)
    ensures
        res.market_id@ == market_id@,
        res.seq == seq,
        res.bids_upd@.len() == l2.bids@.len(),
        forall|i: int| 0 <= i < l2.bids@.len() ==> #[trigger] res.bids_upd@[i] == (l2.bids@[i].price, l2.bids@[i].qty),
        res.asks_upd@.len() == l2.asks@.len(),
        forall|i: int| 0 <= i < l2.asks@.len() ==> #[trigger] res.asks_upd@[i] == (l2.asks@[i].price, l2.asks@[i].qty),
        res.last_trade == match trade_hint {
            Some(t) => Some(t),
            None => match last_px {
                Some(p) => Some((p, 1u32)),
                None => None::<(u32, u32)>,
            },
        },
{
    let mut bids: Vec<(u32, u64)> = Vec::new();
    let mut i: usize = 0;
    while i < l2.bids.len()
        invariant
            i <= l2.bids@.len(),
            bids@.len() == i,
            forall|j: int| 0 <= j < i ==> #[trigger] bids@[j] == (l2.bids@[j].price, l2.bids@[j].qty),
        decreases l2.bids@.len() - i,
    {
        bids.push((l2.bids[i].price, l2.bids[i].qty));
        i = i + 1;
    }
    let mut asks: Vec<(u32, u64)> = Vec::new();
    let mut i: usize = 0;
    while i < l2.asks.len()
        invariant
            i <= l2.asks@.len(),
            asks@.len() == i,
            forall|j: int| 0 <= j < i ==> #[trigger] asks@[j] == (l2.asks@[j].price, l2.asks@[j].qty),
        decreases l2.asks@.len() - i,
    {
        asks.push((l2.asks[i].price, l2.asks[i].qty));
        i = i + 1;
    }
    let last_trade = match trade_hint {
        Some(t) => Some(t),
        None => match last_px {
            Some(p) => Some((p, 1u32)),
            None => None,
        },
    };
    MktDelta { market_id: market_id.to_owned(), seq, bids_upd: bids, asks_upd: asks, last_trade }
}

// ---------------------------------------------------------------- admission

/// An order request as the API receives it.
#[derive(Debug)]
pub struct PlaceReq {
    pub market_id: String,
    pub side: String,
    pub price: u32,
    pub qty: u32,
    pub tif: String,
    pub idempotency: Option<String>,
}

/// Why an order request is turned away before it reaches the engine.
#[derive(Debug, Clone, Copy, PartialEq, Eq, Structural)]
pub enum Rejection {
    /// The idempotency key was seen before.
    Duplicate(RiskError),
    /// The user's rate limit refused it.
    RateLimited(RiskError),
    /// The position or notional cap refused it.
    Risk(LedgerError),
}

impl Rejection {
    /// The HTTP status the API answers with: 409, 429 or 403.
    pub fn status(&self) -> (res: u16)
        ensures
            res == match *self {
                Rejection::Duplicate(_) => 409u16,
                Rejection::RateLimited(_) => 429u16,
                Rejection::Risk(_) => 403u16,
            },
    {
        match self {
            Rejection::Duplicate(_) => 409,
            Rejection::RateLimited(_) => 429,
            Rejection::Risk(_) => 403,
        }
    }

    pub fn message(&self) -> (s: &'static str)
        ensures
            s@ == match *self {
                Rejection::Duplicate(e) => risk_message(e),
                Rejection::RateLimited(e) => risk_message(e),
                Rejection::Risk(e) => ledger_message(e),
            },
    {
        match self {
            Rejection::Duplicate(e) => e.message(),
            Rejection::RateLimited(e) => e.message(),
            Rejection::Risk(e) => e.message(),
        }
    }
}

/// Whether the request repeats an idempotency key already seen.
pub open spec fn is_dup(keys: Seq<Seq<char>>, idem: Option<String>) -> bool {
    idem matches Some(k) && keys.contains(k@)
}

/// The order a request becomes once admitted.
pub open spec fn order_of(r: PlaceReq, user: UserId, order_id: OrderId) -> NewOrder {
    NewOrder {
        id: order_id,
        user_id: user,
        market_id: r.market_id,
        side: side_of(r.side@),
        price: r.price,
        qty: r.qty,
        tif: tif_of(r.tif@),
        idempotency: r.idempotency,
    }
}

/// Admission of an order request, in order: its idempotency key (recorded
/// the first time, a repeat refused), the user's rate limit, then the
/// position and notional caps for the order filled in full. An admitted
/// request becomes an order with the given id.
pub fn admit_order(risk: &mut Risk, ledger: &Ledger, user: UserId, order_id: OrderId, r: &PlaceReq) -> (res: Result<NewOrder, Rejection>)
    requires
        ledger.wf(),
        intent_fits(ledger.pos(), user, side_of(r.side@), r.qty, r.price as i64, r.market_id@, old(risk).caps),
    ensures
        final(risk).caps == old(risk).caps,
        key_views(final(risk).idempo@) == match r.idempotency {
            Some(k) => idem_step(key_views(old(risk).idempo@), k@).0,
            None => key_views(old(risk).idempo@),
        },
        is_dup(key_views(old(risk).idempo@), r.idempotency) <==> res == Err::<NewOrder, Rejection>(
            Rejection::Duplicate(RiskError::DuplicateIdempotencyKey),
        ),
        is_dup(key_views(old(risk).idempo@), r.idempotency) ==> final(risk).bucket@ == old(risk).bucket@,
        res matches Err(Rejection::RateLimited(e)) ==> (e == RiskError::Clock && final(risk).bucket@ == old(
            risk,
        ).bucket@) || (exists|now: u64|
            #[trigger] rate_step(old(risk).bucket@, user, now, old(risk).caps) == (final(risk).bucket@, Err::<(), RiskError>(e))),
        res matches Err(Rejection::Risk(e)) ==> (exists|now: u64|
            #[trigger] rate_step(old(risk).bucket@, user, now, old(risk).caps) == (final(risk).bucket@, Ok::<(), RiskError>(())))
            && intent_spec(ledger.pos(), user, side_of(r.side@), r.qty, r.price as i64, r.market_id@, old(risk).caps) == Err::<
            (),
            LedgerError,
        >(e),
        res matches Ok(o) ==> o == order_of(*r, user, order_id) && (exists|now: u64|
            #[trigger] rate_step(old(risk).bucket@, user, now, old(risk).caps) == (final(risk).bucket@, Ok::<(), RiskError>(())))
            && intent_spec(ledger.pos(), user, side_of(r.side@), r.qty, r.price as i64, r.market_id@, old(risk).caps) is Ok,
        !is_dup(key_views(old(risk).idempo@), r.idempotency) && intent_spec(
            ledger.pos(),
            user,
            side_of(r.side@),
            r.qty,
            r.price as i64,
            r.market_id@,
            old(risk).caps,
        ) is Ok ==> res is Ok || res matches Err(Rejection::RateLimited(_)),
{
    match &r.idempotency {
        Some(key) => {
            match risk.check_idempotency(key.as_str()) {
                Err(e) => {
                    return Err(Rejection::Duplicate(e));
                },
                Ok(()) => {},
            }
        },
        None => {},
    }
    match risk.check_rate_limit(user) {
        Err(e) => {
            return Err(Rejection::RateLimited(e));
        },
        Ok(()) => {},
    }
    let side = parse_side(r.side.as_str());
    let tif = parse_tif(r.tif.as_str());
    let caps = risk.caps();
    match ledger.check_intent(user, side, r.qty, r.price as i64, r.market_id.as_str(), caps) {
        Err(e) => {
            return Err(Rejection::Risk(e));
        },
        Ok(()) => {},
    }
    Ok(
        NewOrder {
            id: order_id,
            user_id: user,
            market_id: r.market_id.clone(),
            side,
            price: r.price,
            qty: r.qty,
            tif,
            idempotency: clone_opt_string(&r.idempotency),
        },
    )
}

// ---------------------------------------------------------------- load generation

/// The load generator's plan: the total number of requests for the run
/// (`qps` × `seconds`) and the share of each worker, rounded up.
pub fn load_plan(qps: u32, seconds: u64, concurrency: usize) -> (res: (usize, usize))
    requires
        concurrency > 0,
        seconds <= usize::MAX,
        qps * seconds + concurrency <= usize::MAX,
    ensures
        res.0 == qps * seconds,
        res.1 == (qps * seconds + concurrency - 1) / (concurrency as int),
        res.1 * concurrency >= res.0,
{
    let q: usize = qps as usize;
    let sec: usize = seconds as usize;
    assert(q * sec == qps * seconds);
    let total: usize = q * sec;
    let per_task: usize = (total + concurrency - 1) / concurrency;
    assert(per_task * concurrency >= total) by (nonlinear_arith)
        requires
            per_task == (total + concurrency - 1) / (concurrency as int),
            concurrency > 0,
    ;
    (total, per_task)
}

} // verus!
