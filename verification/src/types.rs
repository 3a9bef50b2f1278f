use vstd::prelude::*;

verus! {

/// Identifier of a market (its catalog id).
pub type MarketId = String;

/// Order identifiers are 128-bit values (the bits of a UUID).
pub type OrderId = u128;

/// User identifiers are 128-bit values (the bits of a UUID).
pub type UserId = u128;

#[derive(Debug, Clone, Copy, PartialEq, Eq, Structural)]
pub enum Side {
    Buy,
    Sell,
}

#[derive(Debug, Clone, Copy, PartialEq, Eq, Structural)]
pub enum Tif {
    Gtc,
    Ioc,
    Fok,
}

/// A tradable binary market; prices are in cents.
#[derive(Debug)]
pub struct Market {
    pub id: MarketId,
    pub name: String,
    pub tick_size: u32,
    pub description: String,
    pub tags: Vec<String>,
}

pub fn clone_strings(v: &Vec<String>) -> (res: Vec<String>)
    ensures
        res@ == v@,
{
    let mut res: Vec<String> = Vec::new();
    let mut i: usize = 0;
    while i < v.len()
        invariant
            i <= v.len(),
            res@ == v@.subrange(0, i as int),
        decreases v.len() - i,
    {
        res.push(v[i].clone());
        i = i + 1;
        assert(res@ =~= v@.subrange(0, i as int));
    }
    assert(res@ =~= v@);
    res
}

/// The value of a market: its fields, with the tag list as a sequence.
pub struct MarketView {
    pub id: String,
    pub name: String,
    pub tick_size: u32,
    pub description: String,
    pub tags: Seq<String>,
}

impl View for Market {
    type V = MarketView;

    open spec fn view(&self) -> MarketView {
        MarketView {
            id: self.id,
            name: self.name,
            tick_size: self.tick_size,
            description: self.description,
            tags: self.tags@,
        }
    }
}

impl Clone for Market {
    fn clone(&self) -> (res: Self)
        ensures
            res@ == self@,
    {
        let tags = clone_strings(&self.tags);
        Market {
            id: self.id.clone(),
            name: self.name.clone(),
            tick_size: self.tick_size,
            description: self.description.clone(),
            tags,
        }
    }
}

pub fn clone_opt_string(s: &Option<String>) -> (res: Option<String>)
    ensures
        res == *s,
{
    match s {
        Some(x) => Some(x.clone()),
        None => None,
    }
}

/// An order as submitted by a client.
#[derive(Debug)]
pub struct NewOrder {
    pub id: OrderId,
    pub user_id: UserId,
    pub market_id: MarketId,
    pub side: Side,
    pub price: u32,
    pub qty: u32,
    pub tif: Tif,
    pub idempotency: Option<String>,
}

impl Clone for NewOrder {
    fn clone(&self) -> (res: Self)
        ensures
            res == *self,
    {
        NewOrder {
            id: self.id,
            user_id: self.user_id,
            market_id: self.market_id.clone(),
            side: self.side,
            price: self.price,
            qty: self.qty,
            tif: self.tif,
            idempotency: clone_opt_string(&self.idempotency),
        }
    }
}

/// Move a resting order to a new price and/or size.
#[derive(Debug)]
pub struct ReplaceOrder {
    pub market_id: MarketId,
    pub order_id: OrderId,
    pub new_price: Option<u32>,
    pub new_qty: Option<u32>,
}

impl Clone for ReplaceOrder {
    fn clone(&self) -> (res: Self)
        ensures
            res == *self,
    {
        ReplaceOrder {
            market_id: self.market_id.clone(),
            order_id: self.order_id,
            new_price: self.new_price,
            new_qty: self.new_qty,
        }
    }
}

/// One execution between an incoming (taker) order and a resting (maker) order.
#[derive(Debug)]
pub struct Fill {
    pub market_id: MarketId,
    pub taker_order_id: OrderId,
    pub maker_order_id: OrderId,
    pub price: u32,
    pub qty: u32,
    pub buyer: UserId,
    pub seller: UserId,
}

impl Clone for Fill {
    fn clone(&self) -> (res: Self)
        ensures
            res == *self,
    {
        Fill {
            market_id: self.market_id.clone(),
            taker_order_id: self.taker_order_id,
            maker_order_id: self.maker_order_id,
            price: self.price,
            qty: self.qty,
            buyer: self.buyer,
            seller: self.seller,
        }
    }
}

/// Aggregated size at one price.
#[derive(Debug, Clone, Copy, PartialEq, Eq, Structural)]
pub struct L2Level {
    pub price: u32,
    pub qty: u64,
}

/// Aggregated book: bids best (highest) first, asks best (lowest) first.
#[derive(Debug)]
pub struct L2Book {
    pub bids: Vec<L2Level>,
    pub asks: Vec<L2Level>,
}

/// A resting order.
#[derive(Debug, Clone, Copy, PartialEq, Eq, Structural)]
pub struct Order {
    pub id: OrderId,
    pub user_id: UserId,
    pub price: u32,
    pub qty: u32,
    pub ts: u64,
}

/// The timestamp of a resting order is derived from its id (its low 64 bits),
/// so that replaying the same commands yields the same book.
pub open spec fn order_ts(id: u128) -> u64 {
    (id % 0x1_0000_0000_0000_0000) as u64
}

pub fn ts_from_id(id: OrderId) -> (ts: u64)
    ensures
        ts == order_ts(id),
{
    (id % 0x1_0000_0000_0000_0000) as u64
}

impl Order {
    /// The resting form of a new order: same id, user, price and size.
    pub fn from_new(o: &NewOrder) -> (res: Order)
        ensures
            res == (Order { id: o.id, user_id: o.user_id, price: o.price, qty: o.qty, ts: order_ts(o.id) }),
    {
        Order { id: o.id, user_id: o.user_id, price: o.price, qty: o.qty, ts: ts_from_id(o.id) }
    }
}

/// Outcome of placing an order.
#[derive(Debug)]
pub struct PlaceResult {
    pub fills: Vec<Fill>,
    /// The incoming order was canceled against the user's own resting order.
    pub self_trade_prevented: bool,
    /// Unfilled size was posted to the book (GTC only).
    pub rested: bool,
}

/// A resting order of one user, as listed by the registry.
#[derive(Debug)]
pub struct OpenOrderRow {
    pub market_id: MarketId,
    pub order_id: OrderId,
    pub side: Side,
    pub price: u32,
    pub qty: u32,
}

/// Errors of book and registry operations.
#[derive(Debug, Clone, Copy, PartialEq, Eq, Structural)]
pub enum BookError {
    UnknownMarket,
    OrderNotFound,
    InvalidNewQty,
}

impl BookError {
    /// A short description of the error.
    pub fn message(&self) -> (s: &'static str)
        ensures
            s@ == match *self {
                BookError::UnknownMarket => "unknown market"@,
                BookError::OrderNotFound => "order not found"@,
                BookError::InvalidNewQty => "invalid new_qty"@,
            },
    {
        match self {
            BookError::UnknownMarket => "unknown market",
            BookError::OrderNotFound => "order not found",
            BookError::InvalidNewQty => "invalid new_qty",
        }
    }
}

} // verus!
