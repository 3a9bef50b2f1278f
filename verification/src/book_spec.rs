//! The mathematical model of an order book side and of price–time matching.
use vstd::prelude::*;
use crate::types::{BookError, L2Level, NewOrder, Order, OrderId, ReplaceOrder, Side, Tif, UserId, order_ts};

verus! {

/// One price level: its price and its FIFO queue (front = index 0).
pub struct LevelV {
    pub price: u32,
    pub orders: Seq<Order>,
}

/// A book as a value: both sides as level sequences in ascending price order.
pub struct BookV {
    pub bids: Seq<LevelV>,
    pub asks: Seq<LevelV>,
    pub last_trade: Option<u32>,
    pub seq: int,
    pub settled: Option<bool>,
}

/// One execution against a resting order, seen from the matcher.
#[derive(Debug, Clone, Copy, PartialEq, Eq, Structural)]
pub struct Trade {
    pub maker_id: OrderId,
    pub maker_user: UserId,
    pub price: u32,
    pub qty: u32,
}

/// What a run of the matcher leaves behind.
pub struct MatchV {
    pub book: Seq<LevelV>,
    pub remaining: int,
    pub trades: Seq<Trade>,
    pub stp: bool,
}

/// What placing an order does: the new book, the executions, whether
/// self-trade prevention fired and whether the remainder rested.
pub struct PlaceV {
    pub book: BookV,
    pub trades: Seq<Trade>,
    pub stp: bool,
    pub rested: bool,
}

// ---------------------------------------------------------------- well-formedness

/// Level prices strictly increase along the side.
pub open spec fn side_sorted(s: Seq<LevelV>) -> bool {
    forall|i: int, j: int| 0 <= i < j < s.len() ==> s[i].price < s[j].price
}

/// Every resting order has positive size and sits at its own price.
pub open spec fn side_orders_ok(s: Seq<LevelV>) -> bool {
    forall|i: int, k: int|
        0 <= i < s.len() && 0 <= k < s[i].orders.len() ==> #[trigger] s[i].orders[k].qty > 0
            && s[i].orders[k].price == s[i].price
}

pub open spec fn side_wf(s: Seq<LevelV>) -> bool {
    side_sorted(s) && side_orders_ok(s)
}

/// Every level price lies strictly between `lo` and `hi`.
pub open spec fn prices_in(s: Seq<LevelV>, lo: int, hi: int) -> bool {
    forall|i: int| 0 <= i < s.len() ==> lo < #[trigger] s[i].price < hi
}

/// No bid level is priced at or above an ask level.
pub open spec fn not_crossed(b: BookV) -> bool {
    forall|i: int, j: int|
        0 <= i < b.bids.len() && 0 <= j < b.asks.len() ==> #[trigger] b.bids[i].price
            < #[trigger] b.asks[j].price
}

pub open spec fn book_wf(b: BookV) -> bool {
    side_wf(b.bids) && side_wf(b.asks) && not_crossed(b)
}

// ---------------------------------------------------------------- matching

/// Index of the best level of the side an incoming order trades against:
/// the lowest ask for a buy, the highest bid for a sell.
pub open spec fn best_index(taker: Side, book: Seq<LevelV>) -> int {
    if taker == Side::Buy {
        0
    } else {
        book.len() - 1
    }
}

/// Whether an incoming order with limit `limit` trades at level price `px`.
pub open spec fn crosses(taker: Side, limit: u32, px: u32) -> bool {
    if taker == Side::Buy {
        px <= limit
    } else {
        px >= limit
    }
}

/// The side after taking `traded` from the front order of level `b`: the
/// order leaves when exhausted and the level leaves when emptied.
pub open spec fn after_trade(book: Seq<LevelV>, b: int, traded: u32) -> Seq<LevelV> {
    let lvl = book[b];
    let maker = lvl.orders[0];
    let orders2 = if maker.qty == traded {
        lvl.orders.drop_first()
    } else {
        lvl.orders.update(
            0,
            Order {
                id: maker.id,
                user_id: maker.user_id,
                price: maker.price,
                qty: (maker.qty - traded) as u32,
                ts: maker.ts,
            },
        )
    };
    if orders2.len() == 0 {
        book.remove(b)
    } else {
        book.update(b, LevelV { price: lvl.price, orders: orders2 })
    }
}

/// Price–time matching of an incoming order (side `taker`, limit `limit`,
/// owner `user`, unfilled size `remaining`) against the opposite side `book`.
/// Empty levels at the top are dropped; an incoming order that reaches its
/// own user's order at the front of the best level is canceled (self-trade
/// prevention) and nothing more trades.
pub open spec fn match_run(taker: Side, limit: u32, user: UserId, book: Seq<LevelV>, remaining: int) -> MatchV
    decreases remaining, book.len(),
{
    if remaining <= 0 || book.len() == 0 {
        MatchV { book, remaining, trades: seq![], stp: false }
    } else {
        let b = best_index(taker, book);
        let lvl = book[b];
        if !crosses(taker, limit, lvl.price) {
            MatchV { book, remaining, trades: seq![], stp: false }
        } else if lvl.orders.len() == 0 {
            match_run(taker, limit, user, book.remove(b), remaining)
        } else {
            let maker = lvl.orders[0];
            if maker.user_id == user {
                MatchV { book, remaining: 0, trades: seq![], stp: true }
            } else if maker.qty == 0 {
                MatchV { book, remaining, trades: seq![], stp: false }
            } else {
                let traded: u32 = if maker.qty <= remaining {
                    maker.qty
                } else {
                    remaining as u32
                };
                let rest = match_run(taker, limit, user, after_trade(book, b, traded), remaining - traded);
                MatchV {
                    book: rest.book,
                    remaining: rest.remaining,
                    trades: seq![Trade { maker_id: maker.id, maker_user: maker.user_id, price: lvl.price, qty: traded }]
                        + rest.trades,
                    stp: rest.stp,
                }
            }
        }
    }
}

/// The resting orders an incoming order could reach, in priority order:
/// the queues of every crossing level, best level first.
pub open spec fn crossing_makers(taker: Side, limit: u32, book: Seq<LevelV>) -> Seq<Order>
    decreases book.len(),
{
    if book.len() == 0 {
        seq![]
    } else {
        let b = best_index(taker, book);
        if !crosses(taker, limit, book[b].price) {
            seq![]
        } else {
            book[b].orders + crossing_makers(taker, limit, book.remove(b))
        }
    }
}

/// Whether walking `makers` in order fills `need` before meeting an order of `user`.
pub open spec fn fok_walk(makers: Seq<Order>, need: int, user: UserId) -> bool
    decreases makers.len(),
{
    if need <= 0 {
        true
    } else if makers.len() == 0 {
        false
    } else if makers[0].user_id == user {
        false
    } else {
        fok_walk(makers.drop_first(), need - makers[0].qty, user)
    }
}

pub open spec fn opposite(b: BookV, side: Side) -> Seq<LevelV> {
    if side == Side::Buy {
        b.asks
    } else {
        b.bids
    }
}

pub open spec fn own_side(b: BookV, side: Side) -> Seq<LevelV> {
    if side == Side::Buy {
        b.bids
    } else {
        b.asks
    }
}

/// Whether a fill-or-kill order can execute in full right now.
pub open spec fn fok_ok(b: BookV, o: NewOrder) -> bool {
    fok_walk(crossing_makers(o.side, o.price, opposite(b, o.side)), o.qty as int, o.user_id)
}

/// Position at which a level priced `p` belongs in an ascending side.
pub open spec fn lower_bound(s: Seq<LevelV>, p: u32) -> int
    decreases s.len(),
{
    if s.len() == 0 {
        0
    } else if s.last().price < p {
        s.len() as int
    } else {
        lower_bound(s.drop_last(), p)
    }
}

/// The side with `o` appended to the queue at its price (creating the level if needed).
pub open spec fn insert_resting(s: Seq<LevelV>, o: Order) -> Seq<LevelV> {
    let k = lower_bound(s, o.price);
    if k < s.len() && s[k].price == o.price {
        s.update(k, LevelV { price: o.price, orders: s[k].orders.push(o) })
    } else {
        s.insert(k, LevelV { price: o.price, orders: seq![o] })
    }
}

pub open spec fn with_sides(b: BookV, side: Side, own: Seq<LevelV>, opp: Seq<LevelV>) -> BookV {
    if side == Side::Buy {
        BookV { bids: own, asks: opp, ..b }
    } else {
        BookV { bids: opp, asks: own, ..b }
    }
}

/// Placing an order: nothing happens on a settled book or to a fill-or-kill
/// order that cannot fill completely; otherwise the order matches and a GTC
/// remainder rests at its limit. `seq` advances once per execution and once
/// for a rest; `last_trade` becomes the price of the last execution.
pub open spec fn place_spec(b: BookV, o: NewOrder) -> PlaceV {
    if b.settled is Some || (o.tif == Tif::Fok && !fok_ok(b, o)) {
        PlaceV { book: b, trades: seq![], stp: false, rested: false }
    } else {
        let m = match_run(o.side, o.price, o.user_id, opposite(b, o.side), o.qty as int);
        let rest = o.tif == Tif::Gtc && m.remaining > 0;
        let own = if rest {
            insert_resting(
                own_side(b, o.side),
                Order { id: o.id, user_id: o.user_id, price: o.price, qty: m.remaining as u32, ts: order_ts(o.id) },
            )
        } else {
            own_side(b, o.side)
        };
        let b2 = with_sides(b, o.side, own, m.book);
        PlaceV {
            book: BookV {
                last_trade: if m.trades.len() > 0 { Some(m.trades.last().price) } else { b.last_trade },
                seq: b.seq + m.trades.len() + if rest { 1int } else { 0int },
                ..b2
            },
            trades: m.trades,
            stp: m.stp,
            rested: rest,
        }
    }
}

/// Total size of a list of executions.
pub open spec fn trades_qty(t: Seq<Trade>) -> int
    decreases t.len(),
{
    if t.len() == 0 {
        0
    } else {
        t[0].qty + trades_qty(t.drop_first())
    }
}

// ---------------------------------------------------------------- lemmas

pub proof fn lemma_after_trade(book: Seq<LevelV>, b: int, traded: u32, lo: int, hi: int)
    requires
        side_wf(book),
        0 <= b < book.len(),
        book[b].orders.len() > 0,
        0 < traded <= book[b].orders[0].qty,
    ensures
        side_wf(after_trade(book, b, traded)),
        prices_in(book, lo, hi) ==> prices_in(after_trade(book, b, traded), lo, hi),
        after_trade(book, b, traded).len() <= book.len(),
{
    let lvl = book[b];
    let maker = lvl.orders[0];
    let a = after_trade(book, b, traded);
    if maker.qty == traded {
        let o2 = lvl.orders.drop_first();
        if o2.len() != 0 {
            assert forall|i: int, k: int| 0 <= i < a.len() && 0 <= k < a[i].orders.len() implies
                #[trigger] a[i].orders[k].qty > 0 && a[i].orders[k].price == a[i].price by {
                if i == b {
                    assert(a[i].orders[k] == book[b].orders[k + 1]);
                } else {
                    assert(a[i] == book[i]);
                }
            }
        }
    } else {
        assert forall|i: int, k: int| 0 <= i < a.len() && 0 <= k < a[i].orders.len() implies
            #[trigger] a[i].orders[k].qty > 0 && a[i].orders[k].price == a[i].price by {
            if i == b {
                if k != 0 {
                    assert(a[i].orders[k] == book[b].orders[k]);
                }
            } else {
                assert(a[i] == book[i]);
            }
        }
    }
}

/// What matching preserves and guarantees.
pub proof fn lemma_match(taker: Side, limit: u32, user: UserId, book: Seq<LevelV>, r: int, lo: int, hi: int)
    requires
        side_wf(book),
        r >= 0,
    ensures
        ({
            let m = match_run(taker, limit, user, book, r);
            &&& side_wf(m.book)
            &&& (prices_in(book, lo, hi) ==> prices_in(m.book, lo, hi))
            &&& m.book.len() <= book.len()
            &&& 0 <= m.remaining <= r
            &&& (m.stp ==> m.remaining == 0)
            &&& (!m.stp ==> trades_qty(m.trades) + m.remaining == r)
            &&& trades_qty(m.trades) <= r
            &&& m.trades.len() <= r
            &&& (forall|i: int| 0 <= i < m.trades.len() ==> (#[trigger] m.trades[i]).qty > 0)
            &&& (m.remaining > 0 && m.book.len() > 0 ==> !crosses(
                taker,
                limit,
                m.book[best_index(taker, m.book)].price,
            ))
        }),
    decreases r, book.len(),
{
    if r <= 0 || book.len() == 0 {
    } else {
        let b = best_index(taker, book);
        let lvl = book[b];
        if !crosses(taker, limit, lvl.price) {
        } else if lvl.orders.len() == 0 {
            let bk = book.remove(b);
            assert(side_wf(bk)) by {
                assert forall|i: int, k: int| 0 <= i < bk.len() && 0 <= k < bk[i].orders.len() implies
                    #[trigger] bk[i].orders[k].qty > 0 && bk[i].orders[k].price == bk[i].price by {
                    if i < b {
                        assert(bk[i] == book[i]);
                    } else {
                        assert(bk[i] == book[i + 1]);
                    }
                }
            }
            lemma_match(taker, limit, user, bk, r, lo, hi);
        } else {
            let maker = lvl.orders[0];
            assert(maker.qty > 0);
            if maker.user_id == user {
            } else {
                let traded: u32 = if maker.qty <= r { maker.qty } else { r as u32 };
                let a = after_trade(book, b, traded);
                lemma_after_trade(book, b, traded, lo, hi);
                lemma_match(taker, limit, user, a, r - traded, lo, hi);
                let rest = match_run(taker, limit, user, a, r - traded);
                let m = match_run(taker, limit, user, book, r);
                let t = Trade { maker_id: maker.id, maker_user: maker.user_id, price: lvl.price, qty: traded };
                assert(m.trades == seq![t] + rest.trades);
                assert((seq![t] + rest.trades).drop_first() =~= rest.trades);
                assert forall|i: int| 0 <= i < m.trades.len() implies (#[trigger] m.trades[i]).qty > 0 by {
                    if i > 0 {
                        assert(m.trades[i] == rest.trades[i - 1]);
                    }
                }
            }
        }
    }
}

/// A fill-or-kill check that passes means matching fills the whole size
/// without self-trade prevention firing.
pub proof fn lemma_fok_fills(taker: Side, limit: u32, user: UserId, book: Seq<LevelV>, r: int)
    requires
        side_wf(book),
        r >= 0,
        fok_walk(crossing_makers(taker, limit, book), r, user),
    ensures
        match_run(taker, limit, user, book, r).remaining == 0,
        !match_run(taker, limit, user, book, r).stp,
    decreases r, book.len(),
{
    if r <= 0 || book.len() == 0 {
    } else {
        let b = best_index(taker, book);
        let lvl = book[b];
        if !crosses(taker, limit, lvl.price) {
        } else if lvl.orders.len() == 0 {
            let bk = book.remove(b);
            assert(crossing_makers(taker, limit, book) =~= crossing_makers(taker, limit, bk));
            lemma_match(taker, limit, user, bk, 0, 0, 0);
            assert(side_wf(bk)) by {
                assert forall|i: int, k: int| 0 <= i < bk.len() && 0 <= k < bk[i].orders.len() implies
                    #[trigger] bk[i].orders[k].qty > 0 && bk[i].orders[k].price == bk[i].price by {
                    if i < b {
                        assert(bk[i] == book[i]);
                    } else {
                        assert(bk[i] == book[i + 1]);
                    }
                }
            }
            lemma_fok_fills(taker, limit, user, bk, r);
        } else {
            let maker = lvl.orders[0];
            let cm = crossing_makers(taker, limit, book);
            let tail = crossing_makers(taker, limit, book.remove(b));
            assert(cm == lvl.orders + tail);
            assert(cm[0] == maker);
            assert(maker.user_id != user);
            assert(maker.qty > 0);
            let traded: u32 = if maker.qty <= r { maker.qty } else { r as u32 };
            let a = after_trade(book, b, traded);
            lemma_after_trade(book, b, traded, 0, 0);
            if traded == maker.qty && traded < r {
                // the maker is exhausted and the walk continues with the rest
                assert(cm.drop_first() =~= lvl.orders.drop_first() + tail);
                let o2 = lvl.orders.drop_first();
                if o2.len() == 0 {
                    assert(a == book.remove(b));
                    assert(o2 + tail =~= tail);
                } else {
                    let ab = best_index(taker, a);
                    assert(ab == b);
                    assert(a[ab] == LevelV { price: lvl.price, orders: o2 });
                    assert(a.remove(ab) =~= book.remove(b));
                    assert(crossing_makers(taker, limit, a) == o2 + crossing_makers(taker, limit, a.remove(ab)));
                }
                assert(crossing_makers(taker, limit, a) =~= cm.drop_first());
                lemma_fok_fills(taker, limit, user, a, r - traded);
            } else {
                lemma_match(taker, limit, user, a, 0, 0, 0);
            }
        }
    }
}

pub proof fn lemma_lower_bound(s: Seq<LevelV>, p: u32)
    requires
        side_sorted(s),
    ensures
        0 <= lower_bound(s, p) <= s.len(),
        forall|j: int| 0 <= j < lower_bound(s, p) ==> s[j].price < p,
        forall|j: int| lower_bound(s, p) <= j < s.len() ==> s[j].price >= p,
    decreases s.len(),
{
    if s.len() == 0 {
    } else if s.last().price < p {
        assert forall|j: int| 0 <= j < s.len() implies s[j].price < p by {
            if j < s.len() - 1 {
                assert(s[j].price < s[s.len() - 1].price);
            }
        }
    } else {
        let d = s.drop_last();
        lemma_lower_bound(d, p);
        assert forall|j: int| 0 <= j < lower_bound(s, p) implies s[j].price < p by {
            assert(s[j] == d[j]);
        }
        assert forall|j: int| lower_bound(s, p) <= j < s.len() implies s[j].price >= p by {
            if j < s.len() - 1 {
                assert(s[j] == d[j]);
            }
        }
    }
}

pub proof fn lemma_insert_resting(s: Seq<LevelV>, o: Order, lo: int, hi: int)
    requires
        side_wf(s),
        o.qty > 0,
    ensures
        side_wf(insert_resting(s, o)),
        prices_in(s, lo, hi) && lo < o.price < hi ==> prices_in(insert_resting(s, o), lo, hi),
{
    lemma_lower_bound(s, o.price);
    let k = lower_bound(s, o.price);
    let r = insert_resting(s, o);
    if k < s.len() && s[k].price == o.price {
        assert forall|i: int, q: int| 0 <= i < r.len() && 0 <= q < r[i].orders.len() implies
            #[trigger] r[i].orders[q].qty > 0 && r[i].orders[q].price == r[i].price by {
            if i == k {
                if q < s[k].orders.len() {
                    assert(r[i].orders[q] == s[k].orders[q]);
                }
            } else {
                assert(r[i] == s[i]);
            }
        }
    } else {
        assert forall|i: int, j: int| 0 <= i < j < r.len() implies r[i].price < r[j].price by {
            if j < k {
            } else if j == k {
            } else if i < k {
            } else if i == k {
                assert(r[j] == s[j - 1]);
                assert(s[j - 1].price >= o.price);
                assert(s[j - 1].price != o.price || j - 1 != k);
                if j - 1 == k {
                } else {
                    assert(s[k].price < s[j - 1].price);
                }
            } else {
                assert(r[i] == s[i - 1]);
                assert(r[j] == s[j - 1]);
            }
        }
        assert forall|i: int, q: int| 0 <= i < r.len() && 0 <= q < r[i].orders.len() implies
            #[trigger] r[i].orders[q].qty > 0 && r[i].orders[q].price == r[i].price by {
            if i < k {
                assert(r[i] == s[i]);
            } else if i > k {
                assert(r[i] == s[i - 1]);
            }
        }
        if prices_in(s, lo, hi) && lo < o.price < hi {
            assert forall|i: int| 0 <= i < r.len() implies lo < #[trigger] r[i].price < hi by {
                if i < k {
                    assert(r[i] == s[i]);
                } else if i > k {
                    assert(r[i] == s[i - 1]);
                }
            }
        }
    }
}


/// Placing an order keeps the book well formed and executes at most its size.
pub proof fn lemma_place_wf(b: BookV, o: NewOrder)
    requires
        book_wf(b),
    ensures
        book_wf(place_spec(b, o).book),
        place_spec(b, o).trades.len() <= o.qty,
        place_spec(b, o).book.seq <= b.seq + o.qty + 1,
{
    if b.settled is Some || (o.tif == Tif::Fok && !fok_ok(b, o)) {
    } else {
        let opp = opposite(b, o.side);
        let own = own_side(b, o.side);
        let m = match_run(o.side, o.price, o.user_id, opp, o.qty as int);
        let rest = o.tif == Tif::Gtc && m.remaining > 0;
        let ord = Order { id: o.id, user_id: o.user_id, price: o.price, qty: m.remaining as u32, ts: order_ts(o.id) };
        let p = place_spec(b, o);
        let big: int = 0x2_0000_0000;
        if o.side == Side::Buy {
            let lo: int = if b.bids.len() > 0 { b.bids.last().price as int } else { -1 };
            assert forall|i: int| 0 <= i < b.bids.len() implies #[trigger] b.bids[i].price <= lo by {
                if i < b.bids.len() - 1 {
                    assert(b.bids[i].price < b.bids[b.bids.len() - 1].price);
                }
            }
            assert(prices_in(opp, lo, big)) by {
                assert forall|j: int| 0 <= j < opp.len() implies lo < #[trigger] opp[j].price < big by {
                    if b.bids.len() > 0 {
                        assert(b.bids[b.bids.len() - 1].price < b.asks[j].price);
                    }
                }
            }
            lemma_match(o.side, o.price, o.user_id, opp, o.qty as int, lo, big);
            if rest {
                lemma_insert_resting(own, ord, -1, big);
                assert forall|i: int, j: int|
                    0 <= i < p.book.bids.len() && 0 <= j < p.book.asks.len() implies #[trigger] p.book.bids[i].price
                    < #[trigger] p.book.asks[j].price by {
                    let a = m.book[j].price as int;
                    assert(m.book[0].price <= m.book[j].price) by {
                        if j > 0 {
                            assert(m.book[0].price < m.book[j].price);
                        }
                    }
                    assert(prices_in(own, -1, a));
                    lemma_insert_resting(own, ord, -1, a);
                    assert(lo < a);
                }
            } else {
            }
        } else {
            let hi: int = if b.asks.len() > 0 { b.asks[0].price as int } else { big };
            assert forall|i: int| 0 <= i < b.asks.len() implies #[trigger] b.asks[i].price >= hi by {
                if i > 0 {
                    assert(b.asks[0].price < b.asks[i].price);
                }
            }
            assert(prices_in(opp, -1, hi)) by {
                assert forall|j: int| 0 <= j < opp.len() implies -1 < #[trigger] opp[j].price < hi by {
                    if b.asks.len() > 0 {
                        assert(b.bids[j].price < b.asks[0].price);
                    }
                }
            }
            lemma_match(o.side, o.price, o.user_id, opp, o.qty as int, -1, hi);
            if rest {
                lemma_insert_resting(own, ord, -1, big);
                assert forall|i: int, j: int|
                    0 <= i < p.book.bids.len() && 0 <= j < p.book.asks.len() implies #[trigger] p.book.bids[i].price
                    < #[trigger] p.book.asks[j].price by {
                    let c = m.book[i].price as int;
                    let l = m.book.len() - 1;
                    assert(m.book[i].price <= m.book[l].price) by {
                        if i < l {
                            assert(m.book[i].price < m.book[l].price);
                        }
                    }
                    assert(prices_in(own, c, big));
                    lemma_insert_resting(own, ord, c, big);
                }
            }
        }
    }
}


// ---------------------------------------------------------------- cancel and replace

/// Order `k` of level `i` has id `id`.
pub open spec fn hit(s: Seq<LevelV>, id: OrderId, i: int, k: int) -> bool {
    0 <= i < s.len() && 0 <= k < s[i].orders.len() && s[i].orders[k].id == id
}

/// ... and no order before it (levels in ascending price, queues front first) has that id.
pub open spec fn first_hit(s: Seq<LevelV>, id: OrderId, i: int, k: int) -> bool {
    &&& hit(s, id, i, k)
    &&& forall|i2: int, k2: int| 0 <= i2 < i && 0 <= k2 < s[i2].orders.len() ==> s[i2].orders[k2].id != id
    &&& forall|k2: int| 0 <= k2 < k ==> s[i].orders[k2].id != id
}

pub open spec fn has_id(s: Seq<LevelV>, id: OrderId) -> bool {
    exists|i: int, k: int| hit(s, id, i, k)
}

pub open spec fn first_pos(s: Seq<LevelV>, id: OrderId) -> (int, int) {
    choose|i: int, k: int| first_hit(s, id, i, k)
}

/// The first order with id `id`.
pub open spec fn found_order(s: Seq<LevelV>, id: OrderId) -> Order {
    s[first_pos(s, id).0].orders[first_pos(s, id).1]
}

/// The side without its first order with id `id` (its level stays, even if emptied).
pub open spec fn remove_first(s: Seq<LevelV>, id: OrderId) -> Seq<LevelV> {
    let (i, k) = first_pos(s, id);
    s.update(i, LevelV { price: s[i].price, orders: s[i].orders.remove(k) })
}

/// Canceling removes the first order with the id, searching the bids before
/// the asks; `seq` advances when an order was removed.
pub open spec fn cancel_spec(b: BookV, id: OrderId) -> BookV {
    if has_id(b.bids, id) {
        BookV { bids: remove_first(b.bids, id), seq: b.seq + 1, ..b }
    } else if has_id(b.asks, id) {
        BookV { asks: remove_first(b.asks, id), seq: b.seq + 1, ..b }
    } else {
        b
    }
}

/// The side without its empty levels.
pub open spec fn drop_empty(s: Seq<LevelV>) -> Seq<LevelV>
    decreases s.len(),
{
    if s.len() == 0 {
        s
    } else {
        let d = drop_empty(s.drop_last());
        if s.last().orders.len() > 0 {
            d.push(s.last())
        } else {
            d
        }
    }
}

/// The order a replace re-enters: same id and user, new (or old) price and
/// size, GTC, on the side the old order was on.
pub open spec fn reentry(r: ReplaceOrder, old: Order, side: Side) -> NewOrder {
    NewOrder {
        id: r.order_id,
        user_id: old.user_id,
        market_id: r.market_id,
        side,
        price: match r.new_price {
            Some(p) => p,
            None => old.price,
        },
        qty: match r.new_qty {
            Some(q) => q,
            None => old.qty,
        },
        tif: Tif::Gtc,
        idempotency: None,
    }
}

/// The book with the first order with id `id` taken off (bids searched
/// first), every empty level dropped, and `seq` advanced.
pub open spec fn replace_cleared(b: BookV, id: OrderId) -> BookV {
    let bids1 = if has_id(b.bids, id) { remove_first(b.bids, id) } else { b.bids };
    let asks1 = if has_id(b.bids, id) { b.asks } else { remove_first(b.asks, id) };
    BookV { bids: drop_empty(bids1), asks: drop_empty(asks1), seq: b.seq + 1, ..b }
}

/// Replacing: on a settled book nothing happens; an unknown id is an error
/// with no change. Otherwise the order is taken off the book, every empty
/// level is dropped and `seq` advances; a zero new size is then an error
/// (the order stays canceled); else the order is placed again as GTC at the
/// new price and size, behind orders already resting there.
pub open spec fn replace_spec(b: BookV, r: ReplaceOrder) -> (BookV, Result<(), BookError>) {
    let id = r.order_id;
    if b.settled is Some {
        (b, Ok(()))
    } else if !has_id(b.bids, id) && !has_id(b.asks, id) {
        (b, Err(BookError::OrderNotFound))
    } else {
        let side = if has_id(b.bids, id) { Side::Buy } else { Side::Sell };
        let old = if side == Side::Buy { found_order(b.bids, id) } else { found_order(b.asks, id) };
        let b1 = replace_cleared(b, id);
        let o = reentry(r, old, side);
        if o.qty == 0 {
            (b1, Err(BookError::InvalidNewQty))
        } else {
            (place_spec(b1, o).book, Ok(()))
        }
    }
}

pub proof fn lemma_first_hit_unique(s: Seq<LevelV>, id: OrderId, i: int, k: int, i2: int, k2: int)
    requires
        first_hit(s, id, i, k),
        first_hit(s, id, i2, k2),
    ensures
        i == i2 && k == k2,
{
    if i < i2 {
        assert(s[i].orders[k].id == id);
    } else if i2 < i {
        assert(s[i2].orders[k2].id == id);
    } else if k < k2 {
        assert(s[i].orders[k].id == id);
    } else if k2 < k {
        assert(s[i].orders[k2].id == id);
    }
}

/// Order `k` is the first one in `q` with id `id`.
pub open spec fn queue_first(q: Seq<Order>, id: OrderId, k: int) -> bool {
    0 <= k < q.len() && q[k].id == id && forall|k2: int| 0 <= k2 < k ==> q[k2].id != id
}

proof fn lemma_first_in_queue(q: Seq<Order>, id: OrderId, k0: int)
    requires
        0 <= k0 < q.len(),
        q[k0].id == id,
    ensures
        exists|k: int| queue_first(q, id, k),
    decreases k0,
{
    if exists|k2: int| 0 <= k2 < k0 && q[k2].id == id {
        let k2 = choose|k2: int| 0 <= k2 < k0 && q[k2].id == id;
        lemma_first_in_queue(q, id, k2);
    } else {
        assert(queue_first(q, id, k0));
    }
}

pub proof fn lemma_first_hit_exists(s: Seq<LevelV>, id: OrderId)
    requires
        has_id(s, id),
    ensures
        first_hit(s, id, first_pos(s, id).0, first_pos(s, id).1),
    decreases s.len(),
{
    let d = s.drop_last();
    if has_id(d, id) {
        lemma_first_hit_exists(d, id);
        let (i, k) = first_pos(d, id);
        assert(d[i] == s[i]);
        assert forall|i2: int, k2: int| 0 <= i2 < i && 0 <= k2 < s[i2].orders.len() implies s[i2].orders[k2].id
            != id by {
            assert(d[i2] == s[i2]);
        }
        assert(first_hit(s, id, i, k));
    } else {
        let (i0, k0) = choose|i: int, k: int| hit(s, id, i, k);
        let i = s.len() - 1;
        if i0 < i {
            assert(hit(d, id, i0, k0));
        }
        assert(0 <= k0 < s[i].orders.len() && s[i].orders[k0].id == id);
        lemma_first_in_queue(s[i].orders, id, k0);
        let k = choose|k: int| queue_first(s[i].orders, id, k);
        assert forall|i2: int, k2: int| 0 <= i2 < i && 0 <= k2 < s[i2].orders.len() implies s[i2].orders[k2].id
            != id by {
            assert(d[i2] == s[i2]);
            if s[i2].orders[k2].id == id {
                assert(hit(d, id, i2, k2));
            }
        }
        assert(first_hit(s, id, i, k));
    }
}

/// Removing one order keeps the side well formed and every level's price.
pub proof fn lemma_remove_first(s: Seq<LevelV>, id: OrderId)
    requires
        side_wf(s),
        has_id(s, id),
    ensures
        side_wf(remove_first(s, id)),
        remove_first(s, id).len() == s.len(),
        forall|i: int| 0 <= i < s.len() ==> #[trigger] remove_first(s, id)[i].price == s[i].price,
        found_order(s, id).id == id,
        found_order(s, id).qty > 0,
        found_order(s, id).price == s[first_pos(s, id).0].price,
{
    lemma_first_hit_exists(s, id);
    let (i, k) = first_pos(s, id);
    let r = remove_first(s, id);
    assert forall|a: int, q: int| 0 <= a < r.len() && 0 <= q < r[a].orders.len() implies #[trigger] r[a].orders[q].qty
        > 0 && r[a].orders[q].price == r[a].price by {
        if a == i {
            if q < k {
                assert(r[a].orders[q] == s[i].orders[q]);
            } else {
                assert(r[a].orders[q] == s[i].orders[q + 1]);
            }
        } else {
            assert(r[a] == s[a]);
        }
    }
}

pub proof fn lemma_drop_empty(s: Seq<LevelV>, lo: int, hi: int)
    requires
        side_wf(s),
    ensures
        side_wf(drop_empty(s)),
        prices_in(s, lo, hi) ==> prices_in(drop_empty(s), lo, hi),
        forall|i: int| 0 <= i < drop_empty(s).len() ==> (#[trigger] drop_empty(s)[i]).orders.len() > 0,
        forall|i: int| 0 <= i < drop_empty(s).len() ==> s.len() > 0 && (#[trigger] drop_empty(s)[i]).price <= s.last().price,
    decreases s.len(),
{
    if s.len() == 0 {
    } else {
        let d = s.drop_last();
        assert(side_wf(d)) by {
            assert forall|i: int, k: int| 0 <= i < d.len() && 0 <= k < d[i].orders.len() implies
                #[trigger] d[i].orders[k].qty > 0 && d[i].orders[k].price == d[i].price by {
                assert(d[i] == s[i]);
            }
        }
        lemma_drop_empty(d, lo, hi);
        let dd = drop_empty(d);
        let r = drop_empty(s);
        assert forall|i: int| 0 <= i < dd.len() implies (#[trigger] dd[i]).price < s.last().price by {
            assert(d[d.len() - 1] == s[s.len() - 2]);
            assert(s[s.len() - 2].price < s[s.len() - 1].price);
        }
        if s.last().orders.len() > 0 {
            assert forall|i: int, k: int| 0 <= i < r.len() && 0 <= k < r[i].orders.len() implies
                #[trigger] r[i].orders[k].qty > 0 && r[i].orders[k].price == r[i].price by {
                if i < dd.len() {
                    assert(r[i] == dd[i]);
                } else {
                    assert(r[i] == s[s.len() - 1]);
                }
            }
            assert forall|i: int, j: int| 0 <= i < j < r.len() implies r[i].price < r[j].price by {
                if j < dd.len() {
                    assert(r[i] == dd[i]);
                    assert(r[j] == dd[j]);
                } else {
                    assert(r[i] == dd[i]);
                }
            }
        }
    }
}

/// Canceling keeps the book well formed.
pub proof fn lemma_cancel_wf(b: BookV, id: OrderId)
    requires
        book_wf(b),
    ensures
        book_wf(cancel_spec(b, id)),
{
    let c = cancel_spec(b, id);
    if has_id(b.bids, id) {
        lemma_remove_first(b.bids, id);
        assert forall|i: int, j: int| 0 <= i < c.bids.len() && 0 <= j < c.asks.len() implies #[trigger] c.bids[i].price
            < #[trigger] c.asks[j].price by {
            assert(c.bids[i].price == b.bids[i].price);
        }
    } else if has_id(b.asks, id) {
        lemma_remove_first(b.asks, id);
        assert forall|i: int, j: int| 0 <= i < c.bids.len() && 0 <= j < c.asks.len() implies #[trigger] c.bids[i].price
            < #[trigger] c.asks[j].price by {
            assert(c.asks[j].price == b.asks[j].price);
        }
    }
}

pub proof fn lemma_replace_cleared(b: BookV, id: OrderId)
    requires
        book_wf(b),
        has_id(b.bids, id) || has_id(b.asks, id),
    ensures
        book_wf(replace_cleared(b, id)),
{
    let side = if has_id(b.bids, id) { Side::Buy } else { Side::Sell };
    let bids1 = if side == Side::Buy { remove_first(b.bids, id) } else { b.bids };
    let asks1 = if side == Side::Buy { b.asks } else { remove_first(b.asks, id) };
    if side == Side::Buy {
        lemma_remove_first(b.bids, id);
    } else {
        lemma_remove_first(b.asks, id);
    }
    assert(side_wf(bids1) && side_wf(asks1));
    assert forall|i: int, j: int| 0 <= i < bids1.len() && 0 <= j < asks1.len() implies #[trigger] bids1[i].price
        < #[trigger] asks1[j].price by {
        assert(bids1[i].price == b.bids[i].price);
        assert(asks1[j].price == b.asks[j].price);
    }
    let b1 = replace_cleared(b, id);
    lemma_drop_empty(bids1, -1, 0x2_0000_0000);
    assert forall|i: int, j: int| 0 <= i < b1.bids.len() && 0 <= j < b1.asks.len() implies #[trigger] b1.bids[i].price
        < #[trigger] b1.asks[j].price by {
        let lo: int = b1.bids[i].price as int;
        assert(bids1.len() > 0);
        let top = bids1[bids1.len() - 1].price as int;
        assert(lo <= top);
        assert(prices_in(asks1, top, 0x2_0000_0000)) by {
            assert forall|q: int| 0 <= q < asks1.len() implies top < #[trigger] asks1[q].price < 0x2_0000_0000int by {
                assert(bids1[bids1.len() - 1].price < asks1[q].price);
            }
        }
        lemma_drop_empty(asks1, top, 0x2_0000_0000);
    }
    lemma_drop_empty(asks1, -1, 0x2_0000_0000);
}

/// Replacing keeps the book well formed.
pub proof fn lemma_replace_wf(b: BookV, r: ReplaceOrder)
    requires
        book_wf(b),
    ensures
        book_wf(replace_spec(b, r).0),
        replace_spec(b, r).0.seq <= b.seq + 1 + 0x1_0000_0000,
{
    let id = r.order_id;
    if b.settled is Some {
    } else if !has_id(b.bids, id) && !has_id(b.asks, id) {
    } else {
        let side = if has_id(b.bids, id) { Side::Buy } else { Side::Sell };
        lemma_replace_cleared(b, id);
        let b1 = replace_cleared(b, id);
        let old = if side == Side::Buy { found_order(b.bids, id) } else { found_order(b.asks, id) };
        let o = reentry(r, old, side);
        if o.qty != 0 {
            lemma_place_wf(b1, o);
        }
    }
}


// ---------------------------------------------------------------- views of the book

/// Total resting size of a queue.
pub open spec fn level_qty(q: Seq<Order>) -> int
    decreases q.len(),
{
    if q.len() == 0 {
        0
    } else {
        level_qty(q.drop_last()) + q.last().qty
    }
}

pub open spec fn l2_level(l: LevelV) -> L2Level {
    L2Level { price: l.price, qty: level_qty(l.orders) as u64 }
}

pub open spec fn min_int(a: int, b: int) -> int {
    if a <= b {
        a
    } else {
        b
    }
}

/// The `depth` best bid levels, highest first.
pub open spec fn l2_bids(s: Seq<LevelV>, depth: int) -> Seq<L2Level> {
    Seq::new(min_int(depth, s.len() as int) as nat, |i: int| l2_level(s[s.len() - 1 - i]))
}

/// The `depth` best ask levels, lowest first.
pub open spec fn l2_asks(s: Seq<LevelV>, depth: int) -> Seq<L2Level> {
    Seq::new(min_int(depth, s.len() as int) as nat, |i: int| l2_level(s[i]))
}

/// Every level's total size fits in a `u64`.
pub open spec fn level_sizes_fit(s: Seq<LevelV>) -> bool {
    forall|i: int| 0 <= i < s.len() ==> level_qty(#[trigger] s[i].orders) <= u64::MAX
}

pub proof fn lemma_level_qty_prefix(q: Seq<Order>, j: int)
    requires
        0 <= j <= q.len(),
    ensures
        0 <= level_qty(q.subrange(0, j)) <= level_qty(q),
    decreases q.len(),
{
    if q.len() == 0 {
        assert(q.subrange(0, j) =~= q);
    } else if j == q.len() {
        assert(q.subrange(0, j) =~= q);
        lemma_level_qty_prefix(q.drop_last(), 0);
    } else {
        lemma_level_qty_prefix(q.drop_last(), j);
        assert(q.drop_last().subrange(0, j) =~= q.subrange(0, j));
    }
}

/// Orders of `user` with positive size in a queue, front first.
pub open spec fn live_of(q: Seq<Order>, user: UserId) -> Seq<Order>
    decreases q.len(),
{
    if q.len() == 0 {
        seq![]
    } else {
        let d = live_of(q.drop_last(), user);
        if q.last().user_id == user && q.last().qty > 0 {
            d.push(q.last())
        } else {
            d
        }
    }
}

/// Orders of `user` with positive size on a side, levels in ascending price.
pub open spec fn user_orders(s: Seq<LevelV>, user: UserId) -> Seq<Order>
    decreases s.len(),
{
    if s.len() == 0 {
        seq![]
    } else {
        user_orders(s.drop_last(), user) + live_of(s.last().orders, user)
    }
}

pub open spec fn tagged(side: Side, s: Seq<Order>) -> Seq<(Side, Order)> {
    s.map_values(|o: Order| (side, o))
}


// ---------------------------------------------------------------- laws

/// Fill-or-kill is all or nothing: on a well-formed book, placing a FOK
/// order either leaves the book untouched with no executions, or executes
/// its entire size with no self-trade cancel and nothing resting.
pub proof fn law_fok_all_or_nothing(b: BookV, o: NewOrder)
    requires
        book_wf(b),
        o.tif == Tif::Fok,
    ensures
        ({
            let p = place_spec(b, o);
            ||| (p.book == b && p.trades.len() == 0 && !p.stp && !p.rested)
            ||| (trades_qty(p.trades) == o.qty && !p.stp && !p.rested)
        }),
{
    if b.settled is Some || !fok_ok(b, o) {
    } else {
        let opp = opposite(b, o.side);
        lemma_fok_fills(o.side, o.price, o.user_id, opp, o.qty as int);
        lemma_match(o.side, o.price, o.user_id, opp, o.qty as int, 0, 0);
    }
}

/// Self-trade prevention: when it fires nothing of the incoming order rests
/// and the incoming order's own side of the book is untouched.
pub proof fn law_stp_nothing_rests(b: BookV, o: NewOrder)
    requires
        book_wf(b),
        place_spec(b, o).stp,
    ensures
        !place_spec(b, o).rested,
        own_side(place_spec(b, o).book, o.side) == own_side(b, o.side),
{
    let opp = opposite(b, o.side);
    lemma_match(o.side, o.price, o.user_id, opp, o.qty as int, 0, 0);
}

/// Size is conserved: executions never exceed the order's size, and a GTC
/// order on an open book that is not canceled by self-trade prevention
/// rests exactly when its executions fall short of its size.
pub proof fn law_size_conserved(b: BookV, o: NewOrder)
    requires
        book_wf(b),
    ensures
        trades_qty(place_spec(b, o).trades) <= o.qty,
        b.settled is None && o.tif == Tif::Gtc && !place_spec(b, o).stp ==> (place_spec(b, o).rested
            <==> trades_qty(place_spec(b, o).trades) < o.qty),
{
    let opp = opposite(b, o.side);
    lemma_match(o.side, o.price, o.user_id, opp, o.qty as int, 0, 0);
}

/// Time priority at a price: a resting order joins the back of the queue at
/// its price, behind every order already there, which keep their order.
pub proof fn law_fifo_at_price(s: Seq<LevelV>, o: Order, i: int)
    requires
        side_wf(s),
        0 <= i < s.len(),
        s[i].price == o.price,
    ensures
        exists|j: int| 0 <= j < insert_resting(s, o).len() && #[trigger] insert_resting(s, o)[j] == (LevelV {
            price: o.price,
            orders: s[i].orders.push(o),
        }),
{
    lemma_lower_bound(s, o.price);
    let k = lower_bound(s, o.price);
    if k != i {
        if k < i {
            assert(s[k].price < s[i].price);
        }
    }
    assert(insert_resting(s, o)[k] == LevelV { price: o.price, orders: s[i].orders.push(o) });
}

/// A settled book refuses every order: placing changes nothing and executes nothing.
pub proof fn law_settled_book_is_frozen(b: BookV, o: NewOrder)
    requires
        b.settled is Some,
    ensures
        place_spec(b, o).book == b,
        place_spec(b, o).trades.len() == 0,
{
}

proof fn lemma_trades_cross(taker: Side, limit: u32, user: UserId, book: Seq<LevelV>, r: int)
    ensures
        forall|i: int|
            0 <= i < match_run(taker, limit, user, book, r).trades.len() ==> crosses(
                taker,
                limit,
                (#[trigger] match_run(taker, limit, user, book, r).trades[i]).price,
            ),
    decreases r, book.len(),
{
    if r <= 0 || book.len() == 0 {
    } else {
        let b = best_index(taker, book);
        let lvl = book[b];
        if !crosses(taker, limit, lvl.price) {
        } else if lvl.orders.len() == 0 {
            lemma_trades_cross(taker, limit, user, book.remove(b), r);
            assert(match_run(taker, limit, user, book, r) == match_run(taker, limit, user, book.remove(b), r));
        } else {
            let maker = lvl.orders[0];
            if maker.user_id == user {
            } else if maker.qty == 0 {
            } else {
                let traded: u32 = if maker.qty <= r {
                    maker.qty
                } else {
                    r as u32
                };
                let nb = after_trade(book, b, traded);
                lemma_trades_cross(taker, limit, user, nb, r - traded);
                let m = match_run(taker, limit, user, book, r);
                let rest = match_run(taker, limit, user, nb, r - traded);
                let t = Trade { maker_id: maker.id, maker_user: maker.user_id, price: lvl.price, qty: traded };
                assert(m.trades == seq![t] + rest.trades);
                assert forall|i: int| 0 <= i < m.trades.len() implies crosses(taker, limit, (#[trigger] m.trades[i]).price) by {
                    if i > 0 {
                        assert(m.trades[i] == rest.trades[i - 1]);
                        assert(crosses(taker, limit, rest.trades[i - 1].price));
                    } else {
                        assert(m.trades[0] == t);
                    }
                }
            }
        }
    }
}

/// Limit prices are respected: every execution of an incoming order is at a
/// price no worse than its limit (at most the limit for a buy, at least the
/// limit for a sell), and only a GTC order ever rests.
pub proof fn law_trades_within_limit(b: BookV, o: NewOrder)
    ensures
        forall|i: int|
            0 <= i < place_spec(b, o).trades.len() ==> if o.side == Side::Buy {
                (#[trigger] place_spec(b, o).trades[i]).price <= o.price
            } else {
                place_spec(b, o).trades[i].price >= o.price
            },
        place_spec(b, o).rested ==> o.tif == Tif::Gtc,
{
    lemma_trades_cross(o.side, o.price, o.user_id, opposite(b, o.side), o.qty as int);
}

/// At most one order on the side carries the id.
pub open spec fn id_once(s: Seq<LevelV>, id: OrderId) -> bool {
    forall|i: int, k: int, i2: int, k2: int| hit(s, id, i, k) && hit(s, id, i2, k2) ==> i == i2 && k == k2
}

proof fn lemma_removed_side(s: Seq<LevelV>, id: OrderId)
    requires
        has_id(s, id),
        id_once(s, id),
    ensures
        !has_id(remove_first(s, id), id),
{
    lemma_first_hit_exists(s, id);
    let (i, k) = first_pos(s, id);
    let n = remove_first(s, id);
    if has_id(n, id) {
        let (i2, k2) = choose|i2: int, k2: int| hit(n, id, i2, k2);
        if i2 != i {
            assert(n[i2] == s[i2]);
            assert(hit(s, id, i2, k2));
        } else if k2 < k {
            assert(n[i].orders[k2] == s[i].orders[k2]);
            assert(hit(s, id, i, k2));
        } else {
            assert(n[i].orders[k2] == s[i].orders[k2 + 1]);
            assert(hit(s, id, i, k2 + 1));
        }
    }
}

/// A canceled order is gone: when at most one resting order carries the
/// id, no order with it rests after the cancel, and the cancel changes
/// nothing but the two sides and the sequence number.
pub proof fn law_cancel_removes(b: BookV, id: OrderId)
    requires
        id_once(b.bids, id),
        id_once(b.asks, id),
        !(has_id(b.bids, id) && has_id(b.asks, id)),
    ensures
        !has_id(cancel_spec(b, id).bids, id),
        !has_id(cancel_spec(b, id).asks, id),
        cancel_spec(b, id).last_trade == b.last_trade,
        cancel_spec(b, id).settled == b.settled,
{
    if has_id(b.bids, id) {
        lemma_removed_side(b.bids, id);
    } else if has_id(b.asks, id) {
        lemma_removed_side(b.asks, id);
    }
}

/// No crossed book: from a well-formed book, placing, canceling,
/// replacing and settling each leave a well-formed book, in which no bid
/// level is priced at or above an ask level. (The sequence number here is
/// a mathematical integer; the executable operations bound it only by the
/// room of a `u64`.)
pub proof fn law_no_crossed_book(b: BookV, o: NewOrder, id: OrderId, r: ReplaceOrder, yes: bool)
    requires
        book_wf(b),
    ensures
        book_wf(place_spec(b, o).book),
        not_crossed(place_spec(b, o).book),
        book_wf(cancel_spec(b, id)),
        not_crossed(cancel_spec(b, id)),
        book_wf(replace_spec(b, r).0),
        not_crossed(replace_spec(b, r).0),
        book_wf(BookV { settled: Some(yes), seq: b.seq + 1, ..b }),
{
    lemma_place_wf(b, o);
    lemma_cancel_wf(b, id);
    lemma_replace_wf(b, r);
}

/// Settling freezes a book: the outcome is recorded and the sequence number
/// advances, the resting orders and last trade stay, and afterwards every
/// placement changes nothing and executes nothing, and every replace
/// succeeds without change.
pub proof fn law_settle_freezes(b: BookV, yes: bool, o: NewOrder, r: ReplaceOrder)
    ensures
        ({
            let sb = BookV { settled: Some(yes), seq: b.seq + 1, ..b };
            &&& sb.bids == b.bids && sb.asks == b.asks && sb.last_trade == b.last_trade
            &&& place_spec(sb, o).book == sb
            &&& place_spec(sb, o).trades.len() == 0
            &&& !place_spec(sb, o).rested
            &&& replace_spec(sb, r) == (sb, Ok::<(), BookError>(()))
        }),
{
}

proof fn lemma_drop_empty_insert(s: Seq<LevelV>, k: int, x: LevelV)
    requires
        0 <= k <= s.len(),
        x.orders.len() == 0,
    ensures
        drop_empty(s.insert(k, x)) == drop_empty(s),
    decreases s.len(),
{
    let t = s.insert(k, x);
    if k == s.len() {
        assert(t.drop_last() =~= s);
    } else {
        assert(t.drop_last() =~= s.drop_last().insert(k, x));
        assert(t.last() == s.last());
        lemma_drop_empty_insert(s.drop_last(), k, x);
    }
}

/// Resting an order whose id is new on the side and then removing its id
/// leaves the side's non-empty levels as they were.
proof fn lemma_rest_then_remove(s: Seq<LevelV>, o: Order)
    requires
        side_sorted(s),
        !has_id(s, o.id),
    ensures
        has_id(insert_resting(s, o), o.id),
        drop_empty(remove_first(insert_resting(s, o), o.id)) == drop_empty(s),
{
    lemma_lower_bound(s, o.price);
    let k = lower_bound(s, o.price);
    let t = insert_resting(s, o);
    let id = o.id;
    if k < s.len() && s[k].price == o.price {
        let q = s[k].orders.len() as int;
        assert(t[k].orders[q] == o);
        assert(hit(t, id, k, q));
        assert(first_hit(t, id, k, q)) by {
            assert forall|i2: int, k2: int| 0 <= i2 < k && 0 <= k2 < t[i2].orders.len() implies t[i2].orders[k2].id != id by {
                assert(t[i2] == s[i2]);
                assert(!hit(s, id, i2, k2));
            }
            assert forall|k2: int| 0 <= k2 < q implies t[k].orders[k2].id != id by {
                assert(t[k].orders[k2] == s[k].orders[k2]);
                assert(!hit(s, id, k, k2));
            }
        }
        lemma_first_hit_exists(t, id);
        lemma_first_hit_unique(t, id, first_pos(t, id).0, first_pos(t, id).1, k, q);
        assert(t[k].orders.remove(q) =~= s[k].orders);
        assert(remove_first(t, id) =~= s);
    } else {
        assert(t[k].orders[0] == o);
        assert(hit(t, id, k, 0));
        assert(first_hit(t, id, k, 0)) by {
            assert forall|i2: int, k2: int| 0 <= i2 < k && 0 <= k2 < t[i2].orders.len() implies t[i2].orders[k2].id != id by {
                assert(t[i2] == s[i2]);
                assert(!hit(s, id, i2, k2));
            }
        }
        lemma_first_hit_exists(t, id);
        lemma_first_hit_unique(t, id, first_pos(t, id).0, first_pos(t, id).1, k, 0);
        let x = LevelV { price: o.price, orders: seq![] };
        assert(t[k].orders.remove(0) =~= x.orders);
        assert(t[k].price == o.price);
        assert(t.update(k, x) =~= s.insert(k, x));
        assert(remove_first(t, id) =~= s.insert(k, x));
        lemma_drop_empty_insert(s, k, x);
    }
}

/// Cancel undoes a resting order: a GTC order on an open book whose id is
/// new and which crosses nothing rests without executing; canceling it
/// then leaves every non-empty level of both sides as it was before, with
/// the sequence number advanced twice and the last trade unchanged.
pub proof fn law_rest_then_cancel(b: BookV, o: NewOrder)
    requires
        book_wf(b),
        b.settled is None,
        o.tif == Tif::Gtc,
        o.qty > 0,
        !has_id(b.bids, o.id),
        !has_id(b.asks, o.id),
        opposite(b, o.side).len() == 0 || !crosses(
            o.side,
            o.price,
            opposite(b, o.side)[best_index(o.side, opposite(b, o.side))].price,
        ),
    ensures
        ({
            let p = place_spec(b, o);
            let c = cancel_spec(p.book, o.id);
            &&& p.trades.len() == 0
            &&& p.rested
            &&& drop_empty(c.bids) == drop_empty(b.bids)
            &&& drop_empty(c.asks) == drop_empty(b.asks)
            &&& c.seq == b.seq + 2
            &&& c.last_trade == b.last_trade
        }),
{
    let opp = opposite(b, o.side);
    let m = match_run(o.side, o.price, o.user_id, opp, o.qty as int);
    assert(m.book == opp && m.remaining == o.qty && m.trades.len() == 0);
    let r = Order { id: o.id, user_id: o.user_id, price: o.price, qty: m.remaining as u32, ts: order_ts(o.id) };
    lemma_rest_then_remove(own_side(b, o.side), r);
}

/// Every level of `after_trade` has the price of a level of the book.
proof fn lemma_after_trade_prices(book: Seq<LevelV>, b: int, traded: u32)
    requires
        0 <= b < book.len(),
        book[b].orders.len() > 0,
    ensures
        forall|j: int|
            0 <= j < after_trade(book, b, traded).len() ==> exists|k: int|
                0 <= k < book.len() && book[k].price == #[trigger] after_trade(book, b, traded)[j].price,
{
    let a = after_trade(book, b, traded);
    assert forall|j: int| 0 <= j < a.len() implies exists|k: int| 0 <= k < book.len() && book[k].price == #[trigger] a[j].price by {
        if a.len() < book.len() {
            if j < b {
                assert(a[j] == book[j]);
            } else {
                assert(a[j] == book[j + 1]);
            }
        } else {
            assert(a[j].price == book[j].price);
        }
    }
}

/// Executions happen at resting prices: every execution of a match run is
/// priced at the price of a level of the side it ran against.
proof fn lemma_trades_at_book_prices(taker: Side, limit: u32, user: UserId, book: Seq<LevelV>, r: int)
    ensures
        forall|i: int|
            0 <= i < match_run(taker, limit, user, book, r).trades.len() ==> exists|k: int|
                0 <= k < book.len() && book[k].price == (#[trigger] match_run(taker, limit, user, book, r).trades[i]).price,
    decreases r, book.len(),
{
    let m = match_run(taker, limit, user, book, r);
    if r <= 0 || book.len() == 0 {
    } else {
        let b = best_index(taker, book);
        let lvl = book[b];
        if !crosses(taker, limit, lvl.price) {
        } else if lvl.orders.len() == 0 {
            let nb = book.remove(b);
            lemma_trades_at_book_prices(taker, limit, user, nb, r);
            assert(m == match_run(taker, limit, user, nb, r));
            assert forall|i: int| 0 <= i < m.trades.len() implies exists|k: int|
                0 <= k < book.len() && book[k].price == (#[trigger] m.trades[i]).price by {
                let k = choose|k: int| 0 <= k < nb.len() && nb[k].price == m.trades[i].price;
                if k < b {
                    assert(nb[k] == book[k]);
                } else {
                    assert(nb[k] == book[k + 1]);
                }
            }
        } else {
            let maker = lvl.orders[0];
            if maker.user_id == user {
            } else if maker.qty == 0 {
            } else {
                let traded: u32 = if maker.qty <= r {
                    maker.qty
                } else {
                    r as u32
                };
                let nb = after_trade(book, b, traded);
                lemma_trades_at_book_prices(taker, limit, user, nb, r - traded);
                lemma_after_trade_prices(book, b, traded);
                let rest = match_run(taker, limit, user, nb, r - traded);
                let t = Trade { maker_id: maker.id, maker_user: maker.user_id, price: lvl.price, qty: traded };
                assert(m.trades == seq![t] + rest.trades);
                assert forall|i: int| 0 <= i < m.trades.len() implies exists|k: int|
                    0 <= k < book.len() && book[k].price == (#[trigger] m.trades[i]).price by {
                    if i == 0 {
                        assert(m.trades[0] == t);
                        assert(book[b].price == t.price);
                    } else {
                        assert(m.trades[i] == rest.trades[i - 1]);
                        let k = choose|k: int| 0 <= k < nb.len() && nb[k].price == rest.trades[i - 1].price;
                        assert(exists|k2: int| 0 <= k2 < book.len() && book[k2].price == nb[k].price);
                    }
                }
            }
        }
    }
}

/// Executions of a placement are priced at resting prices: each is at the
/// price of a level that rested on the opposite side before the order came
/// in (never at the incoming order's own limit unless a level rested there).
pub proof fn law_trades_at_resting_prices(b: BookV, o: NewOrder)
    ensures
        forall|i: int|
            0 <= i < place_spec(b, o).trades.len() ==> exists|k: int|
                0 <= k < opposite(b, o.side).len() && opposite(b, o.side)[k].price == (#[trigger] place_spec(
                    b,
                    o,
                ).trades[i]).price,
{
    lemma_trades_at_book_prices(o.side, o.price, o.user_id, opposite(b, o.side), o.qty as int);
}

/// Every level kept by `drop_empty` is a level of the side.
proof fn lemma_drop_empty_from(s: Seq<LevelV>)
    ensures
        forall|j: int| 0 <= j < drop_empty(s).len() ==> exists|k: int| 0 <= k < s.len() && s[k] == #[trigger] drop_empty(s)[j],
    decreases s.len(),
{
    if s.len() > 0 {
        let d = s.drop_last();
        lemma_drop_empty_from(d);
        let e = drop_empty(s);
        assert forall|j: int| 0 <= j < e.len() implies exists|k: int| 0 <= k < s.len() && s[k] == #[trigger] e[j] by {
            if j < drop_empty(d).len() {
                assert(e[j] == drop_empty(d)[j]);
                let k = choose|k: int| 0 <= k < d.len() && d[k] == drop_empty(d)[j];
                assert(s[k] == d[k]);
            } else {
                assert(e[j] == s.last());
                assert(s[s.len() - 1] == s.last());
            }
        }
    }
}

proof fn lemma_drop_empty_no_id(s: Seq<LevelV>, id: OrderId)
    requires
        !has_id(s, id),
    ensures
        !has_id(drop_empty(s), id),
{
    lemma_drop_empty_from(s);
    let e = drop_empty(s);
    if has_id(e, id) {
        let (j, q) = choose|j: int, q: int| hit(e, id, j, q);
        let k = choose|k: int| 0 <= k < s.len() && s[k] == e[j];
        assert(hit(s, id, k, q));
    }
}

/// Resting an order whose id is new on the side puts it on the side, and
/// only at a level priced at its own price.
proof fn lemma_rest_only_at_price(s: Seq<LevelV>, o: Order)
    requires
        side_sorted(s),
        !has_id(s, o.id),
    ensures
        has_id(insert_resting(s, o), o.id),
        forall|i: int, q: int| hit(insert_resting(s, o), o.id, i, q) ==> insert_resting(s, o)[i].price == o.price,
{
    lemma_lower_bound(s, o.price);
    let k = lower_bound(s, o.price);
    let t = insert_resting(s, o);
    let id = o.id;
    if k < s.len() && s[k].price == o.price {
        let n = s[k].orders.len() as int;
        assert(t[k].orders[n] == o);
        assert(hit(t, id, k, n));
        assert forall|i: int, q: int| hit(t, id, i, q) implies t[i].price == o.price by {
            if i != k {
                assert(t[i] == s[i]);
                assert(hit(s, id, i, q));
            } else if q < n {
                assert(t[k].orders[q] == s[k].orders[q]);
                assert(hit(s, id, k, q));
            }
        }
    } else {
        assert(t[k].orders[0] == o);
        assert(hit(t, id, k, 0));
        assert forall|i: int, q: int| hit(t, id, i, q) implies t[i].price == o.price by {
            if i < k {
                assert(t[i] == s[i]);
                assert(hit(s, id, i, q));
            } else if i > k {
                assert(t[i] == s[i - 1]);
                assert(hit(s, id, i - 1, q));
            }
        }
    }
}

/// The side the order with this id rests on (bids searched first).
pub open spec fn side_of_id(b: BookV, id: OrderId) -> Side {
    if has_id(b.bids, id) {
        Side::Buy
    } else {
        Side::Sell
    }
}

/// Replace moves the order to its new price: replacing an order that
/// rests once on an open book with a new price `p` (and a size that is not
/// zero) succeeds, and when nothing on the other side crosses `p`, the
/// order then rests on its side at a level priced `p`, nowhere else.
pub proof fn law_replace_moves_to_new_price(b: BookV, r: ReplaceOrder, p: u32)
    requires
        book_wf(b),
        b.settled is None,
        r.new_price == Some(p),
        r.new_qty != Some(0u32),
        has_id(b.bids, r.order_id) || has_id(b.asks, r.order_id),
        id_once(b.bids, r.order_id),
        id_once(b.asks, r.order_id),
        !(has_id(b.bids, r.order_id) && has_id(b.asks, r.order_id)),
        forall|j: int|
            0 <= j < opposite(b, side_of_id(b, r.order_id)).len() ==> !crosses(
                side_of_id(b, r.order_id),
                p,
                (#[trigger] opposite(b, side_of_id(b, r.order_id))[j]).price,
            ),
    ensures
        ({
            let side = side_of_id(b, r.order_id);
            let nb = replace_spec(b, r).0;
            &&& replace_spec(b, r).1 == Ok::<(), BookError>(())
            &&& has_id(own_side(nb, side), r.order_id)
            &&& forall|i: int, q: int| hit(own_side(nb, side), r.order_id, i, q) ==> own_side(nb, side)[i].price == p
            &&& !has_id(opposite(nb, side), r.order_id)
        }),
{
    let id = r.order_id;
    let side = side_of_id(b, id);
    lemma_replace_cleared(b, id);
    let b1 = replace_cleared(b, id);
    lemma_remove_first(own_side(b, side), id);
    lemma_removed_side(own_side(b, side), id);
    let cleared = remove_first(own_side(b, side), id);
    assert(own_side(b1, side) == drop_empty(cleared));
    assert(opposite(b1, side) == drop_empty(opposite(b, side)));
    lemma_drop_empty_no_id(cleared, id);
    lemma_drop_empty_no_id(opposite(b, side), id);
    let old = found_order(own_side(b, side), id);
    let o = reentry(r, old, side);
    assert(o.price == p && o.side == side && o.tif == Tif::Gtc && o.qty > 0);
    let opp = opposite(b1, side);
    lemma_drop_empty_from(opposite(b, side));
    if opp.len() > 0 {
        let bi = best_index(side, opp);
        let k = choose|k: int| 0 <= k < opposite(b, side).len() && opposite(b, side)[k] == opp[bi];
        assert(!crosses(side, p, opposite(b, side)[k].price));
    }
    let m = match_run(side, p, o.user_id, opp, o.qty as int);
    assert(m.book == opp && m.remaining == o.qty && m.trades.len() == 0);
    let ord = Order { id: o.id, user_id: o.user_id, price: o.price, qty: m.remaining as u32, ts: order_ts(o.id) };
    lemma_rest_only_at_price(own_side(b1, side), ord);
}

} // verus!
