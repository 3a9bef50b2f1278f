//! The order book of one market: price–time priority matching with
//! self-trade prevention and GTC / IOC / FOK time in force.
use std::collections::VecDeque;
use vstd::prelude::*;
use crate::book_spec::{
    BookV, LevelV, PlaceV, Trade, after_trade, best_index, book_wf, crosses, crossing_makers,
    fok_ok, fok_walk, insert_resting, lower_bound, lemma_after_trade, lemma_lower_bound, lemma_insert_resting, lemma_place_wf, lemma_fok_fills, lemma_match,
    match_run, not_crossed, cancel_spec, replace_spec, replace_cleared, has_id, first_hit, first_pos,
    found_order, remove_first, drop_empty, reentry, lemma_first_hit_exists, lemma_first_hit_unique,
    lemma_cancel_wf, level_qty, l2_level, l2_bids, l2_asks, min_int, level_sizes_fit, lemma_level_qty_prefix,
    live_of, user_orders, tagged, lemma_replace_wf, lemma_replace_cleared, lemma_remove_first, opposite, own_side, place_spec, prices_in, side_orders_ok, side_sorted,
    side_wf, trades_qty, with_sides,
};
use crate::types::{BookError, Fill, L2Book, L2Level, Market, NewOrder, Order, ReplaceOrder, OrderId, Side, Tif, UserId, order_ts, ts_from_id};

verus! {

/// One price level: the FIFO queue of orders resting at `price`.
#[derive(Debug)]
pub struct Level {
    pub price: u32,
    pub orders: VecDeque<Order>,
}

impl View for Level {
    type V = LevelV;

    open spec fn view(&self) -> LevelV {
        LevelV { price: self.price, orders: self.orders@ }
    }
}

impl Clone for Level {
    fn clone(&self) -> (res: Self)
        ensures
            res@ == self@,
    {
        let mut orders: VecDeque<Order> = VecDeque::new();
        let mut j: usize = 0;
        while j < self.orders.len()
            invariant
                j <= self.orders@.len(),
                orders@ == self.orders@.subrange(0, j as int),
            decreases self.orders@.len() - j,
        {
            orders.push_back(self.orders[j]);
            j = j + 1;
            assert(orders@ =~= self.orders@.subrange(0, j as int));
        }
        assert(orders@ =~= self.orders@);
        Level { price: self.price, orders }
    }
}

/// The value of a side: its levels as values.
pub open spec fn levels_view(s: Seq<Level>) -> Seq<LevelV> {
    s.map_values(|l: Level| l@)
}

/// The state of one market's book. Both sides keep their levels in
/// ascending price order: the best ask is the first ask level and the best
/// bid the last bid level.
#[derive(Debug)]
pub struct BookState {
    pub market: Market,
    pub bids: Vec<Level>,
    pub asks: Vec<Level>,
    pub last_trade: Option<u32>,
    pub seq: u64,
    pub settled: Option<bool>,
}

impl View for BookState {
    type V = BookV;

    open spec fn view(&self) -> BookV {
        BookV {
            bids: levels_view(self.bids@),
            asks: levels_view(self.asks@),
            last_trade: self.last_trade,
            seq: self.seq as int,
            settled: self.settled,
        }
    }
}

/// `seq` stays far enough from `u64::MAX` for any single operation.
pub open spec fn seq_room(seq: u64) -> bool {
    seq < 0xffff_fffe_0000_0000u64
}

impl BookState {
    /// Sorted sides, positive resting sizes at their level's price, and no
    /// bid level at or above an ask level.
    pub open spec fn wf(&self) -> bool {
        book_wf(self@)
    }
}

pub struct OrderBook {
    pub state: BookState,
}

fn clone_levels(v: &Vec<Level>) -> (res: Vec<Level>)
    ensures
        levels_view(res@) == levels_view(v@),
{
    let mut out: Vec<Level> = Vec::new();
    let mut i: usize = 0;
    while i < v.len()
        invariant
            i <= v@.len(),
            out@.len() == i,
            levels_view(out@) == levels_view(v@.subrange(0, i as int)),
        decreases v@.len() - i,
    {
        let l = v[i].clone();
        let ghost before = out@;
        out.push(l);
        assert forall|j: int| 0 <= j < i + 1 implies #[trigger] levels_view(out@)[j] == levels_view(v@.subrange(0, i + 1))[j] by {
            if j < i {
                assert(before.len() == i);
                assert(out@[j] == before[j]);
                assert(levels_view(before)[j] == levels_view(v@.subrange(0, i as int))[j]);
            }
        }
        assert(levels_view(out@) =~= levels_view(v@.subrange(0, i + 1)));
        i = i + 1;
    }
    assert(v@.subrange(0, v@.len() as int) =~= v@);
    out
}

impl Clone for BookState {
    fn clone(&self) -> (res: Self)
        ensures
            res@ == self@,
            res.market@ == self.market@,
    {
        BookState {
            market: self.market.clone(),
            bids: clone_levels(&self.bids),
            asks: clone_levels(&self.asks),
            last_trade: self.last_trade,
            seq: self.seq,
            settled: self.settled,
        }
    }
}

impl Clone for OrderBook {
    fn clone(&self) -> (res: Self)
        ensures
            res.state@ == self.state@,
            res.state.market@ == self.state.market@,
    {
        OrderBook { state: self.state.clone() }
    }
}

/// A result with no executions.
pub fn empty_result() -> (res: crate::types::PlaceResult)
    ensures
        res.fills@.len() == 0,
        !res.self_trade_prevented,
        !res.rested,
{
    crate::types::PlaceResult { fills: Vec::new(), self_trade_prevented: false, rested: false }
}

/// The fill reported for an execution of `o` against a resting order.
pub open spec fn fill_of(o: NewOrder, t: Trade) -> Fill {
    Fill {
        market_id: o.market_id,
        taker_order_id: o.id,
        maker_order_id: t.maker_id,
        price: t.price,
        qty: t.qty,
        buyer: if o.side == Side::Buy { o.user_id } else { t.maker_user },
        seller: if o.side == Side::Buy { t.maker_user } else { o.user_id },
    }
}

pub open spec fn fills_of(o: NewOrder, ts: Seq<Trade>) -> Seq<Fill> {
    ts.map_values(|t: Trade| fill_of(o, t))
}

/// Matches against one side; the side, executions, remainder and the
/// self-trade flag are those of `match_run`.
fn match_side(book: &mut Vec<Level>, taker: Side, limit: u32, user: UserId, qty: u32) -> (res: (
    Vec<Trade>,
    u32,
    bool,
))
    requires
        side_wf(levels_view(old(book)@)),
    ensures
        ({
            let m = match_run(taker, limit, user, levels_view(old(book)@), qty as int);
            &&& levels_view(final(book)@) == m.book
            &&& res.0@ == m.trades
            &&& res.1 as int == m.remaining
            &&& res.2 == m.stp
        }),
{
    let ghost book0 = levels_view(book@);
    let mut trades: Vec<Trade> = Vec::new();
    let mut remaining: u32 = qty;
    let mut stp = false;
    loop
        invariant_except_break
            !stp,
            ({
                let m0 = match_run(taker, limit, user, book0, qty as int);
                let mc = match_run(taker, limit, user, levels_view(book@), remaining as int);
                &&& m0.book == mc.book
                &&& m0.remaining == mc.remaining
                &&& m0.stp == mc.stp
                &&& m0.trades == trades@ + mc.trades
            }),
        invariant
            side_wf(levels_view(book@)),
            book0 == levels_view(old(book)@),
        ensures
            ({
                let m0 = match_run(taker, limit, user, book0, qty as int);
                &&& m0.book == levels_view(book@)
                &&& m0.remaining == remaining as int
                &&& m0.stp == stp
                &&& m0.trades == trades@
            }),
        decreases remaining, book@.len(),
    {
        let ghost cur = levels_view(book@);
        if remaining == 0 {
            assert(trades@ + Seq::<Trade>::empty() =~= trades@);
            break;
        }
        let n = book.len();
        if n == 0 {
            assert(trades@ + Seq::<Trade>::empty() =~= trades@);
            break;
        }
        let b: usize = if taker == Side::Buy { 0 } else { n - 1 };
        assert(b as int == best_index(taker, cur));
        let px = book[b].price;
        let cross = if taker == Side::Buy { px <= limit } else { px >= limit };
        if !cross {
            assert(trades@ + Seq::<Trade>::empty() =~= trades@);
            break;
        }
        if book[b].orders.len() == 0 {
            let _ = book.remove(b);
            assert(levels_view(book@) =~= cur.remove(b as int));
            assert(side_wf(levels_view(book@))) by {
                let bk = levels_view(book@);
                assert forall|i: int, k: int| 0 <= i < bk.len() && 0 <= k < bk[i].orders.len() implies
                    #[trigger] bk[i].orders[k].qty > 0 && bk[i].orders[k].price == bk[i].price by {
                    if i < b {
                        assert(bk[i] == cur[i]);
                    } else {
                        assert(bk[i] == cur[i + 1]);
                    }
                }
            }
            continue;
        }
        let maker = book[b].orders[0];
        assert(maker == cur[b as int].orders[0]);
        if maker.user_id == user {
            remaining = 0;
            stp = true;
            assert(trades@ + Seq::<Trade>::empty() =~= trades@);
            break;
        }
        assert(maker.qty > 0);
        let traded: u32 = if maker.qty <= remaining { maker.qty } else { remaining };
        proof {
            lemma_after_trade(cur, b as int, traded, 0, 0);
        }
        let mut lvl = book.remove(b);
        let _ = lvl.orders.pop_front();
        if maker.qty > traded {
            lvl.orders.push_front(
                Order {
                    id: maker.id,
                    user_id: maker.user_id,
                    price: maker.price,
                    qty: maker.qty - traded,
                    ts: maker.ts,
                },
            );
        }
        if lvl.orders.len() > 0 {
            book.insert(b, lvl);
        }
        proof {
            let lvl0 = cur[b as int];
            if maker.qty == traded {
                assert(lvl.orders@ =~= lvl0.orders.drop_first());
            } else {
                assert(lvl.orders@ =~= lvl0.orders.update(
                    0,
                    Order {
                        id: maker.id,
                        user_id: maker.user_id,
                        price: maker.price,
                        qty: (maker.qty - traded) as u32,
                        ts: maker.ts,
                    },
                ));
            }
            assert(levels_view(book@) =~= after_trade(cur, b as int, traded));
        }
        let t = Trade { maker_id: maker.id, maker_user: maker.user_id, price: px, qty: traded };
        let ghost old_trades = trades@;
        trades.push(t);
        remaining = remaining - traded;
        assert(old_trades + (seq![t] + match_run(taker, limit, user, levels_view(book@), remaining as int).trades)
            =~= trades@ + match_run(taker, limit, user, levels_view(book@), remaining as int).trades);
    }
    (trades, remaining, stp)
}

/// Appends `ord` to the queue at its price, creating the level in order if needed.
fn insert_order(side: &mut Vec<Level>, ord: Order)
    requires
        side_wf(levels_view(old(side)@)),
    ensures
        levels_view(final(side)@) == insert_resting(levels_view(old(side)@), ord),
{
    let ghost s = levels_view(side@);
    proof {
        lemma_lower_bound(s, ord.price);
    }
    let n = side.len();
    let mut k: usize = 0;
    while k < n && side[k].price < ord.price
        invariant
            k <= n,
            n == side@.len(),
            s == levels_view(side@),
            forall|j: int| 0 <= j < k ==> s[j].price < ord.price,
        decreases n - k,
    {
        k = k + 1;
    }
    assert(k as int == lower_bound(s, ord.price)) by {
        let lb = lower_bound(s, ord.price);
        if (k as int) < lb {
            assert(s[k as int].price < ord.price);
        } else if (k as int) > lb {
            assert(s[lb].price < ord.price);
        }
    }
    if k < n && side[k].price == ord.price {
        let mut lvl = side.remove(k);
        lvl.orders.push_back(ord);
        side.insert(k, lvl);
        assert(levels_view(side@) =~= insert_resting(s, ord));
    } else {
        let mut q: VecDeque<Order> = VecDeque::new();
        q.push_back(ord);
        side.insert(k, Level { price: ord.price, orders: q });
        assert(levels_view(side@) =~= insert_resting(s, ord));
    }
}



/// Takes the first order with id `id` off a side (levels in ascending price,
/// queues front first); its level stays even when emptied.
fn take_first(side: &mut Vec<Level>, id: OrderId) -> (found: Option<Order>)
    ensures
        found is Some <==> has_id(levels_view(old(side)@), id),
        found matches Some(o) ==> levels_view(final(side)@) == remove_first(levels_view(old(side)@), id) && o
            == found_order(levels_view(old(side)@), id),
        found is None ==> final(side)@ == old(side)@,
{
    let ghost s = levels_view(side@);
    let n = side.len();
    let mut i: usize = 0;
    while i < n
        invariant
            i <= n,
            n == side@.len(),
            s == levels_view(side@),
            side@ == old(side)@,
            s == levels_view(old(side)@),
            forall|i2: int, k2: int| 0 <= i2 < i && 0 <= k2 < s[i2].orders.len() ==> s[i2].orders[k2].id != id,
        decreases n - i,
    {
        let m = side[i].orders.len();
        let mut k: usize = 0;
        while k < m
            invariant
                i < n,
                k <= m,
                n == side@.len(),
                m == s[i as int].orders.len(),
                s == levels_view(side@),
                side@ == old(side)@,
                s == levels_view(old(side)@),
                forall|i2: int, k2: int| 0 <= i2 < i && 0 <= k2 < s[i2].orders.len() ==> s[i2].orders[k2].id != id,
                forall|k2: int| 0 <= k2 < k ==> s[i as int].orders[k2].id != id,
            decreases m - k,
        {
            if side[i].orders[k].id == id {
                proof {
                    assert(first_hit(s, id, i as int, k as int));
                    lemma_first_hit_exists(s, id);
                    let (fi, fk) = first_pos(s, id);
                    lemma_first_hit_unique(s, id, i as int, k as int, fi, fk);
                }
                let mut lvl = side.remove(i);
                let o = lvl.orders.remove(k);
                side.insert(i, lvl);
                assert(levels_view(side@) =~= remove_first(s, id));
                return o;
            }
            k = k + 1;
        }
        i = i + 1;
    }
    None
}

/// Drops every empty level of a side, keeping the others in order.
fn drop_empty_levels(side: &mut Vec<Level>)
    ensures
        levels_view(final(side)@) == drop_empty(levels_view(old(side)@)),
{
    let ghost s = levels_view(side@);
    let mut out: Vec<Level> = Vec::new();
    let n = side.len();
    let mut i: usize = 0;
    assert(s.subrange(0, 0) =~= Seq::<LevelV>::empty());
    while i < n
        invariant
            i <= n,
            n == side@.len(),
            s == levels_view(side@),
            levels_view(out@) == drop_empty(s.subrange(0, i as int)),
        decreases n - i,
    {
        assert(s.subrange(0, i + 1).drop_last() =~= s.subrange(0, i as int));
        if side[i].orders.len() > 0 {
            let l = side[i].clone();
            out.push(l);
            assert(levels_view(out@) =~= drop_empty(s.subrange(0, i + 1)));
        } else {
            assert(levels_view(out@) =~= drop_empty(s.subrange(0, i + 1)));
        }
        i = i + 1;
    }
    assert(s.subrange(0, n as int) =~= s);
    *side = out;
}


/// Total size resting in a queue.
fn queue_qty(q: &VecDeque<Order>) -> (total: u64)
    requires
        level_qty(q@) <= u64::MAX,
    ensures
        total == level_qty(q@),
{
    let mut total: u64 = 0;
    let mut j: usize = 0;
    assert(q@.subrange(0, 0) =~= Seq::<Order>::empty());
    while j < q.len()
        invariant
            j <= q@.len(),
            total == level_qty(q@.subrange(0, j as int)),
            level_qty(q@) <= u64::MAX,
        decreases q@.len() - j,
    {
        assert(q@.subrange(0, j + 1).drop_last() =~= q@.subrange(0, j as int));
        proof {
            lemma_level_qty_prefix(q@, j + 1);
        }
        total = total + q[j].qty as u64;
        j = j + 1;
    }
    assert(q@.subrange(0, q@.len() as int) =~= q@);
    total
}

/// Appends the orders of `user` with positive size from one side, tagged with `side`.
fn collect_user_orders(levels: &Vec<Level>, user: UserId, side: Side, out: &mut Vec<(Side, Order)>)
    ensures
        final(out)@ == old(out)@ + tagged(side, user_orders(levels_view(levels@), user)),
{
    let ghost s = levels_view(levels@);
    let ghost base = out@;
    let n = levels.len();
    let mut i: usize = 0;
    assert(s.subrange(0, 0) =~= Seq::<LevelV>::empty());
    assert(base + tagged(side, Seq::<Order>::empty()) =~= base);
    while i < n
        invariant
            i <= n,
            n == levels@.len(),
            s == levels_view(levels@),
            out@ == base + tagged(side, user_orders(s.subrange(0, i as int), user)),
        decreases n - i,
    {
        let ghost pre = user_orders(s.subrange(0, i as int), user);
        let q = &levels[i].orders;
        let m = q.len();
        let mut j: usize = 0;
        assert(q@.subrange(0, 0) =~= Seq::<Order>::empty());
        assert(pre + live_of(q@.subrange(0, 0), user) =~= pre);
        while j < m
            invariant
                j <= m,
                m == q@.len(),
                out@ == base + tagged(side, pre + live_of(q@.subrange(0, j as int), user)),
            decreases m - j,
        {
            let o = q[j];
            assert(q@.subrange(0, j + 1).drop_last() =~= q@.subrange(0, j as int));
            if o.user_id == user && o.qty > 0 {
                out.push((side, o));
            }
            j = j + 1;
            assert(out@ =~= base + tagged(side, pre + live_of(q@.subrange(0, j as int), user)));
        }
        assert(q@.subrange(0, m as int) =~= q@);
        assert(s.subrange(0, i + 1).drop_last() =~= s.subrange(0, i as int));
        assert(s[i as int].orders == q@);
        i = i + 1;
    }
    assert(s.subrange(0, n as int) =~= s);
}

/// The part of a side an incoming order sees after passing `i` levels from the best.
pub open spec fn unseen(taker: Side, s: Seq<LevelV>, i: int) -> Seq<LevelV> {
    if taker == Side::Buy {
        s.subrange(i, s.len() as int)
    } else {
        s.subrange(0, s.len() - i)
    }
}

impl OrderBook {
    pub fn new(market: Market) -> (ob: Self)
        ensures
            ob.state.market@ == market@,
            ob.state.bids@.len() == 0,
            ob.state.asks@.len() == 0,
            ob.state.last_trade is None,
            ob.state.seq == 0,
            ob.state.settled is None,
            ob.state.wf(),
    {
        let ob = OrderBook {
            state: BookState {
                market,
                bids: Vec::new(),
                asks: Vec::new(),
                last_trade: None,
                seq: 0,
                settled: None,
            },
        };
        assert(ob.state@.bids =~= Seq::<LevelV>::empty());
        assert(ob.state@.asks =~= Seq::<LevelV>::empty());
        ob
    }

    /// Whether a fill-or-kill order could execute its full size now: the
    /// crossing resting orders, taken in priority order, cover the size
    /// before any order of the same user is reached.
    pub fn can_fok_fill(&self, o: &NewOrder) -> (res: bool)
        requires
            self.state.wf(),
        ensures
            res == fok_ok(self.state@, *o),
    {
        let mut need: u32 = o.qty;
        if need == 0 {
            return true;
        }
        let book: &Vec<Level> = if o.side == Side::Buy { &self.state.asks } else { &self.state.bids };
        let ghost lv = levels_view(book@);
        assert(lv == opposite(self.state@, o.side));
        let n = book.len();
        let mut i: usize = 0;
        assert(unseen(o.side, lv, 0) =~= lv);
        while i < n
            invariant
                i <= n,
                n == book@.len(),
                lv == levels_view(book@),
                lv == opposite(self.state@, o.side),
                need > 0,
                fok_ok(self.state@, *o) == fok_walk(
                    crossing_makers(o.side, o.price, unseen(o.side, lv, i as int)),
                    need as int,
                    o.user_id,
                ),
            decreases n - i,
        {
            let b: usize = if o.side == Side::Buy { i } else { n - 1 - i };
            let ghost sub = unseen(o.side, lv, i as int);
            assert(sub.len() == n - i);
            assert(best_index(o.side, sub) == if o.side == Side::Buy { 0int } else { n - 1 - i });
            assert(sub[best_index(o.side, sub)] == lv[b as int]);
            let px = book[b].price;
            let cross = if o.side == Side::Buy { px <= o.price } else { px >= o.price };
            if !cross {
                return false;
            }
            let ghost next = unseen(o.side, lv, i + 1);
            assert(sub.remove(best_index(o.side, sub)) =~= next);
            assert(crossing_makers(o.side, o.price, sub) == lv[b as int].orders + crossing_makers(
                o.side,
                o.price,
                next,
            ));
            let q = &book[b].orders;
            let m = q.len();
            let mut j: usize = 0;
            assert(q@.subrange(0, m as int) =~= q@);
            while j < m
                invariant
                    j <= m,
                    m == q@.len(),
                    b < lv.len(),
                    q@ == lv[b as int].orders,
                    need > 0,
                    fok_ok(self.state@, *o) == fok_walk(
                        q@.subrange(j as int, m as int) + crossing_makers(o.side, o.price, next),
                        need as int,
                        o.user_id,
                    ),
                decreases m - j,
            {
                let maker = q[j];
                let ghost w = q@.subrange(j as int, m as int) + crossing_makers(o.side, o.price, next);
                assert(w[0] == maker);
                if maker.user_id == o.user_id {
                    return false;
                }
                let take: u32 = if need <= maker.qty { need } else { maker.qty };
                let ghost need0 = need as int;
                assert(fok_walk(w, need0, o.user_id) == fok_walk(w.drop_first(), need0 - maker.qty, o.user_id));
                need = need - take;
                assert(w.drop_first() =~= q@.subrange(j + 1, m as int) + crossing_makers(
                    o.side,
                    o.price,
                    next,
                ));
                if need == 0 {
                    assert(need0 - maker.qty <= 0);
                    return true;
                }
                j = j + 1;
            }
            assert(q@.subrange(m as int, m as int) + crossing_makers(o.side, o.price, next) =~= crossing_makers(
                o.side,
                o.price,
                next,
            ));
            i = i + 1;
        }
        assert(unseen(o.side, lv, n as int).len() == 0);
        false
    }

    /// Price–time priority matching with self-trade prevention. A settled
    /// book takes no orders; a fill-or-kill order that cannot fill in full
    /// changes nothing; otherwise the order trades against the best resting
    /// orders while it crosses, stops (and is canceled) when it reaches its
    /// own user's order, and a GTC remainder rests at its limit behind the
    /// orders already there. Never fails.
    pub fn place(&mut self, o: NewOrder) -> (res: Result<crate::types::PlaceResult, BookError>)
        requires
            old(self).state.wf(),
            old(self).state.seq < 0xffff_ffff_0000_0000u64,
        ensures
            final(self).state.wf(),
            final(self).state.market == old(self).state.market,
            ({
                let p = place_spec(old(self).state@, o);
                &&& final(self).state@ == p.book
                &&& res matches Ok(r) && r.fills@ == fills_of(o, p.trades) && r.self_trade_prevented == p.stp
                    && r.rested == p.rested
            }),
    {
        let ghost b0 = self.state@;
        proof {
            lemma_place_wf(b0, o);
        }
        if self.state.settled.is_some() {
            let r = empty_result();
            assert(r.fills@ =~= fills_of(o, Seq::<Trade>::empty()));
            return Ok(r);
        }
        if o.tif == Tif::Fok && !self.can_fok_fill(&o) {
            let r = empty_result();
            assert(r.fills@ =~= fills_of(o, Seq::<Trade>::empty()));
            return Ok(r);
        }
        let ghost m = match_run(o.side, o.price, o.user_id, opposite(b0, o.side), o.qty as int);
        proof {
            lemma_match(o.side, o.price, o.user_id, opposite(b0, o.side), o.qty as int, 0, 0);
        }
        let (trades, remaining, stp) = if o.side == Side::Buy {
            match_side(&mut self.state.asks, o.side, o.price, o.user_id, o.qty)
        } else {
            match_side(&mut self.state.bids, o.side, o.price, o.user_id, o.qty)
        };
        let mut fills: Vec<Fill> = Vec::new();
        let mut i: usize = 0;
        while i < trades.len()
            invariant
                i <= trades@.len(),
                fills@ == fills_of(o, trades@.subrange(0, i as int)),
            decreases trades@.len() - i,
        {
            let t = trades[i];
            let buy = o.side == Side::Buy;
            fills.push(
                Fill {
                    market_id: o.market_id.clone(),
                    taker_order_id: o.id,
                    maker_order_id: t.maker_id,
                    price: t.price,
                    qty: t.qty,
                    buyer: if buy { o.user_id } else { t.maker_user },
                    seller: if buy { t.maker_user } else { o.user_id },
                },
            );
            i = i + 1;
            assert(fills@ =~= fills_of(o, trades@.subrange(0, i as int)));
        }
        assert(trades@.subrange(0, trades@.len() as int) =~= trades@);
        let nt = trades.len();
        if nt > 0 {
            self.state.last_trade = Some(trades[nt - 1].price);
        }
        self.state.seq = self.state.seq + nt as u64;
        let mut rested = false;
        if o.tif == Tif::Gtc && remaining > 0 {
            let ord = Order { id: o.id, user_id: o.user_id, price: o.price, qty: remaining, ts: ts_from_id(o.id) };
            if o.side == Side::Buy {
                insert_order(&mut self.state.bids, ord);
            } else {
                insert_order(&mut self.state.asks, ord);
            }
            self.state.seq = self.state.seq + 1;
            rested = true;
        }
        assert(self.state@ == place_spec(b0, o).book);
        Ok(crate::types::PlaceResult { fills, self_trade_prevented: stp, rested })
    }

    /// Cancels the first resting order with this id (bids searched before
    /// asks); `seq` advances when one was removed. An unknown id changes
    /// nothing. Never fails.
    pub fn cancel(&mut self, order_id: OrderId) -> (res: Result<(), BookError>)
        requires
            old(self).state.wf(),
            seq_room(old(self).state.seq),
        ensures
            final(self).state.wf(),
            final(self).state.market == old(self).state.market,
            final(self).state@ == cancel_spec(old(self).state@, order_id),
            res is Ok,
    {
        proof {
            lemma_cancel_wf(self.state@, order_id);
        }
        let ghost b0 = self.state@;
        let mut removed = take_first(&mut self.state.bids, order_id).is_some();
        if !removed {
            removed = take_first(&mut self.state.asks, order_id).is_some();
        }
        if removed {
            self.state.seq = self.state.seq + 1;
        }
        assert(self.state@ == cancel_spec(b0, order_id));
        Ok(())
    }

    /// Cancels the order and places it again as GTC at the new price and/or
    /// size (it loses time priority); see `replace_spec`.
    pub fn replace(&mut self, r: ReplaceOrder) -> (res: Result<(), BookError>)
        requires
            old(self).state.wf(),
            seq_room(old(self).state.seq),
        ensures
            final(self).state.wf(),
            final(self).state.market == old(self).state.market,
            final(self).state@ == replace_spec(old(self).state@, r).0,
            res == replace_spec(old(self).state@, r).1,
    {
        let ghost b0 = self.state@;
        proof {
            lemma_replace_wf(b0, r);
        }
        if self.state.settled.is_some() {
            return Ok(());
        }
        let id = r.order_id;
        let (side, old) = match take_first(&mut self.state.bids, id) {
            Some(o) => (Side::Buy, o),
            None => match take_first(&mut self.state.asks, id) {
                Some(o) => (Side::Sell, o),
                None => {
                    return Err(BookError::OrderNotFound);
                },
            },
        };
        proof {
            lemma_replace_cleared(b0, id);
        }
        drop_empty_levels(&mut self.state.bids);
        drop_empty_levels(&mut self.state.asks);
        self.state.seq = self.state.seq + 1;
        assert(self.state@ == replace_cleared(b0, id));
        let new_price = match r.new_price {
            Some(p) => p,
            None => old.price,
        };
        let new_qty = match r.new_qty {
            Some(q) => q,
            None => old.qty,
        };
        if new_qty == 0 {
            return Err(BookError::InvalidNewQty);
        }
        let new_o = NewOrder {
            id: r.order_id,
            user_id: old.user_id,
            market_id: r.market_id,
            side,
            price: new_price,
            qty: new_qty,
            tif: Tif::Gtc,
            idempotency: None,
        };
        assert(new_o == reentry(r, old, side));
        let _ = self.place(new_o);
        Ok(())
    }

    /// Marks the market settled (YES or NO); a settled book takes no orders.
    pub fn settle(&mut self, yes: bool)
        requires
            old(self).state.wf(),
            seq_room(old(self).state.seq),
        ensures
            final(self).state.wf(),
            final(self).state.market == old(self).state.market,
            final(self).state@ == (BookV { settled: Some(yes), seq: old(self).state@.seq + 1, ..old(self).state@ }),
    {
        self.state.settled = Some(yes);
        self.state.seq = self.state.seq + 1;
    }

    /// Aggregated depth: up to `depth` levels per side, best first, each
    /// with the total resting size (empty levels show size 0).
    pub fn l2(&self, depth: usize) -> (res: L2Book)
        requires
            level_sizes_fit(self.state@.bids),
            level_sizes_fit(self.state@.asks),
        ensures
            res.bids@ == l2_bids(self.state@.bids, depth as int),
            res.asks@ == l2_asks(self.state@.asks, depth as int),
    {
        let ghost sb = self.state@.bids;
        let ghost sa = self.state@.asks;
        let nb = self.state.bids.len();
        let mut bids: Vec<L2Level> = Vec::new();
        let mut i: usize = 0;
        while i < nb && i < depth
            invariant
                i <= nb,
                nb == sb.len(),
                sb == levels_view(self.state.bids@),
                level_sizes_fit(sb),
                i <= depth,
                bids@ == l2_bids(sb, i as int),
            decreases nb - i,
        {
            let l = &self.state.bids[nb - 1 - i];
            assert(level_qty(sb[nb - 1 - i].orders) <= u64::MAX);
            let q = queue_qty(&l.orders);
            bids.push(L2Level { price: l.price, qty: q });
            i = i + 1;
            assert(bids@ =~= l2_bids(sb, i as int));
        }
        assert(bids@ =~= l2_bids(sb, depth as int));
        let na = self.state.asks.len();
        let mut asks: Vec<L2Level> = Vec::new();
        let mut i: usize = 0;
        while i < na && i < depth
            invariant
                i <= na,
                na == sa.len(),
                sa == levels_view(self.state.asks@),
                level_sizes_fit(sa),
                i <= depth,
                asks@ == l2_asks(sa, i as int),
            decreases na - i,
        {
            let l = &self.state.asks[i];
            assert(level_qty(sa[i as int].orders) <= u64::MAX);
            let q = queue_qty(&l.orders);
            asks.push(L2Level { price: l.price, qty: q });
            i = i + 1;
            assert(asks@ =~= l2_asks(sa, i as int));
        }
        assert(asks@ =~= l2_asks(sa, depth as int));
        L2Book { bids, asks }
    }

    /// The resting orders of `user` with positive size: bids in ascending
    /// price, then asks in ascending price, each level front first.
    pub fn resting_orders_for_user(&self, user: UserId) -> (res: Vec<(Side, Order)>)
        ensures
            res@ == tagged(Side::Buy, user_orders(self.state@.bids, user)) + tagged(
                Side::Sell,
                user_orders(self.state@.asks, user),
            ),
    {
        let mut out: Vec<(Side, Order)> = Vec::new();
        collect_user_orders(&self.state.bids, user, Side::Buy, &mut out);
        collect_user_orders(&self.state.asks, user, Side::Sell, &mut out);
        assert(out@ =~= tagged(Side::Buy, user_orders(self.state@.bids, user)) + tagged(
            Side::Sell,
            user_orders(self.state@.asks, user),
        ));
        out
    }
}

/// Whether a side is well formed: prices strictly increase and every
/// resting order has positive size at its level's price.
fn side_ok(side: &Vec<Level>) -> (res: bool)
    ensures
        res == side_wf(levels_view(side@)),
{
    let ghost s = levels_view(side@);
    let mut i: usize = 0;
    while i < side.len()
        invariant
            s == levels_view(side@),
            i <= side@.len(),
            forall|a: int, b: int| 0 <= a < b < i ==> s[a].price < s[b].price,
            forall|a: int, k: int|
                0 <= a < i && 0 <= k < s[a].orders.len() ==> #[trigger] s[a].orders[k].qty > 0 && s[a].orders[k].price
                    == s[a].price,
        decreases side@.len() - i,
    {
        let lv = &side[i];
        assert(s[i as int] == lv@);
        if i > 0 {
            assert(s[i - 1] == side@[i - 1]@);
            if side[i - 1].price >= lv.price {
                assert(!side_sorted(s)) by {
                    assert(!(s[i - 1].price < s[i as int].price));
                }
                return false;
            }
        }
        let mut k: usize = 0;
        while k < lv.orders.len()
            invariant
                s == levels_view(side@),
                i < side@.len(),
                s[i as int] == lv@,
                k <= lv.orders@.len(),
                forall|kk: int| 0 <= kk < k ==> #[trigger] lv.orders@[kk].qty > 0 && lv.orders@[kk].price == lv.price,
            decreases lv.orders@.len() - k,
        {
            let o = lv.orders[k];
            if o.qty == 0 || o.price != lv.price {
                assert(!side_orders_ok(s)) by {
                    assert(s[i as int].orders == lv.orders@);
                    assert(s[i as int].orders[k as int] == o);
                    assert(!(s[i as int].orders[k as int].qty > 0 && s[i as int].orders[k as int].price == s[i as int].price));
                }
                return false;
            }
            k = k + 1;
        }
        assert forall|a: int, b: int| 0 <= a < b < i + 1 implies s[a].price < s[b].price by {
            if b == i && a < i - 1 {
                assert(s[a].price < s[i - 1].price);
            }
        }
        assert forall|a: int, kk: int| 0 <= a < i + 1 && 0 <= kk < s[a].orders.len() implies #[trigger] s[a].orders[kk].qty
            > 0 && s[a].orders[kk].price == s[a].price by {
            if a == i {
                assert(s[a].orders[kk] == lv.orders@[kk]);
            }
        }
        i = i + 1;
    }
    true
}

impl BookState {
    /// Checks the book's well-formedness at run time.
    pub fn check_wf(&self) -> (res: bool)
        ensures
            res == self.wf(),
    {
        if !side_ok(&self.bids) || !side_ok(&self.asks) {
            return false;
        }
        let ghost b = self@;
        if self.bids.len() > 0 && self.asks.len() > 0 {
            let hb = self.bids[self.bids.len() - 1].price;
            let la = self.asks[0].price;
            assert(b.bids[b.bids.len() - 1].price == hb);
            assert(b.asks[0].price == la);
            if hb >= la {
                assert(!not_crossed(b)) by {
                    assert(!(b.bids[b.bids.len() - 1].price < b.asks[0].price));
                }
                return false;
            }
            assert forall|i: int, j: int| 0 <= i < b.bids.len() && 0 <= j < b.asks.len() implies #[trigger] b.bids[i].price
                < #[trigger] b.asks[j].price by {
                if i < b.bids.len() - 1 {
                    assert(b.bids[i].price < b.bids[b.bids.len() - 1].price);
                }
                if j > 0 {
                    assert(b.asks[0].price < b.asks[j].price);
                }
            }
        }
        true
    }
}

/// Fills are reported at the maker's price: the i-th fill of a placement is
/// the i-th execution, at its price and size, against its maker order, and
/// that price is the price of a level that rested on the opposite side
/// before the order came in. The incoming order is the buyer of a buy and
/// the seller of a sell, the maker the other party.
pub proof fn law_fills_at_maker_prices(b: BookV, o: NewOrder)
    ensures
        fills_of(o, place_spec(b, o).trades).len() == place_spec(b, o).trades.len(),
        forall|i: int|
            0 <= i < place_spec(b, o).trades.len() ==> {
                let f = #[trigger] fills_of(o, place_spec(b, o).trades)[i];
                let t = place_spec(b, o).trades[i];
                &&& f.price == t.price
                &&& f.qty == t.qty
                &&& f.maker_order_id == t.maker_id
                &&& f.taker_order_id == o.id
                &&& exists|k: int| 0 <= k < opposite(b, o.side).len() && opposite(b, o.side)[k].price == f.price
                &&& (o.side == Side::Buy ==> f.buyer == o.user_id && f.seller == t.maker_user)
                &&& (o.side == Side::Sell ==> f.seller == o.user_id && f.buyer == t.maker_user)
            },
{
    crate::book_spec::law_trades_at_resting_prices(b, o);
    let ts = place_spec(b, o).trades;
    assert forall|i: int| 0 <= i < ts.len() implies exists|k: int|
        0 <= k < opposite(b, o.side).len() && opposite(b, o.side)[k].price == (#[trigger] fills_of(o, ts)[i]).price by {
        assert(fills_of(o, ts)[i] == fill_of(o, ts[i]));
        let k = choose|k: int| 0 <= k < opposite(b, o.side).len() && opposite(b, o.side)[k].price == ts[i].price;
    }
}

} // verus!
