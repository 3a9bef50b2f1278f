//! The market registry: one order book per market, kept in market-id order,
//! and the write-ahead records whose replay rebuilds it.
use vstd::prelude::*;
use crate::book_spec::{
    BookV, PlaceV, cancel_spec, fok_ok, l2_asks, l2_bids, level_sizes_fit, place_spec, replace_spec,
    tagged, user_orders, level_qty, lemma_level_qty_prefix, has_id, id_once, law_cancel_removes,
};
use crate::orderbook::{OrderBook, seq_room, fills_of};
use crate::text::{seq_lt, str_eq, str_lt, lemma_seq_lt_irreflexive, lemma_seq_lt_total, lemma_seq_lt_transitive};
use crate::types::{
    BookError, L2Book, Market, MarketId, MarketView, NewOrder, OpenOrderRow, Order, OrderId, PlaceResult,
    ReplaceOrder, Side, Tif, UserId,
};

verus! {

/// A settlement as written to the log.
#[derive(Debug)]
pub struct SettleRec {
    pub market_id: MarketId,
    pub resolve_yes: bool,
}

impl Clone for SettleRec {
    fn clone(&self) -> (res: Self)
        ensures
            res == *self,
    {
        SettleRec { market_id: self.market_id.clone(), resolve_yes: self.resolve_yes }
    }
}

/// One logged command.
#[derive(Debug)]
pub enum WalRecord {
    Place(NewOrder),
    Cancel { market_id: MarketId, order_id: OrderId },
    Replace(ReplaceOrder),
    Settle { s: SettleRec },
}

impl Clone for WalRecord {
    fn clone(&self) -> (res: Self)
        ensures
            res == *self,
    {
        match self {
            WalRecord::Place(o) => WalRecord::Place(o.clone()),
            WalRecord::Cancel { market_id, order_id } => WalRecord::Cancel {
                market_id: market_id.clone(),
                order_id: *order_id,
            },
            WalRecord::Replace(r) => WalRecord::Replace(r.clone()),
            WalRecord::Settle { s } => WalRecord::Settle { s: s.clone() },
        }
    }
}

/// The registry as a value: each market with its book, in market-id order.
pub type EngineView = Seq<(MarketView, BookV)>;

pub open spec fn view_of(s: Seq<OrderBook>) -> EngineView {
    s.map_values(|b: OrderBook| (b.state.market@, b.state@))
}

/// Market ids strictly increase (so they are distinct).
pub open spec fn ids_sorted(v: EngineView) -> bool {
    forall|i: int, j: int| 0 <= i < j < v.len() ==> seq_lt(#[trigger] v[i].0.id@, #[trigger] v[j].0.id@)
}

/// Position of the market with this id, or -1.
pub open spec fn index_of(v: EngineView, id: Seq<char>) -> int {
    if exists|i: int| market_at(v, id, i) {
        choose|i: int| market_at(v, id, i)
    } else {
        -1
    }
}

pub open spec fn market_at(v: EngineView, id: Seq<char>, i: int) -> bool {
    0 <= i < v.len() && v[i].0.id@ == id
}

pub open spec fn with_book(v: EngineView, i: int, b: BookV) -> EngineView {
    v.update(i, (v[i].0, b))
}

pub open spec fn settle_book(b: BookV, yes: bool) -> BookV {
    BookV { settled: Some(yes), seq: b.seq + 1, ..b }
}

/// Placing an order in the registry: unknown markets are an error.
pub open spec fn engine_place(v: EngineView, o: NewOrder) -> (EngineView, Result<PlaceV, BookError>) {
    let i = index_of(v, o.market_id@);
    if i < 0 {
        (v, Err(BookError::UnknownMarket))
    } else {
        let p = place_spec(v[i].1, o);
        (with_book(v, i, p.book), Ok(p))
    }
}

pub open spec fn engine_cancel(v: EngineView, market_id: Seq<char>, id: OrderId) -> (EngineView, Result<(), BookError>) {
    let i = index_of(v, market_id);
    if i < 0 {
        (v, Err(BookError::UnknownMarket))
    } else {
        (with_book(v, i, cancel_spec(v[i].1, id)), Ok(()))
    }
}

pub open spec fn engine_replace(v: EngineView, r: ReplaceOrder) -> (EngineView, Result<(), BookError>) {
    let i = index_of(v, r.market_id@);
    if i < 0 {
        (v, Err(BookError::UnknownMarket))
    } else {
        (with_book(v, i, replace_spec(v[i].1, r).0), replace_spec(v[i].1, r).1)
    }
}

pub open spec fn engine_settle(v: EngineView, market_id: Seq<char>, yes: bool) -> (EngineView, Result<(), BookError>) {
    let i = index_of(v, market_id);
    if i < 0 {
        (v, Err(BookError::UnknownMarket))
    } else {
        (with_book(v, i, settle_book(v[i].1, yes)), Ok(()))
    }
}

/// Applying one logged record, ignoring its outcome (as recovery does).
pub open spec fn apply_record(v: EngineView, rec: WalRecord) -> EngineView {
    match rec {
        WalRecord::Place(o) => engine_place(v, o).0,
        WalRecord::Cancel { market_id, order_id } => engine_cancel(v, market_id@, order_id).0,
        WalRecord::Replace(r) => engine_replace(v, r).0,
        WalRecord::Settle { s } => engine_settle(v, s.market_id@, s.resolve_yes).0,
    }
}

/// Applying a log, front to back.
pub open spec fn replay(v: EngineView, log: Seq<WalRecord>) -> EngineView
    decreases log.len(),
{
    if log.len() == 0 {
        v
    } else {
        replay(apply_record(v, log[0]), log.drop_first())
    }
}

/// A placement is logged unless it is refused before it reaches the book:
/// unknown market, or a fill-or-kill order that cannot fill.
pub open spec fn place_logged(v: EngineView, o: NewOrder) -> bool {
    let i = index_of(v, o.market_id@);
    i >= 0 && !(o.tif == Tif::Fok && !fok_ok(v[i].1, o))
}

/// One live command: its effect on the registry and what it adds to the
/// log. Cancels, replaces and settlements are logged before they are tried.
pub open spec fn step(v: EngineView, c: WalRecord) -> (EngineView, Seq<WalRecord>) {
    match c {
        WalRecord::Place(o) => (engine_place(v, o).0, if place_logged(v, o) { seq![c] } else { seq![] }),
        _ => (apply_record(v, c), seq![c]),
    }
}

/// A live session: the registry after the commands, and the log written.
pub open spec fn run(v: EngineView, cmds: Seq<WalRecord>) -> (EngineView, Seq<WalRecord>)
    decreases cmds.len(),
{
    if cmds.len() == 0 {
        (v, seq![])
    } else {
        let s = step(v, cmds[0]);
        let r = run(s.0, cmds.drop_first());
        (r.0, s.1 + r.1)
    }
}

/// Replaying a log in two parts is replaying it whole: restoring a
/// snapshot taken after `first` and replaying `rest` gives the same
/// registry as replaying everything from the start.
pub proof fn law_replay_splits(v: EngineView, first: Seq<WalRecord>, rest: Seq<WalRecord>)
    ensures
        replay(v, first + rest) == replay(replay(v, first), rest),
    decreases first.len(),
{
    if first.len() == 0 {
        assert(first + rest =~= rest);
    } else {
        assert((first + rest).drop_first() =~= first.drop_first() + rest);
        law_replay_splits(apply_record(v, first[0]), first.drop_first(), rest);
    }
}

/// Deterministic recovery: replaying the log that a live session wrote,
/// from the registry the session started with, rebuilds exactly the
/// registry the session ended with.
pub proof fn law_replay_matches_live(v: EngineView, cmds: Seq<WalRecord>)
    ensures
        replay(v, run(v, cmds).1) == run(v, cmds).0,
    decreases cmds.len(),
{
    if cmds.len() == 0 {
    } else {
        let c = cmds[0];
        let s = step(v, c);
        let r = run(s.0, cmds.drop_first());
        law_replay_matches_live(s.0, cmds.drop_first());
        law_replay_splits(v, s.1, r.1);
        reveal_with_fuel(replay, 2);
        match c {
            WalRecord::Place(o) => {
                if place_logged(v, o) {
                    assert(s.1.drop_first() =~= Seq::<WalRecord>::empty());
                    assert(replay(v, s.1) == s.0);
                } else {
                    let i = index_of(v, o.market_id@);
                    if i >= 0 {
                        assert(with_book(v, i, v[i].1) =~= v);
                    }
                    assert(replay(v, s.1) == s.0);
                }
            },
            _ => {
                assert(s.1.drop_first() =~= Seq::<WalRecord>::empty());
                assert(replay(v, s.1) == s.0);
            },
        }
        assert(run(v, cmds).1 == s.1 + r.1);
    }
}

/// The registry of markets and their books.
pub struct Engine {
    pub markets: Vec<OrderBook>,
}

impl View for Engine {
    type V = EngineView;

    open spec fn view(&self) -> EngineView {
        view_of(self.markets@)
    }
}

/// Position at which a market with this id belongs.
pub open spec fn id_lower_bound(v: EngineView, id: Seq<char>) -> int
    decreases v.len(),
{
    if v.len() == 0 {
        0
    } else if seq_lt(v.last().0.id@, id) {
        v.len() as int
    } else {
        id_lower_bound(v.drop_last(), id)
    }
}

/// A fresh book for a market.
pub open spec fn empty_book() -> BookV {
    BookV { bids: seq![], asks: seq![], last_trade: None, seq: 0, settled: None }
}

/// Registering a market: known ids are left as they are, new ones get an
/// empty book at their place in id order.
pub open spec fn engine_ensure(v: EngineView, m: MarketView) -> EngineView {
    if index_of(v, m.id@) >= 0 {
        v
    } else {
        v.insert(id_lower_bound(v, m.id@), (m, empty_book()))
    }
}

/// Distinct ids under a strict order.
pub proof fn lemma_index_of(v: EngineView, i: int)
    requires
        ids_sorted(v),
        0 <= i < v.len(),
    ensures
        index_of(v, v[i].0.id@) == i,
{
    let id = v[i].0.id@;
    assert(market_at(v, id, i));
    let j = choose|j: int| market_at(v, id, j);
    if j != i {
        lemma_seq_lt_irreflexive(id);
        if j < i {
            assert(seq_lt(v[j].0.id@, v[i].0.id@));
        } else {
            assert(seq_lt(v[i].0.id@, v[j].0.id@));
        }
    }
}

proof fn lemma_id_lower_bound(v: EngineView, id: Seq<char>)
    requires
        ids_sorted(v),
    ensures
        0 <= id_lower_bound(v, id) <= v.len(),
        forall|j: int| 0 <= j < id_lower_bound(v, id) ==> seq_lt(#[trigger] v[j].0.id@, id),
        forall|j: int| id_lower_bound(v, id) <= j < v.len() ==> !seq_lt(#[trigger] v[j].0.id@, id),
    decreases v.len(),
{
    if v.len() == 0 {
    } else if seq_lt(v.last().0.id@, id) {
        assert forall|j: int| 0 <= j < v.len() implies seq_lt(#[trigger] v[j].0.id@, id) by {
            if j < v.len() - 1 {
                lemma_seq_lt_transitive(v[j].0.id@, v[v.len() - 1].0.id@, id);
            }
        }
    } else {
        let d = v.drop_last();
        assert forall|a: int, b: int| 0 <= a < b < d.len() implies seq_lt(#[trigger] d[a].0.id@, #[trigger] d[b].0.id@) by {
            assert(d[a] == v[a] && d[b] == v[b]);
        }
        lemma_id_lower_bound(d, id);
        assert forall|j: int| 0 <= j < id_lower_bound(v, id) implies seq_lt(#[trigger] v[j].0.id@, id) by {
            assert(v[j] == d[j]);
        }
        assert forall|j: int| id_lower_bound(v, id) <= j < v.len() implies !seq_lt(#[trigger] v[j].0.id@, id) by {
            if j < v.len() - 1 {
                assert(v[j] == d[j]);
            }
        }
    }
}

impl Engine {
    /// Replacing one book by a well-formed book of the same market keeps the registry well formed.
    proof fn lemma_update_wf(&self, v: EngineView, i: int)
        requires
            ids_sorted(v),
            0 <= i < v.len(),
            self@.len() == v.len(),
            self@[i].0 == v[i].0,
            forall|j: int| 0 <= j < v.len() && j != i ==> #[trigger] self@[j] == v[j],
            self.markets@[i].state.wf(),
            forall|j: int| 0 <= j < v.len() && j != i ==> (#[trigger] self.markets@[j]).state.wf(),
        ensures
            self.wf(),
    {
        assert forall|a: int, b: int| 0 <= a < b < self@.len() implies seq_lt(
            #[trigger] self@[a].0.id@,
            #[trigger] self@[b].0.id@,
        ) by {
            assert(self@[a].0 == v[a].0);
            assert(self@[b].0 == v[b].0);
        }
    }

    /// Market ids in strictly increasing order and every book well formed.
    pub open spec fn wf(&self) -> bool {
        &&& ids_sorted(self@)
        &&& forall|i: int| 0 <= i < self.markets@.len() ==> (#[trigger] self.markets@[i]).state.wf()
    }

    /// Every book's sequence number is far from overflowing.
    pub open spec fn room(&self) -> bool {
        forall|i: int| 0 <= i < self.markets@.len() ==> seq_room(#[trigger] self.markets@[i].state.seq)
    }

    pub fn new() -> (e: Self)
        ensures
            e@ == Seq::<(MarketView, BookV)>::empty(),
            e.wf(),
    {
        let e = Engine { markets: Vec::new() };
        assert(e@ =~= Seq::<(MarketView, BookV)>::empty());
        e
    }

    /// Whether every book's sequence number is far from overflowing.
    pub fn has_room(&self) -> (res: bool)
        ensures
            res == self.room(),
    {
        let mut i: usize = 0;
        while i < self.markets.len()
            invariant
                i <= self.markets@.len(),
                forall|j: int| 0 <= j < i ==> seq_room(#[trigger] self.markets@[j].state.seq),
            decreases self.markets@.len() - i,
        {
            if self.markets[i].state.seq >= 0xffff_fffe_0000_0000u64 {
                return false;
            }
            i = i + 1;
        }
        true
    }

    fn find(&self, id: &str) -> (res: Option<usize>)
        requires
            self.wf(),
        ensures
            match res {
                Some(i) => i < self.markets@.len() && i as int == index_of(self@, id@),
                None => index_of(self@, id@) < 0,
            },
    {
        let mut i: usize = 0;
        while i < self.markets.len()
            invariant
                self.wf(),
                i <= self.markets@.len(),
                forall|j: int| 0 <= j < i ==> (#[trigger] self@[j]).0.id@ != id@,
            decreases self.markets@.len() - i,
        {
            if str_eq(self.markets[i].state.market.id.as_str(), id) {
                proof {
                    lemma_index_of(self@, i as int);
                }
                return Some(i);
            }
            i = i + 1;
        }
        assert(!exists|j: int| market_at(self@, id@, j)) by {
            if exists|j: int| market_at(self@, id@, j) {
                let j = choose|j: int| market_at(self@, id@, j);
                assert(self@[j].0.id@ != id@);
            }
        }
        None
    }

    /// Every level's total size fits in a `u64` (always true in practice).
    pub open spec fn sizes_fit(&self) -> bool {
        forall|i: int| 0 <= i < self@.len() ==> book_fits(#[trigger] self@[i].1)
    }

    /// Registers a market with an empty book unless its id is known.
    pub fn ensure_market(&mut self, market: Market)
        requires
            old(self).wf(),
        ensures
            final(self).wf(),
            final(self)@ == engine_ensure(old(self)@, market@),
            old(self).room() ==> final(self).room(),
    {
        let ghost v = self@;
        if self.find(market.id.as_str()).is_some() {
            return;
        }
        proof {
            lemma_id_lower_bound(v, market@.id@);
        }
        let n = self.markets.len();
        let mut k: usize = 0;
        while k < n && str_lt(self.markets[k].state.market.id.as_str(), market.id.as_str())
            invariant
                k <= n,
                n == self.markets@.len(),
                v == self@,
                forall|j: int| 0 <= j < k ==> seq_lt(#[trigger] v[j].0.id@, market@.id@),
            decreases n - k,
        {
            k = k + 1;
        }
        assert(k as int == id_lower_bound(v, market@.id@)) by {
            let lb = id_lower_bound(v, market@.id@);
            if (k as int) < lb {
                assert(seq_lt(v[k as int].0.id@, market@.id@));
            } else if (k as int) > lb {
                assert(seq_lt(v[lb].0.id@, market@.id@));
            }
        }
        let ghost mv = market@;
        let ob = OrderBook::new(market);
        assert(ob.state@ == empty_book()) by {
            assert(ob.state@.bids =~= Seq::<crate::book_spec::LevelV>::empty());
            assert(ob.state@.asks =~= Seq::<crate::book_spec::LevelV>::empty());
        }
        self.markets.insert(k, ob);
        assert(self@ =~= v.insert(k as int, (mv, empty_book())));
        assert forall|i: int, j: int| 0 <= i < j < self@.len() implies seq_lt(
            #[trigger] self@[i].0.id@,
            #[trigger] self@[j].0.id@,
        ) by {
            let w = self@;
            if j < k {
                assert(w[i] == v[i] && w[j] == v[j]);
            } else if j == k {
                assert(w[i] == v[i]);
            } else if i < k {
                assert(w[i] == v[i] && w[j] == v[j - 1]);
                assert(seq_lt(v[i].0.id@, mv.id@));
                assert(!seq_lt(v[j - 1].0.id@, mv.id@));
                lemma_seq_lt_total(v[j - 1].0.id@, mv.id@);
                if v[j - 1].0.id@ == mv.id@ {
                    assert(market_at(v, mv.id@, j - 1));
                }
                lemma_seq_lt_transitive(v[i].0.id@, mv.id@, v[j - 1].0.id@);
            } else if i == k {
                assert(w[j] == v[j - 1]);
                assert(!seq_lt(v[j - 1].0.id@, mv.id@));
                lemma_seq_lt_total(v[j - 1].0.id@, mv.id@);
                if v[j - 1].0.id@ == mv.id@ {
                    assert(market_at(v, mv.id@, j - 1));
                }
            } else {
                assert(w[i] == v[i - 1] && w[j] == v[j - 1]);
            }
        }
    }

    /// Whether a placement is logged and applied: an unknown market is an
    /// error; a fill-or-kill order that cannot fill is refused (`Ok(false)`)
    /// before anything is written.
    pub fn place_needs_log(&self, o: &NewOrder) -> (res: Result<bool, BookError>)
        requires
            self.wf(),
        ensures
            res is Err <==> index_of(self@, o.market_id@) < 0,
            res matches Err(e) ==> e == BookError::UnknownMarket,
            res matches Ok(b) ==> b == place_logged(self@, *o),
    {
        match self.find(o.market_id.as_str()) {
            None => Err(BookError::UnknownMarket),
            Some(i) => {
                assert(self.markets@[i as int].state.wf());
                if o.tif == Tif::Fok && !self.markets[i].can_fok_fill(o) {
                    Ok(false)
                } else {
                    Ok(true)
                }
            },
        }
    }

    /// Places an order in its market's book.
    pub fn place_order(&mut self, o: NewOrder) -> (res: Result<PlaceResult, BookError>)
        requires
            old(self).wf(),
            old(self).room(),
        ensures
            final(self).wf(),
            final(self)@ == engine_place(old(self)@, o).0,
            match engine_place(old(self)@, o).1 {
                Ok(p) => res matches Ok(r) && r.fills@ == fills_of(o, p.trades) && r.self_trade_prevented == p.stp
                    && r.rested == p.rested,
                Err(e) => res == Err::<PlaceResult, BookError>(e),
            },
    {
        let ghost v = self@;
        match self.find(o.market_id.as_str()) {
            None => Err(BookError::UnknownMarket),
            Some(i) => {
                assert(self.markets@[i as int].state.wf());
                assert(seq_room(self.markets@[i as int].state.seq));
                let mut ob = self.markets.remove(i);
                let r = ob.place(o);
                self.markets.insert(i, ob);
                assert(self@ =~= with_book(v, i as int, place_spec(v[i as int].1, o).book));
                proof {
                    self.lemma_update_wf(v, i as int);
                }
                r
            },
        }
    }

    /// Cancels an order in a market; an unknown market is an error.
    pub fn cancel_order(&mut self, market_id: MarketId, order_id: OrderId) -> (res: Result<(), BookError>)
        requires
            old(self).wf(),
            old(self).room(),
        ensures
            final(self).wf(),
            final(self)@ == engine_cancel(old(self)@, market_id@, order_id).0,
            res == engine_cancel(old(self)@, market_id@, order_id).1,
    {
        let ghost v = self@;
        match self.find(market_id.as_str()) {
            None => Err(BookError::UnknownMarket),
            Some(i) => {
                assert(self.markets@[i as int].state.wf());
                assert(seq_room(self.markets@[i as int].state.seq));
                let mut ob = self.markets.remove(i);
                let _ = ob.cancel(order_id);
                self.markets.insert(i, ob);
                assert(self@ =~= with_book(v, i as int, cancel_spec(v[i as int].1, order_id)));
                proof {
                    self.lemma_update_wf(v, i as int);
                }
                Ok(())
            },
        }
    }

    /// Replaces an order in a market; an unknown market is an error.
    pub fn replace_order(&mut self, r: ReplaceOrder) -> (res: Result<(), BookError>)
        requires
            old(self).wf(),
            old(self).room(),
        ensures
            final(self).wf(),
            final(self)@ == engine_replace(old(self)@, r).0,
            res == engine_replace(old(self)@, r).1,
    {
        let ghost v = self@;
        let ghost r0 = r;
        match self.find(r.market_id.as_str()) {
            None => Err(BookError::UnknownMarket),
            Some(i) => {
                assert(self.markets@[i as int].state.wf());
                assert(seq_room(self.markets@[i as int].state.seq));
                let mut ob = self.markets.remove(i);
                let res = ob.replace(r);
                self.markets.insert(i, ob);
                assert(self@ =~= with_book(v, i as int, replace_spec(v[i as int].1, r0).0));
                proof {
                    self.lemma_update_wf(v, i as int);
                }
                res
            },
        }
    }

    /// Settles a market; an unknown market is an error.
    pub fn settle_market(&mut self, market_id: MarketId, resolve_yes: bool) -> (res: Result<(), BookError>)
        requires
            old(self).wf(),
            old(self).room(),
        ensures
            final(self).wf(),
            final(self)@ == engine_settle(old(self)@, market_id@, resolve_yes).0,
            res == engine_settle(old(self)@, market_id@, resolve_yes).1,
    {
        let ghost v = self@;
        match self.find(market_id.as_str()) {
            None => Err(BookError::UnknownMarket),
            Some(i) => {
                assert(self.markets@[i as int].state.wf());
                assert(seq_room(self.markets@[i as int].state.seq));
                let mut ob = self.markets.remove(i);
                ob.settle(resolve_yes);
                self.markets.insert(i, ob);
                assert(self@ =~= with_book(v, i as int, settle_book(v[i as int].1, resolve_yes)));
                proof {
                    self.lemma_update_wf(v, i as int);
                }
                Ok(())
            },
        }
    }

    /// Applies one logged record during recovery; records for unknown
    /// markets and failed operations leave the registry as the live run did.
    pub fn apply_record(&mut self, rec: WalRecord)
        requires
            old(self).wf(),
            old(self).room(),
        ensures
            final(self).wf(),
            final(self)@ == apply_record(old(self)@, rec),
    {
        match rec {
            WalRecord::Place(o) => {
                let _ = self.place_order(o);
            },
            WalRecord::Cancel { market_id, order_id } => {
                let _ = self.cancel_order(market_id, order_id);
            },
            WalRecord::Replace(r) => {
                let _ = self.replace_order(r);
            },
            WalRecord::Settle { s } => {
                let _ = self.settle_market(s.market_id, s.resolve_yes);
            },
        }
    }

    /// Depth, last trade price and sequence number of one market's book.
    pub fn get_market_snapshot(&self, market_id: &str, depth: usize) -> (res: Option<(L2Book, Option<u32>, u64)>)
        requires
            self.wf(),
            self.sizes_fit(),
        ensures
            res is None <==> index_of(self@, market_id@) < 0,
            res matches Some(t) ==> ({
                let b = self@[index_of(self@, market_id@)].1;
                &&& t.0.bids@ == l2_bids(b.bids, depth as int)
                &&& t.0.asks@ == l2_asks(b.asks, depth as int)
                &&& t.1 == b.last_trade
                &&& t.2 as int == b.seq
            }),
    {
        match self.find(market_id) {
            None => None,
            Some(i) => {
                let ob = &self.markets[i];
                assert(book_fits(self@[i as int].1));
                let l2 = ob.l2(depth);
                Some((l2, ob.state.last_trade, ob.state.seq))
            },
        }
    }

    /// All markets in id order, each with its settlement (`None` while open).
    pub fn list_markets_detail(&self) -> (res: Vec<(Market, Option<bool>)>)
        ensures
            res@.len() == self@.len(),
            forall|i: int| 0 <= i < self@.len() ==> (#[trigger] res@[i]).0@ == self@[i].0 && res@[i].1 == self@[i].1.settled,
    {
        let mut out: Vec<(Market, Option<bool>)> = Vec::new();
        let mut i: usize = 0;
        while i < self.markets.len()
            invariant
                i <= self.markets@.len(),
                out@.len() == i,
                forall|j: int| 0 <= j < i ==> (#[trigger] out@[j]).0@ == self@[j].0 && out@[j].1 == self@[j].1.settled,
            decreases self.markets@.len() - i,
        {
            let ob = &self.markets[i];
            out.push((ob.state.market.clone(), ob.state.settled));
            i = i + 1;
        }
        out
    }

    /// Whether every level's total size fits in a `u64`.
    pub fn has_size_room(&self) -> (res: bool)
        ensures
            res == self.sizes_fit(),
    {
        let mut i: usize = 0;
        while i < self.markets.len()
            invariant
                i <= self.markets@.len(),
                forall|j: int| 0 <= j < i ==> book_fits(#[trigger] self@[j].1),
            decreases self.markets@.len() - i,
        {
            let ob = &self.markets[i];
            assert(ob.state@ == self.markets@[i as int].state@);
            let fb = side_fits(&ob.state.bids);
            let fa = side_fits(&ob.state.asks);
            assert(fb == level_sizes_fit(self.markets@[i as int].state@.bids));
            assert(fa == level_sizes_fit(self.markets@[i as int].state@.asks));
            assert(self@[i as int].1 == self.markets@[i as int].state@);
            if !fb || !fa {
                return false;
            }
            assert(book_fits(self@[i as int].1));
            i = i + 1;
        }
        true
    }

    /// Open resting orders of `user`: in one market when `market_id` is
    /// given (none if it is unknown), else in every market in id order.
    pub fn resting_orders_for_user(&self, user: UserId, market_id: Option<&str>) -> (res: Vec<OpenOrderRow>)
        requires
            self.wf(),
        ensures
            rows_are(
                res@,
                match market_id {
                    Some(m) => if index_of(self@, m@) >= 0 {
                        market_rows(m@, self@[index_of(self@, m@)].1, user)
                    } else {
                        seq![]
                    },
                    None => all_rows(self@, user),
                },
            ),
    {
        let mut out: Vec<OpenOrderRow> = Vec::new();
        match market_id {
            Some(m) => {
                match self.find(m) {
                    None => {},
                    Some(i) => {
                        push_rows(&mut out, m, &self.markets[i], user);
                        assert(out@.subrange(0, out@.len() as int) =~= out@);
                    },
                }
            },
            None => {
                let ghost v = self@;
                let n = self.markets.len();
                let mut i: usize = 0;
                assert(v.subrange(0, 0) =~= Seq::<(MarketView, BookV)>::empty());
                while i < n
                    invariant
                        i <= n,
                        n == v.len(),
                        v == self@,
                        rows_are(out@, all_rows(v.subrange(0, i as int), user)),
                    decreases n - i,
                {
                    let ghost before = out@;
                    let ob = &self.markets[i];
                    push_rows(&mut out, ob.state.market.id.as_str(), ob, user);
                    let ghost t0 = all_rows(v.subrange(0, i as int), user);
                    let ghost t1 = market_rows(v[i as int].0.id@, v[i as int].1, user);
                    assert(v.subrange(0, i + 1).drop_last() =~= v.subrange(0, i as int));
                    assert(all_rows(v.subrange(0, i + 1), user) == t0 + t1);
                    assert forall|k: int| 0 <= k < out@.len() implies row_is(#[trigger] out@[k], (t0 + t1)[k]) by {
                        if k < before.len() {
                            assert(out@[k] == out@.subrange(0, before.len() as int)[k]);
                        } else {
                            assert(out@[k] == out@.subrange(before.len() as int, out@.len() as int)[k - before.len()]);
                        }
                    }
                    i = i + 1;
                }
                assert(v.subrange(0, n as int) =~= v);
            },
        }
        out
    }
}

/// Every level of the book has a total size that fits in a `u64`.
pub open spec fn book_fits(b: BookV) -> bool {
    level_sizes_fit(b.bids) && level_sizes_fit(b.asks)
}

/// Whether every level of a side has a total size that fits in a `u64`.
fn side_fits(side: &Vec<crate::orderbook::Level>) -> (res: bool)
    ensures
        res == level_sizes_fit(crate::orderbook::levels_view(side@)),
{
    let ghost s = crate::orderbook::levels_view(side@);
    let mut i: usize = 0;
    while i < side.len()
        invariant
            i <= side@.len(),
            s == crate::orderbook::levels_view(side@),
            forall|j: int| 0 <= j < i ==> level_qty(#[trigger] s[j].orders) <= u64::MAX,
        decreases side@.len() - i,
    {
        let q = &side[i].orders;
        let mut total: u64 = 0;
        let mut j: usize = 0;
        assert(q@.subrange(0, 0) =~= Seq::<Order>::empty());
        while j < q.len()
            invariant
                j <= q@.len(),
                i < side@.len(),
                s == crate::orderbook::levels_view(side@),
                q@ == s[i as int].orders,
                total == level_qty(q@.subrange(0, j as int)),
            decreases q@.len() - j,
        {
            assert(q@.subrange(0, j + 1).drop_last() =~= q@.subrange(0, j as int));
            match total.checked_add(q[j].qty as u64) {
                Some(t) => {
                    total = t;
                },
                None => {
                    proof {
                        lemma_level_qty_prefix(q@, j + 1);
                    }
                    return false;
                },
            }
            j = j + 1;
        }
        assert(q@.subrange(0, q@.len() as int) =~= q@);
        i = i + 1;
    }
    true
}

/// The rows of one book: bids then asks, each with the market id.
pub open spec fn market_rows(mid: Seq<char>, b: BookV, user: UserId) -> Seq<(Seq<char>, Side, Order)> {
    (tagged(Side::Buy, user_orders(b.bids, user)) + tagged(Side::Sell, user_orders(b.asks, user))).map_values(
        |t: (Side, Order)| (mid, t.0, t.1),
    )
}

/// The rows of every book, markets in registry order.
pub open spec fn all_rows(v: EngineView, user: UserId) -> Seq<(Seq<char>, Side, Order)>
    decreases v.len(),
{
    if v.len() == 0 {
        seq![]
    } else {
        all_rows(v.drop_last(), user) + market_rows(v.last().0.id@, v.last().1, user)
    }
}

pub open spec fn row_is(r: OpenOrderRow, t: (Seq<char>, Side, Order)) -> bool {
    &&& r.market_id@ == t.0
    &&& r.side == t.1
    &&& r.order_id == t.2.id
    &&& r.price == t.2.price
    &&& r.qty == t.2.qty
}

pub open spec fn rows_are(rs: Seq<OpenOrderRow>, ts: Seq<(Seq<char>, Side, Order)>) -> bool {
    rs.len() == ts.len() && forall|i: int| 0 <= i < rs.len() ==> row_is(#[trigger] rs[i], ts[i])
}

/// Appends the rows of one book.
fn push_rows(out: &mut Vec<OpenOrderRow>, mid: &str, ob: &OrderBook, user: UserId)
    ensures
        final(out)@.len() >= old(out)@.len(),
        final(out)@.subrange(0, old(out)@.len() as int) == old(out)@,
        rows_are(
            final(out)@.subrange(old(out)@.len() as int, final(out)@.len() as int),
            market_rows(mid@, ob.state@, user),
        ),
{
    let rs = ob.resting_orders_for_user(user);
    let ghost base = out@;
    let mut k: usize = 0;
    while k < rs.len()
        invariant
            k <= rs@.len(),
            out@.len() == base.len() + k,
            out@.subrange(0, base.len() as int) == base,
            forall|j: int| 0 <= j < k ==> row_is(#[trigger] out@[base.len() + j], market_rows(mid@, ob.state@, user)[j]),
            rs@ == tagged(Side::Buy, user_orders(ob.state@.bids, user)) + tagged(
                Side::Sell,
                user_orders(ob.state@.asks, user),
            ),
        decreases rs@.len() - k,
    {
        let (side, o) = rs[k];
        out.push(OpenOrderRow { market_id: mid.to_owned(), order_id: o.id, side, price: o.price, qty: o.qty });
        assert(out@.subrange(0, base.len() as int) =~= base);
        k = k + 1;
    }
    let ghost tail = out@.subrange(base.len() as int, out@.len() as int);
    assert forall|j: int| 0 <= j < tail.len() implies row_is(#[trigger] tail[j], market_rows(mid@, ob.state@, user)[j]) by {
        assert(tail[j] == out@[base.len() + j]);
    }
}

/// Settling a market freezes it in the registry: the settlement succeeds,
/// records the outcome and keeps the resting orders; afterwards a
/// placement in that market changes nothing and executes nothing, and a
/// replace there succeeds without change.
pub proof fn law_settled_market_frozen(v: EngineView, id: Seq<char>, yes: bool, o: NewOrder, r: ReplaceOrder)
    requires
        ids_sorted(v),
        index_of(v, id) >= 0,
        o.market_id@ == id,
        r.market_id@ == id,
    ensures
        ({
            let i = index_of(v, id);
            let v2 = engine_settle(v, id, yes).0;
            &&& engine_settle(v, id, yes).1 == Ok::<(), BookError>(())
            &&& v2[i].1.settled == Some(yes)
            &&& v2[i].1.bids == v[i].1.bids && v2[i].1.asks == v[i].1.asks
            &&& engine_place(v2, o).0 == v2
            &&& engine_place(v2, o).1 == Ok::<PlaceV, BookError>(
                PlaceV { book: v2[i].1, trades: seq![], stp: false, rested: false },
            )
            &&& engine_replace(v2, r) == (v2, Ok::<(), BookError>(()))
        }),
{
    let i = index_of(v, id);
    assert(market_at(v, id, i));
    let v2 = engine_settle(v, id, yes).0;
    assert(v2[i].0 == v[i].0);
    assert forall|a: int, b: int| 0 <= a < b < v2.len() implies seq_lt(#[trigger] v2[a].0.id@, #[trigger] v2[b].0.id@) by {
        assert(v2[a].0 == v[a].0 && v2[b].0 == v[b].0);
    }
    lemma_index_of(v2, i);
    assert(with_book(v2, i, v2[i].1) =~= v2);
}

/// Replay does what the live operation did: applying a logged placement,
/// cancel, replace or settlement to a registry gives exactly the registry
/// that `place_order`, `cancel_order`, `replace_order` or `settle_market`
/// leaves on it.
pub proof fn law_replay_record_is_live_operation(v: EngineView, o: NewOrder, m: MarketId, id: OrderId, r: ReplaceOrder, s: SettleRec)
    ensures
        apply_record(v, WalRecord::Place(o)) == engine_place(v, o).0,
        apply_record(v, WalRecord::Cancel { market_id: m, order_id: id }) == engine_cancel(v, m@, id).0,
        apply_record(v, WalRecord::Replace(r)) == engine_replace(v, r).0,
        apply_record(v, WalRecord::Settle { s }) == engine_settle(v, s.market_id@, s.resolve_yes).0,
{
}

/// A logged cancel stays done after recovery: replaying `Cancel { m, id }`
/// on a registry whose market `m` holds the order `id` once leaves no order
/// with that id in that market's book, and every other market as it was.
pub proof fn law_replayed_cancel_removes(v: EngineView, m: MarketId, id: OrderId)
    requires
        ids_sorted(v),
        index_of(v, m@) >= 0,
        id_once(v[index_of(v, m@)].1.bids, id),
        id_once(v[index_of(v, m@)].1.asks, id),
        !(has_id(v[index_of(v, m@)].1.bids, id) && has_id(v[index_of(v, m@)].1.asks, id)),
    ensures
        ({
            let i = index_of(v, m@);
            let w = apply_record(v, WalRecord::Cancel { market_id: m, order_id: id });
            &&& w.len() == v.len()
            &&& !has_id(w[i].1.bids, id)
            &&& !has_id(w[i].1.asks, id)
            &&& forall|j: int| 0 <= j < v.len() && j != i ==> #[trigger] w[j] == v[j]
        }),
{
    law_cancel_removes(v[index_of(v, m@)].1, id);
}

/// Why recovery stopped.
#[derive(Debug, Clone, Copy, PartialEq, Eq, Structural)]
pub enum RestoreError {
    /// The snapshot's books are not in market-id order or not well formed.
    BadSnapshot,
    /// A book's sequence number ran out of room during replay.
    SeqExhausted,
}

/// Books that can stand as a registry: ids strictly increasing, every
/// book well formed.
pub open spec fn books_ok(books: Seq<OrderBook>) -> bool {
    &&& ids_sorted(view_of(books))
    &&& forall|i: int| 0 <= i < books.len() ==> (#[trigger] books[i]).state.wf()
}

/// Every book's sequence number is far from overflowing.
pub open spec fn view_room(v: EngineView) -> bool {
    forall|i: int| 0 <= i < v.len() ==> #[trigger] v[i].1.seq < 0xffff_fffe_0000_0000
}

/// Whether each record of the log meets a registry with room to apply it.
pub open spec fn replay_in_room(v: EngineView, log: Seq<WalRecord>) -> bool
    decreases log.len(),
{
    if log.len() == 0 {
        true
    } else {
        view_room(v) && replay_in_room(apply_record(v, log[0]), log.drop_first())
    }
}

fn books_check(books: &Vec<OrderBook>) -> (res: bool)
    ensures
        res == books_ok(books@),
{
    let ghost v = view_of(books@);
    let mut i: usize = 0;
    while i < books.len()
        invariant
            v == view_of(books@),
            i <= books@.len(),
            forall|a: int, b: int| 0 <= a < b < i ==> seq_lt(#[trigger] v[a].0.id@, #[trigger] v[b].0.id@),
            forall|a: int| 0 <= a < i ==> (#[trigger] books@[a]).state.wf(),
        decreases books@.len() - i,
    {
        let ob = &books[i];
        assert(v[i as int].0.id@ == ob.state.market.id@);
        if !ob.state.check_wf() {
            return false;
        }
        if i > 0 {
            assert(v[i - 1].0.id@ == books@[i - 1].state.market.id@);
            if !str_lt(books[i - 1].state.market.id.as_str(), ob.state.market.id.as_str()) {
                assert(!ids_sorted(v)) by {
                    assert(!seq_lt(v[i - 1].0.id@, v[i as int].0.id@));
                }
                return false;
            }
            assert forall|a: int, b: int| 0 <= a < b < i + 1 implies seq_lt(#[trigger] v[a].0.id@, #[trigger] v[b].0.id@) by {
                if b == i && a < i - 1 {
                    lemma_seq_lt_transitive(v[a].0.id@, v[i - 1].0.id@, v[b].0.id@);
                }
            }
        }
        i = i + 1;
    }
    true
}

impl Engine {
    /// Recovery: the snapshot's books, when there is a snapshot, replace the
    /// registry; then the logged records after it are replayed in order.
    pub fn restore_from_latest(&mut self, snapshot: Option<Vec<OrderBook>>, records: Vec<WalRecord>) -> (res: Result<
        (),
        RestoreError,
    >)
        requires
            old(self).wf(),
        ensures
            final(self).wf(),
            snapshot matches Some(b) && !books_ok(b@) ==> res == Err::<(), RestoreError>(RestoreError::BadSnapshot)
                && final(self)@ == old(self)@,
            !(snapshot matches Some(b) && !books_ok(b@)) ==> ({
                let base = match snapshot {
                    Some(b) => view_of(b@),
                    None => old(self)@,
                };
                &&& (res is Ok <==> replay_in_room(base, records@))
                &&& (res is Ok ==> final(self)@ == replay(base, records@))
                &&& (res is Err ==> res == Err::<(), RestoreError>(RestoreError::SeqExhausted))
            }),
    {
        let ghost want = if snapshot is Some {
            view_of(snapshot->0@)
        } else {
            old(self)@
        };
        match snapshot {
            Some(books) => {
                if !books_check(&books) {
                    return Err(RestoreError::BadSnapshot);
                }
                self.markets = books;
            },
            None => {},
        }
        let ghost base = self@;
        let n = records.len();
        let mut i: usize = 0;
        assert(records@.subrange(0, n as int) =~= records@);
        while i < n
            invariant
                self.wf(),
                n == records@.len(),
                i <= n,
                base == want,
                want == match snapshot {
                    Some(b) => view_of(b@),
                    None => old(self)@,
                },
                !(snapshot matches Some(b) && !books_ok(b@)),
                replay(base, records@) == replay(self@, records@.subrange(i as int, n as int)),
                replay_in_room(base, records@) == replay_in_room(self@, records@.subrange(i as int, n as int)),
            decreases n - i,
        {
            let ghost rest = records@.subrange(i as int, n as int);
            assert(rest.drop_first() =~= records@.subrange(i + 1, n as int));
            assert(rest[0] == records@[i as int]);
            let room = self.has_room();
            assert(room <==> view_room(self@)) by {
                assert forall|k: int| 0 <= k < self@.len() implies (#[trigger] self@[k]).1.seq == self.markets@[k].state.seq by {}
                if view_room(self@) {
                    assert forall|k: int| 0 <= k < self.markets@.len() implies seq_room(#[trigger] self.markets@[k].state.seq) by {
                        assert(self@[k].1.seq < 0xffff_fffe_0000_0000);
                    }
                }
                if self.room() {
                    assert forall|k: int| 0 <= k < self@.len() implies #[trigger] self@[k].1.seq < 0xffff_fffe_0000_0000 by {
                        assert(seq_room(self.markets@[k].state.seq));
                    }
                }
            }
            if !room {
                return Err(RestoreError::SeqExhausted);
            }
            let rec = records[i].clone();
            self.apply_record(rec);
            i = i + 1;
        }
        assert(records@.subrange(n as int, n as int) =~= Seq::<WalRecord>::empty());
        Ok(())
    }
}

} // verus!
