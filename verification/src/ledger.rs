//! The simulated position ledger: net YES positions with volume-weighted
//! average entry prices, the fill log, and settlement P&L.
use vstd::prelude::*;
use crate::risk::Caps;
use crate::text::str_eq;
use crate::types::{Fill, Side, UserId};

verus! {

/// A user's position in one market.
#[derive(Debug, Clone, Copy, PartialEq, Eq, Structural)]
pub struct MarketPosition {
    /// Net YES contracts (positive = long YES, negative = short).
    pub qty_yes: i64,
    /// Volume-weighted average entry in cents (meaningful when qty sign matches).
    pub avg_price_cents: i64,
}

#[derive(Debug)]
pub struct PositionEntry {
    pub user: UserId,
    pub market_id: String,
    pub pos: MarketPosition,
}

/// A position as a value.
pub struct PosV {
    pub user: UserId,
    pub market: Seq<char>,
    pub pos: MarketPosition,
}

pub open spec fn pos_view(e: PositionEntry) -> PosV {
    PosV { user: e.user, market: e.market_id@, pos: e.pos }
}

pub open spec fn positions_view(s: Seq<PositionEntry>) -> Seq<PosV> {
    s.map_values(|e: PositionEntry| pos_view(e))
}

#[derive(Debug, Clone, Copy, PartialEq, Eq, Structural)]
pub enum LedgerError {
    PositionCap,
    NotionalCap,
}

/// The text a cap refusal is reported with.
pub open spec fn ledger_message(e: LedgerError) -> Seq<char> {
    match e {
        LedgerError::PositionCap => "position cap"@,
        LedgerError::NotionalCap => "notional cap"@,
    }
}

impl LedgerError {
    pub fn message(&self) -> (s: &'static str)
        ensures
            s@ == ledger_message(*self),
    {
        match self {
            LedgerError::PositionCap => "position cap",
            LedgerError::NotionalCap => "notional cap",
        }
    }
}

pub open spec fn abs(x: int) -> int {
    if x < 0 {
        -x
    } else {
        x
    }
}

pub open spec fn signum(x: int) -> int {
    if x > 0 {
        1
    } else if x < 0 {
        -1
    } else {
        0
    }
}

/// A position's average entry is a price in cents.
pub open spec fn pos_wf(p: MarketPosition) -> bool {
    0 <= p.avg_price_cents <= u32::MAX
}

/// Whether moving the position by `dq` at `price` keeps the arithmetic in
/// `i64`: the new size, and, when adding in the same direction or from flat,
/// the absolute old and new sizes and the volume-weighted sum.
pub open spec fn adjust_ok(p: MarketPosition, dq: int, price: int) -> bool {
    let old = p.qty_yes as int;
    let new = old + dq;
    &&& i64::MIN <= new <= i64::MAX
    &&& (old == 0 || signum(old) == signum(dq)) ==> {
        &&& old > i64::MIN
        &&& new > i64::MIN
        &&& p.avg_price_cents * abs(old) <= i64::MAX
        &&& price * abs(dq) <= i64::MAX
        &&& p.avg_price_cents * abs(old) + price * abs(dq) <= i64::MAX
    }
}

/// Moving a position by `dq` contracts at `price`: adding in the same
/// direction (or from flat) re-averages the entry price by volume; reducing
/// or flipping keeps the residual at `price` (0 when flat).
pub open spec fn adjust(p: MarketPosition, dq: int, price: int) -> MarketPosition {
    let old = p.qty_yes as int;
    let new = old + dq;
    if old == 0 || signum(old) == signum(dq) {
        let num = p.avg_price_cents * abs(old) + price * abs(dq);
        let den = abs(new);
        MarketPosition { qty_yes: new as i64, avg_price_cents: if den > 0 { (num / den) as i64 } else { 0 } }
    } else {
        MarketPosition { qty_yes: new as i64, avg_price_cents: if new == 0 { 0 } else { price as i64 } }
    }
}

pub open spec fn key_at(s: Seq<PosV>, user: UserId, m: Seq<char>, i: int) -> bool {
    0 <= i < s.len() && s[i].user == user && s[i].market == m
}

/// Position of the (user, market) entry, or -1.
pub open spec fn key_index(s: Seq<PosV>, user: UserId, m: Seq<char>) -> int {
    if exists|i: int| key_at(s, user, m, i) {
        choose|i: int| key_at(s, user, m, i)
    } else {
        -1
    }
}

/// The user's net position in the market (0 when there is none).
pub open spec fn position_qty(s: Seq<PosV>, user: UserId, m: Seq<char>) -> int {
    let i = key_index(s, user, m);
    if i >= 0 {
        s[i].pos.qty_yes as int
    } else {
        0
    }
}

/// Adjusts one (user, market) entry, creating it flat first when missing.
pub open spec fn adjust_entry(s: Seq<PosV>, user: UserId, m: Seq<char>, dq: int, price: int) -> Seq<PosV> {
    let i = key_index(s, user, m);
    if i >= 0 {
        s.update(i, PosV { user, market: m, pos: adjust(s[i].pos, dq, price) })
    } else {
        s.push(PosV { user, market: m, pos: adjust(MarketPosition { qty_yes: 0, avg_price_cents: 0 }, dq, price) })
    }
}

/// A fill moves the buyer up and the seller down by its size at its price.
pub open spec fn apply_fill(s: Seq<PosV>, f: Fill) -> Seq<PosV> {
    let s1 = adjust_entry(s, f.buyer, f.market_id@, f.qty as int, f.price as int);
    adjust_entry(s1, f.seller, f.market_id@, -(f.qty as int), f.price as int)
}

pub open spec fn apply_fills_spec(s: Seq<PosV>, fs: Seq<Fill>) -> Seq<PosV>
    decreases fs.len(),
{
    if fs.len() == 0 {
        s
    } else {
        apply_fills_spec(apply_fill(s, fs[0]), fs.drop_first())
    }
}

/// Entries are distinct by (user, market) and within bounds.
pub open spec fn positions_wf(s: Seq<PosV>) -> bool {
    &&& forall|i: int, j: int|
        0 <= i < j < s.len() ==> !(#[trigger] s[i].user == #[trigger] s[j].user && s[i].market == s[j].market)
    &&& forall|i: int| 0 <= i < s.len() ==> pos_wf(#[trigger] s[i].pos)
}

/// The (user, market) position, flat when there is none.
pub open spec fn entry_pos(s: Seq<PosV>, user: UserId, m: Seq<char>) -> MarketPosition {
    let i = key_index(s, user, m);
    if i >= 0 {
        s[i].pos
    } else {
        MarketPosition { qty_yes: 0, avg_price_cents: 0 }
    }
}

/// Whether adjusting the (user, market) entry stays in `i64`.
pub open spec fn adjust_entry_ok(s: Seq<PosV>, user: UserId, m: Seq<char>, dq: int, price: int) -> bool {
    adjust_ok(entry_pos(s, user, m), dq, price)
}

/// Whether applying the fill stays in `i64`, for the buyer and then the seller.
pub open spec fn fill_ok(s: Seq<PosV>, f: Fill) -> bool {
    &&& adjust_entry_ok(s, f.buyer, f.market_id@, f.qty as int, f.price as int)
    &&& adjust_entry_ok(
        adjust_entry(s, f.buyer, f.market_id@, f.qty as int, f.price as int),
        f.seller,
        f.market_id@,
        -(f.qty as int),
        f.price as int,
    )
}

/// Whether applying the fills in order stays in `i64` throughout.
pub open spec fn fills_ok(s: Seq<PosV>, fs: Seq<Fill>) -> bool
    decreases fs.len(),
{
    if fs.len() == 0 {
        true
    } else {
        fill_ok(s, fs[0]) && fills_ok(apply_fill(s, fs[0]), fs.drop_first())
    }
}

/// The size change an order asks for if it fills in full.
pub open spec fn side_delta(side: Side, qty: u32) -> int {
    if side == Side::Buy {
        qty as int
    } else {
        -(qty as int)
    }
}

/// Whether the position check runs within `i64`: the position after the
/// order and its absolute value fit, and so does the notional whenever
/// the position cap does not already refuse.
pub open spec fn intent_fits(s: Seq<PosV>, user: UserId, side: Side, qty: u32, price_cents: i64, m: Seq<char>, caps: Caps) -> bool {
    let new = position_qty(s, user, m) + side_delta(side, qty);
    &&& i64::MIN < new <= i64::MAX
    &&& (abs(new) <= caps.max_position ==> i64::MIN <= abs(new) * price_cents <= i64::MAX)
}

/// What a new order must satisfy: the position after it, in full, within
/// the position cap and its notional within the notional cap.
pub open spec fn intent_spec(s: Seq<PosV>, user: UserId, side: Side, qty: u32, price_cents: i64, m: Seq<char>, caps: Caps) -> Result<
    (),
    LedgerError,
> {
    let delta = if side == Side::Buy { qty as int } else { -(qty as int) };
    let new = position_qty(s, user, m) + delta;
    if abs(new) > caps.max_position {
        Err(LedgerError::PositionCap)
    } else if abs(new) * price_cents > caps.max_notional_cents {
        Err(LedgerError::NotionalCap)
    } else {
        Ok(())
    }
}

/// Adds `amount` to the user's realized P&L (starting from 0).
pub open spec fn add_pnl(p: Seq<(UserId, i64)>, user: UserId, amount: int) -> Seq<(UserId, i64)> {
    if exists|i: int| pnl_at(p, user, i) {
        let i = choose|i: int| pnl_at(p, user, i);
        p.update(i, (user, (p[i].1 + amount) as i64))
    } else {
        p.push((user, amount as i64))
    }
}

pub open spec fn pnl_at(p: Seq<(UserId, i64)>, user: UserId, i: int) -> bool {
    0 <= i < p.len() && p[i].0 == user
}

pub open spec fn pnl_users_unique(p: Seq<(UserId, i64)>) -> bool {
    forall|i: int, j: int| 0 <= i < j < p.len() ==> #[trigger] p[i].0 != #[trigger] p[j].0
}

pub open spec fn settle_px(resolve_yes: bool) -> int {
    if resolve_yes {
        100
    } else {
        0
    }
}

/// Whether settlement closes this entry: it is in the market and not flat.
pub open spec fn closed_by(e: PosV, m: Seq<char>) -> bool {
    e.market == m && e.pos.qty_yes != 0
}

/// Settlement of market `m`: every non-flat position in it is valued at
/// 100¢ (YES) or 0¢ (NO) per contract against its average entry, the
/// difference is added to its user's realized P&L, and the position is
/// removed; flat positions stay. Positions are visited in ledger order.
pub open spec fn settle_spec(s: Seq<PosV>, p: Seq<(UserId, i64)>, m: Seq<char>, yes: bool) -> (Seq<PosV>, Seq<(UserId, i64)>)
    decreases s.len(),
{
    if s.len() == 0 {
        (s, p)
    } else {
        let (s1, p1) = settle_spec(s.drop_last(), p, m, yes);
        let e = s.last();
        if closed_by(e, m) {
            (s1, add_pnl(p1, e.user, e.pos.qty_yes * (settle_px(yes) - e.pos.avg_price_cents)))
        } else {
            (s1.push(e), p1)
        }
    }
}

/// The position log of the simulation.
pub struct Ledger {
    pub positions: Vec<PositionEntry>,
    pub fills: Vec<Fill>,
    pub realized_pnl_cents: Vec<(UserId, i64)>,
}

impl Ledger {
    pub open spec fn pos(&self) -> Seq<PosV> {
        positions_view(self.positions@)
    }

    pub open spec fn wf(&self) -> bool {
        positions_wf(self.pos()) && pnl_users_unique(self.realized_pnl_cents@)
    }

    pub fn new() -> (l: Self)
        ensures
            l.wf(),
            l.pos().len() == 0,
            l.fills@.len() == 0,
            l.realized_pnl_cents@.len() == 0,
    {
        let l = Ledger { positions: Vec::new(), fills: Vec::new(), realized_pnl_cents: Vec::new() };
        assert(l.pos() =~= Seq::<PosV>::empty());
        l
    }

    fn find_key(&self, user: UserId, m: &str) -> (res: Option<usize>)
        requires
            self.wf(),
        ensures
            match res {
                Some(i) => i < self.positions@.len() && i as int == key_index(self.pos(), user, m@),
                None => key_index(self.pos(), user, m@) < 0,
            },
    {
        let ghost s = self.pos();
        let mut i: usize = 0;
        while i < self.positions.len()
            invariant
                self.wf(),
                s == self.pos(),
                i <= self.positions@.len(),
                forall|j: int| 0 <= j < i ==> !key_at(s, user, m@, j),
            decreases self.positions@.len() - i,
        {
            let e = &self.positions[i];
            if e.user == user && str_eq(e.market_id.as_str(), m) {
                proof {
                    assert(key_at(s, user, m@, i as int));
                    let k = choose|k: int| key_at(s, user, m@, k);
                    if k != i {
                        if k < i {
                            assert(!key_at(s, user, m@, k));
                        } else {
                            assert(s[i as int].user == s[k].user && s[i as int].market == s[k].market);
                        }
                    }
                }
                return Some(i);
            }
            i = i + 1;
        }
        assert(!exists|j: int| key_at(s, user, m@, j));
        None
    }

    /// Refuses an order whose full execution would take the user's position
    /// in the market beyond the position cap, or its notional (position ×
    /// price) beyond the notional cap.
    pub fn check_intent(&self, user: UserId, side: Side, qty: u32, price_cents: i64, market_id: &str, caps: &Caps) -> (res:
        Result<(), LedgerError>)
        requires
            self.wf(),
            intent_fits(self.pos(), user, side, qty, price_cents, market_id@, *caps),
        ensures
            res == intent_spec(self.pos(), user, side, qty, price_cents, market_id@, *caps),
    {
        let delta: i64 = if side == Side::Buy { qty as i64 } else { -(qty as i64) };
        let cur: i64 = match self.find_key(user, market_id) {
            Some(i) => {
                assert(pos_wf(self.pos()[i as int].pos));
                self.positions[i].pos.qty_yes
            },
            None => 0,
        };
        let new: i64 = cur + delta;
        let a: i64 = if new < 0 { -new } else { new };
        if a > caps.max_position {
            return Err(LedgerError::PositionCap);
        }
        if a * price_cents > caps.max_notional_cents {
            return Err(LedgerError::NotionalCap);
        }
        Ok(())
    }

    /// Whether `check_intent` can run on these arguments without overflow.
    pub fn intent_in_range(&self, user: UserId, side: Side, qty: u32, price_cents: i64, market_id: &str, caps: &Caps) -> (res:
        bool)
        requires
            self.wf(),
        ensures
            res == intent_fits(self.pos(), user, side, qty, price_cents, market_id@, *caps),
    {
        let delta: i128 = if side == Side::Buy { qty as i128 } else { -(qty as i128) };
        let cur: i128 = match self.find_key(user, market_id) {
            Some(i) => self.positions[i].pos.qty_yes as i128,
            None => 0,
        };
        let new: i128 = cur + delta;
        if new <= -0x8000_0000_0000_0000i128 || new > 0x7fff_ffff_ffff_ffffi128 {
            return false;
        }
        let a: i128 = if new < 0 { -new } else { new };
        if a > caps.max_position as i128 {
            return true;
        }
        let pc = price_cents as i128;
        assert(-0x8000_0000_0000_0000 * 0x8000_0000_0000_0000 <= a * pc <= 0x8000_0000_0000_0000 * 0x8000_0000_0000_0000)
            by (nonlinear_arith)
            requires
                0 <= a <= 0x8000_0000_0000_0000,
                -0x8000_0000_0000_0000 <= pc <= 0x7fff_ffff_ffff_ffff,
        ;
        let prod: i128 = a * pc;
        -0x8000_0000_0000_0000i128 <= prod && prod <= 0x7fff_ffff_ffff_ffffi128
    }
}

/// Moves a position by `dq` at `price` (see `adjust`).
fn adjust_pos(p: MarketPosition, dq: i64, price: i64) -> (r: MarketPosition)
    requires
        pos_wf(p),
        0 <= price <= u32::MAX,
        abs(dq as int) <= u32::MAX,
        adjust_ok(p, dq as int, price as int),
    ensures
        r == adjust(p, dq as int, price as int),
        pos_wf(r),
{
    let old = p.qty_yes;
    let new: i64 = old + dq;
    let so: i64 = if old > 0 { 1 } else if old < 0 { -1 } else { 0 };
    let sd: i64 = if dq > 0 { 1 } else if dq < 0 { -1 } else { 0 };
    if old == 0 || so == sd {
        let ao: i64 = if old < 0 { -old } else { old };
        let ad: i64 = if dq < 0 { -dq } else { dq };
        let den: i64 = if new < 0 { -new } else { new };
        assert(den == ao + ad);
        let avg = p.avg_price_cents;
        assert(avg * ao <= u32::MAX * ao) by (nonlinear_arith)
            requires
                0 <= avg <= u32::MAX,
                ao >= 0,
        ;
        assert(price * ad <= u32::MAX * ad) by (nonlinear_arith)
            requires
                0 <= price <= u32::MAX,
                ad >= 0,
        ;
        assert(0 <= avg * ao && 0 <= price * ad) by (nonlinear_arith)
            requires
                0 <= avg,
                ao >= 0,
                0 <= price,
                ad >= 0,
        ;
        assert(u32::MAX * ao + u32::MAX * ad == u32::MAX * den) by (nonlinear_arith)
            requires
                den == ao + ad,
        ;
        let num: i64 = avg * ao + price * ad;
        let a: i64 = if den > 0 {
            let q: u64 = (num as u64) / (den as u64);
            assert(q <= u32::MAX) by (nonlinear_arith)
                requires
                    q == (num as u64) / (den as u64),
                    num <= u32::MAX * den,
                    den > 0,
                    num >= 0,
            ;
            q as i64
        } else {
            0
        };
        MarketPosition { qty_yes: new, avg_price_cents: a }
    } else {
        MarketPosition { qty_yes: new, avg_price_cents: if new == 0 { 0 } else { price } }
    }
}

/// The user's positions (market and position), in ledger order.
pub open spec fn user_positions(s: Seq<PosV>, user: UserId) -> Seq<(Seq<char>, MarketPosition)>
    decreases s.len(),
{
    if s.len() == 0 {
        seq![]
    } else {
        let d = user_positions(s.drop_last(), user);
        if s.last().user == user {
            d.push((s.last().market, s.last().pos))
        } else {
            d
        }
    }
}

/// Number of fills and traded notional (Σ price × qty, in cents) in a market.
pub open spec fn trade_stats(fs: Seq<Fill>, m: Seq<char>) -> (int, int)
    decreases fs.len(),
{
    if fs.len() == 0 {
        (0, 0)
    } else {
        let (n, v) = trade_stats(fs.drop_last(), m);
        if fs.last().market_id@ == m {
            (n + 1, v + fs.last().price * fs.last().qty)
        } else {
            (n, v)
        }
    }
}

fn sign(x: i128) -> (res: i128)
    ensures
        res == signum(x as int),
{
    if x > 0 {
        1
    } else if x < 0 {
        -1
    } else {
        0
    }
}

/// Checks `adjust_ok` at run time.
fn adjust_fits(p: MarketPosition, dq: i64, price: i64) -> (res: bool)
    requires
        pos_wf(p),
        0 <= price <= u32::MAX,
        abs(dq as int) <= u32::MAX,
    ensures
        res == adjust_ok(p, dq as int, price as int),
{
    let old: i128 = p.qty_yes as i128;
    let d: i128 = dq as i128;
    let new: i128 = old + d;
    if new < -0x8000_0000_0000_0000i128 || new > 0x7fff_ffff_ffff_ffffi128 {
        return false;
    }
    if old == 0 || sign(old) == sign(d) {
        if old == -0x8000_0000_0000_0000i128 || new == -0x8000_0000_0000_0000i128 {
            return false;
        }
        let ao: i128 = if old < 0 { -old } else { old };
        let ad: i128 = if d < 0 { -d } else { d };
        let avg: i128 = p.avg_price_cents as i128;
        let pr: i128 = price as i128;
        assert(0 <= avg * ao <= 0xffff_ffff * 0x8000_0000_0000_0000) by (nonlinear_arith)
            requires
                0 <= avg <= 0xffff_ffff,
                0 <= ao <= 0x8000_0000_0000_0000,
        ;
        assert(0 <= pr * ad <= 0xffff_ffff * 0xffff_ffff) by (nonlinear_arith)
            requires
                0 <= pr <= 0xffff_ffff,
                0 <= ad <= 0xffff_ffff,
        ;
        let x: i128 = avg * ao;
        let y: i128 = pr * ad;
        x <= 0x7fff_ffff_ffff_ffffi128 && y <= 0x7fff_ffff_ffff_ffffi128 && x + y <= 0x7fff_ffff_ffff_ffffi128
    } else {
        true
    }
}

fn clone_positions(v: &Vec<PositionEntry>) -> (res: Vec<PositionEntry>)
    ensures
        positions_view(res@) == positions_view(v@),
{
    let mut out: Vec<PositionEntry> = Vec::new();
    let mut i: usize = 0;
    while i < v.len()
        invariant
            i <= v@.len(),
            out@.len() == i,
            positions_view(out@) == positions_view(v@.subrange(0, i as int)),
        decreases v@.len() - i,
    {
        let e = &v[i];
        let ghost before = out@;
        out.push(PositionEntry { user: e.user, market_id: e.market_id.clone(), pos: e.pos });
        assert forall|j: int| 0 <= j < i + 1 implies #[trigger] positions_view(out@)[j] == positions_view(
            v@.subrange(0, i + 1),
        )[j] by {
            if j < i {
                assert(out@[j] == before[j]);
                assert(positions_view(before)[j] == positions_view(v@.subrange(0, i as int))[j]);
            }
        }
        assert(positions_view(out@) =~= positions_view(v@.subrange(0, i + 1)));
        i = i + 1;
    }
    assert(v@.subrange(0, v@.len() as int) =~= v@);
    out
}

impl Ledger {
    /// Checks `adjust_entry_ok` at run time.
    fn entry_fits(&self, user: UserId, m: &str, dq: i64, price: i64) -> (res: bool)
        requires
            self.wf(),
            0 <= price <= u32::MAX,
            abs(dq as int) <= u32::MAX,
        ensures
            res == adjust_entry_ok(self.pos(), user, m@, dq as int, price as int),
    {
        match self.find_key(user, m) {
            Some(i) => {
                assert(self.pos()[i as int].pos == self.positions@[i as int].pos);
                assert(pos_wf(self.pos()[i as int].pos));
                adjust_fits(self.positions[i].pos, dq, price)
            },
            None => adjust_fits(MarketPosition { qty_yes: 0, avg_price_cents: 0 }, dq, price),
        }
    }

    fn adjust_entry_exec(&mut self, user: UserId, m: &String, dq: i64, price: i64)
        requires
            old(self).wf(),
            0 <= price <= u32::MAX,
            abs(dq as int) <= u32::MAX,
            adjust_entry_ok(old(self).pos(), user, m@, dq as int, price as int),
        ensures
            final(self).wf(),
            final(self).pos() == adjust_entry(old(self).pos(), user, m@, dq as int, price as int),
            final(self).fills@ == old(self).fills@,
            final(self).realized_pnl_cents@ == old(self).realized_pnl_cents@,
    {
        let ghost s0 = self.pos();
        match self.find_key(user, m.as_str()) {
            Some(i) => {
                assert(pos_wf(s0[i as int].pos));
                assert(entry_pos(s0, user, m@) == s0[i as int].pos);
                let e = self.positions.remove(i);
                let np = adjust_pos(e.pos, dq, price);
                self.positions.insert(i, PositionEntry { user: e.user, market_id: e.market_id, pos: np });
                assert(self.pos() =~= s0.update(i as int, PosV { user, market: m@, pos: np }));
                assert forall|a: int, b: int| 0 <= a < b < self.pos().len() implies !(#[trigger] self.pos()[a].user
                    == #[trigger] self.pos()[b].user && self.pos()[a].market == self.pos()[b].market) by {
                    assert(s0[a].user == self.pos()[a].user && s0[a].market == self.pos()[a].market);
                    assert(s0[b].user == self.pos()[b].user && s0[b].market == self.pos()[b].market);
                }
                assert forall|a: int| 0 <= a < self.pos().len() implies pos_wf(#[trigger] self.pos()[a].pos) by {
                    if a != i {
                        assert(self.pos()[a] == s0[a]);
                    }
                }
            },
            None => {
                let zero = MarketPosition { qty_yes: 0, avg_price_cents: 0 };
                let np = adjust_pos(zero, dq, price);
                self.positions.push(PositionEntry { user, market_id: m.clone(), pos: np });
                assert(self.pos() =~= s0.push(PosV { user, market: m@, pos: np }));
                assert forall|a: int, b: int| 0 <= a < b < self.pos().len() implies !(#[trigger] self.pos()[a].user
                    == #[trigger] self.pos()[b].user && self.pos()[a].market == self.pos()[b].market) by {
                    if b == s0.len() {
                        assert(self.pos()[a] == s0[a]);
                        assert(!key_at(s0, user, m@, a));
                    } else {
                        assert(self.pos()[a] == s0[a] && self.pos()[b] == s0[b]);
                    }
                }
                assert forall|a: int| 0 <= a < self.pos().len() implies pos_wf(#[trigger] self.pos()[a].pos) by {
                    if a < s0.len() {
                        assert(self.pos()[a] == s0[a]);
                    }
                }
            },
        }
    }

    /// Whether applying these fills in order keeps all the position
    /// arithmetic within `i64` (see `fills_ok`).
    pub fn fills_in_range(&self, fills: &Vec<Fill>) -> (res: bool)
        requires
            self.wf(),
        ensures
            res == fills_ok(self.pos(), fills@),
    {
        let mut scratch = Ledger {
            positions: clone_positions(&self.positions),
            fills: Vec::new(),
            realized_pnl_cents: Vec::new(),
        };
        assert(scratch.pos() == self.pos());
        let ghost fs = fills@;
        let n = fills.len();
        let mut k: usize = 0;
        assert(fs.subrange(0, n as int) =~= fs);
        while k < n
            invariant
                k <= n,
                n == fs.len(),
                fs == fills@,
                scratch.wf(),
                fills_ok(self.pos(), fs) == fills_ok(scratch.pos(), fs.subrange(k as int, n as int)),
            decreases n - k,
        {
            let f = &fills[k];
            proof {
                let rest = fs.subrange(k as int, n as int);
                assert(rest.drop_first() =~= fs.subrange(k + 1, n as int));
                assert(rest[0] == fs[k as int]);
            }
            if !scratch.entry_fits(f.buyer, f.market_id.as_str(), f.qty as i64, f.price as i64) {
                return false;
            }
            scratch.adjust_entry_exec(f.buyer, &f.market_id, f.qty as i64, f.price as i64);
            if !scratch.entry_fits(f.seller, f.market_id.as_str(), -(f.qty as i64), f.price as i64) {
                return false;
            }
            scratch.adjust_entry_exec(f.seller, &f.market_id, -(f.qty as i64), f.price as i64);
            k = k + 1;
        }
        assert(fs.subrange(n as int, n as int) =~= Seq::<Fill>::empty());
        true
    }

    /// Logs the fills and moves positions: each buyer up and each seller
    /// down by the fill size at the fill price, in order.
    pub fn apply_fills(&mut self, fills: &Vec<Fill>)
        requires
            old(self).wf(),
            fills_ok(old(self).pos(), fills@),
        ensures
            final(self).wf(),
            final(self).pos() == apply_fills_spec(old(self).pos(), fills@),
            final(self).fills@ == old(self).fills@ + fills@,
            final(self).realized_pnl_cents@ == old(self).realized_pnl_cents@,
    {
        let ghost s0 = self.pos();
        let ghost f0 = self.fills@;
        let ghost fs = fills@;
        let n = fills.len();
        let mut k: usize = 0;
        assert(fs.subrange(0, n as int) =~= fs);
        assert(fs.subrange(0, 0) =~= Seq::<Fill>::empty());
        assert(f0 + Seq::<Fill>::empty() =~= f0);
        while k < n
            invariant
                k <= n,
                n == fs.len(),
                fs == fills@,
                self.wf(),
                apply_fills_spec(s0, fs) == apply_fills_spec(self.pos(), fs.subrange(k as int, n as int)),
                fills_ok(self.pos(), fs.subrange(k as int, n as int)),
                self.fills@ == f0 + fs.subrange(0, k as int),
                self.realized_pnl_cents@ == old(self).realized_pnl_cents@,
            decreases n - k,
        {
            let f = &fills[k];
            proof {
                let rest = fs.subrange(k as int, n as int);
                assert(rest.drop_first() =~= fs.subrange(k + 1, n as int));
                assert(rest[0] == fs[k as int]);
            }
            self.adjust_entry_exec(f.buyer, &f.market_id, f.qty as i64, f.price as i64);
            self.adjust_entry_exec(f.seller, &f.market_id, -(f.qty as i64), f.price as i64);
            self.fills.push(f.clone());
            assert(self.fills@ =~= f0 + fs.subrange(0, k + 1));
            k = k + 1;
        }
    }

    /// The user's positions, in ledger order.
    pub fn positions_for_user(&self, user: UserId) -> (res: Vec<(String, MarketPosition)>)
        ensures
            res@.len() == user_positions(self.pos(), user).len(),
            forall|i: int| 0 <= i < res@.len() ==> (#[trigger] res@[i]).0@ == user_positions(self.pos(), user)[i].0
                && res@[i].1 == user_positions(self.pos(), user)[i].1,
    {
        let ghost s = self.pos();
        let mut out: Vec<(String, MarketPosition)> = Vec::new();
        let mut i: usize = 0;
        assert(s.subrange(0, 0) =~= Seq::<PosV>::empty());
        while i < self.positions.len()
            invariant
                i <= s.len(),
                s == self.pos(),
                out@.len() == user_positions(s.subrange(0, i as int), user).len(),
                forall|j: int| 0 <= j < out@.len() ==> (#[trigger] out@[j]).0@ == user_positions(
                    s.subrange(0, i as int),
                    user,
                )[j].0 && out@[j].1 == user_positions(s.subrange(0, i as int), user)[j].1,
            decreases s.len() - i,
        {
            assert(s.subrange(0, i + 1).drop_last() =~= s.subrange(0, i as int));
            let e = &self.positions[i];
            if e.user == user {
                out.push((e.market_id.clone(), e.pos));
            }
            i = i + 1;
        }
        assert(s.subrange(0, s.len() as int) =~= s);
        out
    }

    /// The `limit` most recent fills, newest first.
    pub fn recent_fills(&self, limit: usize) -> (res: Vec<Fill>)
        ensures
            res@.len() == if limit < self.fills@.len() { limit as int } else { self.fills@.len() as int },
            forall|i: int| 0 <= i < res@.len() ==> #[trigger] res@[i] == self.fills@[self.fills@.len() - 1 - i],
    {
        let n = self.fills.len();
        let mut out: Vec<Fill> = Vec::new();
        let mut i: usize = 0;
        while i < n && i < limit
            invariant
                i <= n,
                i <= limit,
                n == self.fills@.len(),
                out@.len() == i,
                forall|j: int| 0 <= j < i ==> #[trigger] out@[j] == self.fills@[n - 1 - j],
            decreases n - i,
        {
            out.push(self.fills[n - 1 - i].clone());
            i = i + 1;
        }
        out
    }

    /// Number of fills and traded notional in cents of one market.
    pub fn market_trade_stats(&self, market_id: &str) -> (res: (u64, u128))
        requires
            self.fills@.len() <= u64::MAX,
        ensures
            res.0 as int == trade_stats(self.fills@, market_id@).0,
            res.1 as int == trade_stats(self.fills@, market_id@).1,
    {
        let ghost fs = self.fills@;
        let mut n: u64 = 0;
        let mut v: u128 = 0;
        let mut i: usize = 0;
        assert(fs.subrange(0, 0) =~= Seq::<Fill>::empty());
        while i < self.fills.len()
            invariant
                i <= fs.len(),
                fs == self.fills@,
                fs.len() <= u64::MAX,
                n as int == trade_stats(fs.subrange(0, i as int), market_id@).0,
                v as int == trade_stats(fs.subrange(0, i as int), market_id@).1,
                n <= i,
                v <= i * 0xffff_fffe_0000_0001,
            decreases fs.len() - i,
        {
            assert(fs.subrange(0, i + 1).drop_last() =~= fs.subrange(0, i as int));
            let f = &self.fills[i];
            if str_eq(f.market_id.as_str(), market_id) {
                let p128: u128 = f.price as u128;
                let q128: u128 = f.qty as u128;
                assert(p128 * q128 <= 0xffff_fffe_0000_0001) by (nonlinear_arith)
                    requires
                        p128 <= u32::MAX,
                        q128 <= u32::MAX,
                ;
                let pq: u128 = p128 * q128;
                assert(v + pq <= (i + 1) * 0xffff_fffe_0000_0001 <= u128::MAX) by (nonlinear_arith)
                    requires
                        v <= i * 0xffff_fffe_0000_0001,
                        pq <= 0xffff_fffe_0000_0001,
                        i < 0x1_0000_0000_0000_0000,
                ;
                n = n + 1;
                v = v + pq;
            }
            i = i + 1;
        }
        assert(fs.subrange(0, fs.len() as int) =~= fs);
        (n, v)
    }
}


/// The user's realized P&L (0 when there is none yet).
pub open spec fn pnl_of(p: Seq<(UserId, i64)>, user: UserId) -> int {
    if exists|i: int| pnl_at(p, user, i) {
        p[choose|i: int| pnl_at(p, user, i)].1 as int
    } else {
        0
    }
}

/// What settling a position moves its user's P&L by.
pub open spec fn settle_move(e: PosV, yes: bool) -> int {
    e.pos.qty_yes * (settle_px(yes) - e.pos.avg_price_cents)
}

/// Whether settling market `m` keeps the arithmetic in `i64`: each closed
/// position's move, and its user's P&L after adding it, in ledger order.
pub open spec fn settle_ok(s: Seq<PosV>, p: Seq<(UserId, i64)>, m: Seq<char>, yes: bool) -> bool
    decreases s.len(),
{
    if s.len() == 0 {
        true
    } else {
        let e = s.last();
        &&& settle_ok(s.drop_last(), p, m, yes)
        &&& closed_by(e, m) ==> {
            &&& i64::MIN <= settle_move(e, yes) <= i64::MAX
            &&& i64::MIN <= pnl_of(settle_spec(s.drop_last(), p, m, yes).1, e.user) + settle_move(e, yes) <= i64::MAX
        }
    }
}

proof fn lemma_settle_ok_prefix(s: Seq<PosV>, p: Seq<(UserId, i64)>, m: Seq<char>, yes: bool, k: int)
    requires
        settle_ok(s, p, m, yes),
        0 <= k <= s.len(),
    ensures
        settle_ok(s.subrange(0, k), p, m, yes),
    decreases s.len(),
{
    if k < s.len() {
        assert(s.drop_last().subrange(0, k) =~= s.subrange(0, k));
        lemma_settle_ok_prefix(s.drop_last(), p, m, yes, k);
    } else {
        assert(s.subrange(0, k) =~= s);
    }
}

proof fn lemma_pnl_choose(p: Seq<(UserId, i64)>, user: UserId, j: int)
    requires
        pnl_users_unique(p),
        pnl_at(p, user, j),
    ensures
        (choose|i: int| pnl_at(p, user, i)) == j,
{
    let c = choose|i: int| pnl_at(p, user, i);
    if c != j {
        if c < j {
            assert(p[c].0 != p[j].0);
        } else {
            assert(p[j].0 != p[c].0);
        }
    }
}

fn find_user(p: &Vec<(UserId, i64)>, user: UserId) -> (res: Option<usize>)
    ensures
        match res {
            Some(j) => pnl_at(p@, user, j as int),
            None => !exists|j: int| pnl_at(p@, user, j),
        },
{
    let mut j: usize = 0;
    while j < p.len()
        invariant
            j <= p@.len(),
            forall|k: int| 0 <= k < j ==> !pnl_at(p@, user, k),
        decreases p@.len() - j,
    {
        if p[j].0 == user {
            return Some(j);
        }
        j = j + 1;
    }
    None
}

/// The user's current P&L.
fn pnl_value(p: &Vec<(UserId, i64)>, user: UserId) -> (res: i64)
    requires
        pnl_users_unique(p@),
    ensures
        res == pnl_of(p@, user),
{
    match find_user(p, user) {
        Some(j) => {
            proof {
                lemma_pnl_choose(p@, user, j as int);
            }
            p[j].1
        },
        None => 0,
    }
}

/// Adds `mv` to the user's P&L (see `add_pnl`).
fn credit(p: &mut Vec<(UserId, i64)>, user: UserId, mv: i64)
    requires
        pnl_users_unique(old(p)@),
        i64::MIN <= pnl_of(old(p)@, user) + mv <= i64::MAX,
    ensures
        final(p)@ == add_pnl(old(p)@, user, mv as int),
        pnl_users_unique(final(p)@),
{
    let ghost pb = p@;
    match find_user(p, user) {
        Some(j) => {
            proof {
                lemma_pnl_choose(pb, user, j as int);
            }
            let v = p[j].1;
            p.set(j, (user, v + mv));
            assert(p@ =~= add_pnl(pb, user, mv as int));
        },
        None => {
            p.push((user, mv));
            assert(p@ =~= add_pnl(pb, user, mv as int));
        },
    }
    assert forall|a: int, b: int| 0 <= a < b < p@.len() implies #[trigger] p@[a].0 != #[trigger] p@[b].0 by {
        if b == pb.len() {
            assert(!pnl_at(pb, user, a));
        } else {
            assert(pb[a].0 != pb[b].0);
        }
    }
}

/// The move of settling a position at `px`, computed without overflow.
fn move_of(pos: MarketPosition, px: i64) -> (res: i128)
    requires
        pos_wf(pos),
        0 <= px <= 100,
    ensures
        res == pos.qty_yes * (px - pos.avg_price_cents),
{
    let q: i128 = pos.qty_yes as i128;
    let d: i128 = px as i128 - pos.avg_price_cents as i128;
    assert(-0x8000_0000_0000_0000 * 0x1_0000_0000 <= q * d <= 0x8000_0000_0000_0000 * 0x1_0000_0000) by (nonlinear_arith)
        requires
            -0x8000_0000_0000_0000 <= q <= 0x8000_0000_0000_0000,
            -0x1_0000_0000 <= d <= 0x1_0000_0000,
    ;
    q * d
}

impl Ledger {
    /// Whether settling `market_id` keeps all the P&L arithmetic within
    /// `i64` (see `settle_ok`).
    pub fn settlement_fits(&self, market_id: &str, resolve_yes: bool) -> (res: bool)
        requires
            self.wf(),
        ensures
            res == settle_ok(self.pos(), self.realized_pnl_cents@, market_id@, resolve_yes),
    {
        let px: i64 = if resolve_yes { 100 } else { 0 };
        let ghost s0 = self.pos();
        let ghost p0 = self.realized_pnl_cents@;
        let ghost m = market_id@;
        let mut scratch: Vec<(UserId, i64)> = Vec::new();
        let mut j: usize = 0;
        while j < self.realized_pnl_cents.len()
            invariant
                j <= p0.len(),
                p0 == self.realized_pnl_cents@,
                scratch@ == p0.subrange(0, j as int),
            decreases p0.len() - j,
        {
            scratch.push(self.realized_pnl_cents[j]);
            j = j + 1;
            assert(scratch@ =~= p0.subrange(0, j as int));
        }
        assert(p0.subrange(0, p0.len() as int) =~= p0);
        let n = self.positions.len();
        let mut i: usize = 0;
        assert(s0.subrange(0, 0) =~= Seq::<PosV>::empty());
        while i < n
            invariant
                n == s0.len(),
                s0 == self.pos(),
                i <= n,
                px == settle_px(resolve_yes),
                m == market_id@,
                p0 == self.realized_pnl_cents@,
                pnl_users_unique(p0),
                positions_wf(s0),
                scratch@ == settle_spec(s0.subrange(0, i as int), p0, m, resolve_yes).1,
                settle_ok(s0.subrange(0, i as int), p0, m, resolve_yes),
                pnl_users_unique(scratch@),
            decreases n - i,
        {
            let ghost pre = s0.subrange(0, i as int);
            proof {
                assert(s0.subrange(0, i + 1).drop_last() =~= pre);
                assert(s0.subrange(0, i + 1).last() == s0[i as int]);
            }
            let e = &self.positions[i];
            assert(s0[i as int] == pos_view(self.positions@[i as int]));
            assert(pos_wf(s0[i as int].pos));
            let same = str_eq(e.market_id.as_str(), market_id);
            if e.pos.qty_yes != 0 && same {
                assert(closed_by(s0[i as int], m));
                let mv = move_of(e.pos, px);
                if mv < -0x8000_0000_0000_0000i128 || mv > 0x7fff_ffff_ffff_ffffi128 {
                    proof {
                        assert(mv == settle_move(s0[i as int], resolve_yes));
                        assert(!settle_ok(s0.subrange(0, i + 1), p0, m, resolve_yes));
                        if settle_ok(s0, p0, m, resolve_yes) {
                            lemma_settle_ok_prefix(s0, p0, m, resolve_yes, i + 1);
                        }
                    }
                    return false;
                }
                let cur = pnl_value(&scratch, e.user);
                if cur as i128 + mv < -0x8000_0000_0000_0000i128 || cur as i128 + mv > 0x7fff_ffff_ffff_ffffi128 {
                    proof {
                        assert(mv == settle_move(s0[i as int], resolve_yes));
                        assert(!settle_ok(s0.subrange(0, i + 1), p0, m, resolve_yes));
                        if settle_ok(s0, p0, m, resolve_yes) {
                            lemma_settle_ok_prefix(s0, p0, m, resolve_yes, i + 1);
                        }
                    }
                    return false;
                }
                credit(&mut scratch, e.user, mv as i64);
            }
            i = i + 1;
        }
        assert(s0.subrange(0, n as int) =~= s0);
        true
    }

    /// Settles market `market_id`: every non-flat position in it is valued
    /// at 100¢ (YES) or 0¢ (NO) per contract against its average entry, the
    /// difference is added to its user's realized P&L, and the position is
    /// removed.
    pub fn apply_settlement(&mut self, market_id: &str, resolve_yes: bool)
        requires
            old(self).wf(),
            settle_ok(old(self).pos(), old(self).realized_pnl_cents@, market_id@, resolve_yes),
        ensures
            final(self).wf(),
            (final(self).pos(), final(self).realized_pnl_cents@) == settle_spec(
                old(self).pos(),
                old(self).realized_pnl_cents@,
                market_id@,
                resolve_yes,
            ),
            final(self).fills@ == old(self).fills@,
    {
        let px: i64 = if resolve_yes { 100 } else { 0 };
        let mut old_pos: Vec<PositionEntry> = Vec::new();
        std::mem::swap(&mut old_pos, &mut self.positions);
        let ghost s0 = positions_view(old_pos@);
        let ghost p0 = self.realized_pnl_cents@;
        let ghost m = market_id@;
        let ghost mut idx: Seq<int> = Seq::empty();
        let n = old_pos.len();
        let mut i: usize = 0;
        assert(s0.subrange(0, 0) =~= Seq::<PosV>::empty());
        assert(self.pos() =~= Seq::<PosV>::empty());
        while i < n
            invariant
                n == old_pos@.len(),
                s0 == positions_view(old_pos@),
                i <= n,
                px == settle_px(resolve_yes),
                m == market_id@,
                positions_wf(s0),
                settle_ok(s0, p0, m, resolve_yes),
                (self.pos(), self.realized_pnl_cents@) == settle_spec(s0.subrange(0, i as int), p0, m, resolve_yes),
                pnl_users_unique(self.realized_pnl_cents@),
                idx.len() == self.pos().len(),
                forall|a: int| 0 <= a < idx.len() ==> 0 <= #[trigger] idx[a] < i && self.pos()[a] == s0[idx[a]],
                forall|a: int, b: int| 0 <= a < b < idx.len() ==> #[trigger] idx[a] < #[trigger] idx[b],
                self.fills@ == old(self).fills@,
            decreases n - i,
        {
            proof {
                assert(s0.subrange(0, i + 1).drop_last() =~= s0.subrange(0, i as int));
                assert(s0.subrange(0, i + 1).last() == s0[i as int]);
                lemma_settle_ok_prefix(s0, p0, m, resolve_yes, i + 1);
            }
            let e = &old_pos[i];
            assert(s0[i as int] == pos_view(old_pos@[i as int]));
            assert(pos_wf(s0[i as int].pos));
            let same = str_eq(e.market_id.as_str(), market_id);
            if e.pos.qty_yes != 0 && same {
                assert(closed_by(s0[i as int], m));
                let mv = move_of(e.pos, px);
                credit(&mut self.realized_pnl_cents, e.user, mv as i64);
            } else {
                let ghost before = self.pos();
                self.positions.push(PositionEntry { user: e.user, market_id: e.market_id.clone(), pos: e.pos });
                proof {
                    assert(self.pos() =~= before.push(s0[i as int]));
                    idx = idx.push(i as int);
                    assert forall|a: int| 0 <= a < idx.len() implies 0 <= #[trigger] idx[a] < i + 1 && self.pos()[a] == s0[idx[a]] by {
                        if a < before.len() {
                            assert(self.pos()[a] == before[a]);
                        }
                    }
                }
            }
            i = i + 1;
        }
        proof {
            assert(s0.subrange(0, n as int) =~= s0);
            let f = self.pos();
            assert forall|a: int, b: int| 0 <= a < b < f.len() implies !(#[trigger] f[a].user == #[trigger] f[b].user
                && f[a].market == f[b].market) by {
                assert(idx[a] < idx[b]);
                assert(f[a] == s0[idx[a]] && f[b] == s0[idx[b]]);
            }
            assert forall|a: int| 0 <= a < f.len() implies pos_wf(#[trigger] f[a].pos) by {
                assert(f[a] == s0[idx[a]]);
            }
        }
    }
}

/// Settlement closes the market: afterwards no position in it is open,
/// every entry settlement does not close (flat, or in another market) is
/// kept, and nothing else appears.
pub proof fn law_settlement_closes_market(s: Seq<PosV>, p: Seq<(UserId, i64)>, m: Seq<char>, yes: bool)
    ensures
        forall|i: int| 0 <= i < settle_spec(s, p, m, yes).0.len() ==> !closed_by(#[trigger] settle_spec(s, p, m, yes).0[i], m),
        forall|i: int| 0 <= i < s.len() && !closed_by(s[i], m) ==> settle_spec(s, p, m, yes).0.contains(#[trigger] s[i]),
        forall|i: int| 0 <= i < settle_spec(s, p, m, yes).0.len() ==> s.contains(#[trigger] settle_spec(s, p, m, yes).0[i]),
    decreases s.len(),
{
    if s.len() > 0 {
        let d = s.drop_last();
        law_settlement_closes_market(d, p, m, yes);
        let r0 = settle_spec(d, p, m, yes).0;
        let r = settle_spec(s, p, m, yes).0;
        let e = s.last();
        if closed_by(e, m) {
            assert(r == r0);
        } else {
            assert(r == r0.push(e));
            assert(r[r.len() - 1] == e);
        }
        assert forall|i: int| 0 <= i < s.len() && !closed_by(s[i], m) implies r.contains(#[trigger] s[i]) by {
            if i < s.len() - 1 {
                assert(s[i] == d[i]);
                let k = choose|k: int| 0 <= k < r0.len() && r0[k] == d[i];
                assert(r[k] == r0[k]);
            } else {
                assert(r[r.len() - 1] == e);
            }
        }
        assert forall|i: int| 0 <= i < r.len() implies s.contains(#[trigger] r[i]) by {
            if i < r0.len() {
                assert(r[i] == r0[i]);
                assert(d.contains(r0[i]));
                let k = choose|k: int| 0 <= k < d.len() && d[k] == r0[i];
                assert(s[k] == d[k]);
            } else {
                assert(s[s.len() - 1] == e);
            }
        }
        assert forall|i: int| 0 <= i < r.len() implies !closed_by(#[trigger] r[i], m) by {
            if i < r0.len() {
                assert(r[i] == r0[i]);
            }
        }
    }
}

/// A position's contribution to the net of market `m`.
pub open spec fn net_part(e: PosV, m: Seq<char>) -> int {
    if e.market == m {
        e.pos.qty_yes as int
    } else {
        0
    }
}

/// The net YES position of all users in market `m`.
pub open spec fn market_net(s: Seq<PosV>, m: Seq<char>) -> int
    decreases s.len(),
{
    if s.len() == 0 {
        0
    } else {
        market_net(s.drop_last(), m) + net_part(s.last(), m)
    }
}

proof fn lemma_net_update(s: Seq<PosV>, i: int, x: PosV, m: Seq<char>)
    requires
        0 <= i < s.len(),
    ensures
        market_net(s.update(i, x), m) == market_net(s, m) - net_part(s[i], m) + net_part(x, m),
    decreases s.len(),
{
    let u = s.update(i, x);
    if i == s.len() - 1 {
        assert(u.drop_last() =~= s.drop_last());
    } else {
        assert(u.drop_last() =~= s.drop_last().update(i, x));
        lemma_net_update(s.drop_last(), i, x, m);
    }
}

proof fn lemma_adjust_entry(s: Seq<PosV>, user: UserId, mk: Seq<char>, dq: int, price: int, m: Seq<char>)
    requires
        adjust_entry_ok(s, user, mk, dq, price),
    ensures
        market_net(adjust_entry(s, user, mk, dq, price), m) == market_net(s, m) + if mk == m { dq } else { 0 },
{
    let i = key_index(s, user, mk);
    let r = adjust_entry(s, user, mk, dq, price);
    if i >= 0 {
        let k = choose|k: int| key_at(s, user, mk, k);
        assert(key_at(s, user, mk, i));
        let np = adjust(s[i].pos, dq, price);
        assert(np.qty_yes == s[i].pos.qty_yes + dq);
        lemma_net_update(s, i, PosV { user, market: mk, pos: np }, m);
    } else {
        let np = adjust(MarketPosition { qty_yes: 0, avg_price_cents: 0 }, dq, price);
        assert(np.qty_yes == dq);
        assert(r.drop_last() =~= s);
    }
}

/// Every fill has a buyer and a seller: applying fills leaves the net YES
/// position of every market unchanged (a market that started flat stays
/// flat in total).
pub proof fn law_fills_zero_sum(s: Seq<PosV>, fs: Seq<Fill>, m: Seq<char>)
    requires
        fills_ok(s, fs),
    ensures
        market_net(apply_fills_spec(s, fs), m) == market_net(s, m),
    decreases fs.len(),
{
    if fs.len() > 0 {
        let f = fs[0];
        let q = f.qty as int;
        lemma_adjust_entry(s, f.buyer, f.market_id@, q, f.price as int, m);
        let s1 = adjust_entry(s, f.buyer, f.market_id@, q, f.price as int);
        lemma_adjust_entry(s1, f.seller, f.market_id@, -q, f.price as int, m);
        law_fills_zero_sum(apply_fill(s, f), fs.drop_first(), m);
    }
}

/// Distinct entries per (user, market).
pub open spec fn keys_unique(s: Seq<PosV>) -> bool {
    forall|i: int, j: int| 0 <= i < j < s.len() ==> !(#[trigger] s[i].user == #[trigger] s[j].user && s[i].market == s[j].market)
}

/// The net YES contracts `user` bought in market `m` over the fills:
/// what it bought minus what it sold.
pub open spec fn net_bought(fs: Seq<Fill>, user: UserId, m: Seq<char>) -> int
    decreases fs.len(),
{
    if fs.len() == 0 {
        0
    } else {
        let f = fs[0];
        (if f.market_id@ == m && f.buyer == user { f.qty as int } else { 0 }) - (if f.market_id@ == m && f.seller == user {
            f.qty as int
        } else {
            0
        }) + net_bought(fs.drop_first(), user, m)
    }
}

proof fn lemma_key_index(s: Seq<PosV>, user: UserId, m: Seq<char>, j: int)
    requires
        keys_unique(s),
        key_at(s, user, m, j),
    ensures
        key_index(s, user, m) == j,
{
    let c = choose|i: int| key_at(s, user, m, i);
    if c != j {
        if c < j {
            assert(!(s[c].user == s[j].user && s[c].market == s[j].market));
        } else {
            assert(!(s[j].user == s[c].user && s[j].market == s[c].market));
        }
    }
}

proof fn lemma_adjust_entry_position(s: Seq<PosV>, u2: UserId, mk: Seq<char>, dq: int, price: int, u: UserId, m: Seq<char>)
    requires
        keys_unique(s),
        adjust_entry_ok(s, u2, mk, dq, price),
    ensures
        keys_unique(adjust_entry(s, u2, mk, dq, price)),
        position_qty(adjust_entry(s, u2, mk, dq, price), u, m) == position_qty(s, u, m) + if u2 == u && mk == m {
            dq
        } else {
            0
        },
{
    let i = key_index(s, u2, mk);
    let r = adjust_entry(s, u2, mk, dq, price);
    if i >= 0 {
        assert(key_at(s, u2, mk, i));
        let np = adjust(s[i].pos, dq, price);
        assert(np.qty_yes == s[i].pos.qty_yes + dq);
        assert(r[i].user == s[i].user && r[i].market == s[i].market);
        assert forall|a: int, b: int| 0 <= a < b < r.len() implies !(#[trigger] r[a].user == #[trigger] r[b].user
            && r[a].market == r[b].market) by {
            assert(r[a].user == s[a].user && r[a].market == s[a].market);
            assert(r[b].user == s[b].user && r[b].market == s[b].market);
        }
        if u2 == u && mk == m {
            assert(key_at(r, u, m, i));
            lemma_key_index(r, u, m, i);
        } else if exists|j: int| key_at(s, u, m, j) {
            let j = choose|j: int| key_at(s, u, m, j);
            lemma_key_index(s, u, m, j);
            assert(j != i);
            assert(key_at(r, u, m, j));
            lemma_key_index(r, u, m, j);
        } else {
            assert forall|j: int| !key_at(r, u, m, j) by {
                if key_at(r, u, m, j) && j != i {
                    assert(key_at(s, u, m, j));
                }
            }
        }
    } else {
        assert(!exists|j: int| key_at(s, u2, mk, j));
        let np = adjust(MarketPosition { qty_yes: 0, avg_price_cents: 0 }, dq, price);
        assert(np.qty_yes == dq);
        let n = s.len() as int;
        assert forall|a: int, b: int| 0 <= a < b < r.len() implies !(#[trigger] r[a].user == #[trigger] r[b].user
            && r[a].market == r[b].market) by {
            if b == n {
                assert(r[a] == s[a]);
                assert(!key_at(s, u2, mk, a));
            } else {
                assert(r[a] == s[a] && r[b] == s[b]);
            }
        }
        if u2 == u && mk == m {
            assert(key_at(r, u, m, n));
            lemma_key_index(r, u, m, n);
        } else if exists|j: int| key_at(s, u, m, j) {
            let j = choose|j: int| key_at(s, u, m, j);
            lemma_key_index(s, u, m, j);
            assert(r[j] == s[j]);
            assert(key_at(r, u, m, j));
            lemma_key_index(r, u, m, j);
        } else {
            assert forall|j: int| !key_at(r, u, m, j) by {
                if key_at(r, u, m, j) && j < n {
                    assert(r[j] == s[j]);
                    assert(key_at(s, u, m, j));
                }
            }
        }
    }
}

/// Each user's position in each market moves by what the fills make it
/// buy minus what they make it sell: the buyer goes up and the seller goes
/// down by each fill's size.
pub proof fn law_fills_move_positions(s: Seq<PosV>, fs: Seq<Fill>, u: UserId, m: Seq<char>)
    requires
        positions_wf(s),
        fills_ok(s, fs),
    ensures
        position_qty(apply_fills_spec(s, fs), u, m) == position_qty(s, u, m) + net_bought(fs, u, m),
{
    lemma_fills_keys(s, fs, u, m);
}

proof fn lemma_fills_keys(s: Seq<PosV>, fs: Seq<Fill>, u: UserId, m: Seq<char>)
    requires
        keys_unique(s),
        fills_ok(s, fs),
    ensures
        position_qty(apply_fills_spec(s, fs), u, m) == position_qty(s, u, m) + net_bought(fs, u, m),
    decreases fs.len(),
{
    if fs.len() > 0 {
        let f = fs[0];
        let q = f.qty as int;
        lemma_adjust_entry_position(s, f.buyer, f.market_id@, q, f.price as int, u, m);
        let s1 = adjust_entry(s, f.buyer, f.market_id@, q, f.price as int);
        lemma_adjust_entry_position(s1, f.seller, f.market_id@, -q, f.price as int, u, m);
        lemma_fills_keys(apply_fill(s, f), fs.drop_first(), u, m);
    }
}

} // verus!
