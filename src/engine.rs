use std::collections::{HashMap, VecDeque};
use vstd::prelude::*;

use crate::book::{
    at, better, crosses, fill_front, holds_id, ids_disjoint, ids_unique, ids_within, insert_resting,
    lemma_append_at, lemma_append_at_kept, lemma_fill_front, lemma_fill_front_kept, lemma_insert_split,
    lemma_new_level_at, lemma_new_level_at_kept, lemma_orders_kept_trans, lemma_remove_at, lemma_remove_at_kept,
    level_wf, match_levels, open_quantity, opposite, orders_kept, remove_at, resting_ok, side_wf, total_filled, Fill,
    LevelView,
};
use crate::ids::{fresh_id, now_millis};
use crate::types::{MatchResult, Order, OrderBookSnapshot, OrderStatus, OrderType, PriceLevel, Side, Trade};

verus! {

broadcast use vstd::std_specs::hash::group_hash_axioms;

/// Resting orders at one price, oldest first.
pub struct Level {
    pub price: u64,
    pub orders: VecDeque<Order>,
}

impl View for Level {
    type V = LevelView;

    open spec fn view(&self) -> LevelView {
        LevelView { price: self.price, orders: self.orders@ }
    }
}

pub open spec fn levels_view(v: Seq<Level>) -> Seq<LevelView> {
    v.map_values(|l: Level| l@)
}

/// `t` records the fill `f` of the incoming order `taker` in `market` at time `now`.
pub open spec fn trade_of(t: Trade, f: Fill, taker: Order, market: String, now: i64) -> bool {
    &&& t.market == market
    &&& t.maker_order_id == f.maker.id
    &&& t.taker_order_id == taker.id
    &&& t.maker_user_id == f.maker.user_id
    &&& t.taker_user_id == taker.user_id
    &&& t.price == f.price
    &&& t.quantity == f.quantity
    &&& t.side == taker.side
    &&& t.timestamp == now
}

/// `ts` records the fills `fs`, one trade per fill, in the same order.
pub open spec fn trades_record(ts: Seq<Trade>, fs: Seq<Fill>, taker: Order, market: String, now: i64) -> bool {
    &&& ts.len() == fs.len()
    &&& forall|k: int| 0 <= k < ts.len() ==> trade_of(#[trigger] ts[k], fs[k], taker, market, now)
}

/// The incoming order's matches against the opposite side `levels`.
pub open spec fn match_order(levels: Seq<LevelView>, o: Order, now: i64) -> (Seq<LevelView>, Seq<Fill>) {
    match_levels(levels, o.side, o.order_type, o.price, o.remaining(), now)
}

fn crosses_exec(s: Side, kind: OrderType, limit: u64, price: u64) -> (r: bool)
    ensures
        r == crosses(s, kind, limit, price),
{
    match kind {
        OrderType::Market => true,
        OrderType::Limit => match s {
            Side::Buy => price <= limit,
            Side::Sell => price >= limit,
        },
    }
}

/// Matches `taker` against `levels`, the opposite side of the book, best
/// level first and oldest order first within a level.
fn match_incoming(
    levels: &mut Vec<Level>,
    taker: &mut Order,
    market: &String,
    now: i64,
    index: &mut HashMap<u128, (Side, u64)>,
) -> (trades: Vec<Trade>)
    requires
        side_wf(levels_view(old(levels)@), opposite(old(taker).side)),
        ids_unique(levels_view(old(levels)@)),
        old(taker).filled_quantity <= old(taker).quantity,
    ensures
        orders_kept(levels_view(final(levels)@), levels_view(old(levels)@), None),
        forall|id: u128| #[trigger] final(index)@.contains_key(id) <==> (old(index)@.contains_key(id) && (holds_id(
            levels_view(old(levels)@),
            id,
        ) ==> holds_id(levels_view(final(levels)@), id))),
        forall|id: u128| #[trigger] final(index)@.contains_key(id) ==> final(index)@[id] == old(index)@[id],
        levels_view(final(levels)@) == match_order(levels_view(old(levels)@), *old(taker), now).0,
        *final(taker) == (Order {
            filled_quantity: (old(taker).filled_quantity + total_filled(
                match_order(levels_view(old(levels)@), *old(taker), now).1,
            )) as u64,
            ..*old(taker)
        }),
        final(taker).filled_quantity <= final(taker).quantity,
        old(taker).filled_quantity + total_filled(match_order(levels_view(old(levels)@), *old(taker), now).1)
            <= old(taker).quantity,
        trades_record(trades@, match_order(levels_view(old(levels)@), *old(taker), now).1, *old(taker), *market, now),
        side_wf(levels_view(final(levels)@), opposite(old(taker).side)),
        ids_unique(levels_view(final(levels)@)),
        ids_within(levels_view(final(levels)@), levels_view(old(levels)@)),
{
    let ghost orig = levels_view(levels@);
    let ghost t0 = *taker;
    let ghost rs = opposite(t0.side);
    let ghost mut done: Seq<Fill> = seq![];
    let ghost idx0 = index@;
    let mut trades: Vec<Trade> = Vec::new();
    proof {
        assert forall|i: int, j: int| #[trigger] at(orig, i, j) implies exists|i0: int, j0: int|
            at(orig, i0, j0) && #[trigger] orig[i0].orders[j0].id == orig[i].orders[j].id && orig[i0].price
                == orig[i].price by {
            assert(at(orig, i, j));
        }
    }
    loop
        invariant
            orders_kept(levels_view(levels@), orig, None),
            forall|id: u128| #[trigger] index@.contains_key(id) <==> (idx0.contains_key(id) && (holds_id(orig, id)
                ==> holds_id(levels_view(levels@), id))),
            forall|id: u128| #[trigger] index@.contains_key(id) ==> index@[id] == idx0[id],
            side_wf(levels_view(levels@), rs),
            ids_unique(levels_view(levels@)),
            ids_within(levels_view(levels@), orig),
            *taker == (Order { filled_quantity: (t0.filled_quantity + total_filled(done)) as u64, ..t0 }),
            0 <= total_filled(done),
            t0.filled_quantity + total_filled(done) <= t0.quantity,
            match_order(orig, t0, now) == (
                match_order(levels_view(levels@), *taker, now).0,
                done + match_order(levels_view(levels@), *taker, now).1,
            ),
            trades_record(trades@, done, t0, *market, now),
        ensures
            match_order(levels_view(levels@), *taker, now) == (levels_view(levels@), Seq::<Fill>::empty()),
        decreases taker.quantity - taker.filled_quantity,
    {
        let ghost cur = levels_view(levels@);
        if taker.filled_quantity >= taker.quantity {
            break;
        }
        if levels.len() == 0 {
            break;
        }
        let best = levels[0].price;
        proof {
            assert(cur[0] == levels@[0]@);
            assert(level_wf(cur[0], rs));
        }
        if !crosses_exec(taker.side, taker.order_type, taker.price, best) {
            break;
        }
        let want = taker.quantity - taker.filled_quantity;
        proof {
            lemma_fill_front(cur, rs, want as int, now);
            lemma_fill_front_kept(cur, rs, want as int, now);
        }
        let ghost step = fill_front(cur, want as int, now);
        let mut lvl = levels.remove(0);
        let popped = lvl.orders.pop_front();
        let mut maker = match popped {
            Some(o) => o,
            None => {
                proof {
                    assert(false);
                }
                break;
            },
        };
        proof {
            assert(resting_ok(cur[0].orders[0], rs, cur[0].price));
        }
        let avail = maker.quantity - maker.filled_quantity;
        let q = if want < avail {
            want
        } else {
            avail
        };
        maker.filled_quantity = maker.filled_quantity + q;
        maker.updated_at = now;
        taker.filled_quantity = taker.filled_quantity + q;
        let trade = Trade {
            id: fresh_id(),
            market: market.clone(),
            maker_order_id: maker.id,
            taker_order_id: taker.id,
            maker_user_id: maker.user_id.clone(),
            taker_user_id: taker.user_id.clone(),
            price: best,
            quantity: q,
            side: taker.side,
            timestamp: now,
        };
        proof {
            assert(maker == step.1.maker);
        }
        trades.push(trade);
        let ghost rest_levels = levels@;
        proof {
            assert(levels_view(rest_levels) =~= cur.drop_first());
        }
        let ghost idx1 = index@;
        let ghost full = maker.filled_quantity >= maker.quantity;
        if maker.filled_quantity >= maker.quantity {
            let _ = index.remove(&maker.id);
        }
        if maker.filled_quantity < maker.quantity {
            lvl.orders.push_front(maker);
            proof {
                assert(lvl.orders@ =~= cur[0].orders.update(0, step.1.maker));
            }
        } else {
            proof {
                assert(lvl.orders@ =~= cur[0].orders.drop_first());
            }
        }
        if lvl.orders.len() > 0 {
            levels.insert(0, lvl);
            proof {
                assert(levels_view(levels@) =~= cur.update(0, lvl@));
            }
        }
        proof {
            let f = step.1;
            assert(q == f.quantity);
            assert(levels_view(levels@) =~= step.0);
            lemma_orders_kept_trans(step.0, cur, orig);
            assert(index@ == if full { idx1.remove(f.maker.id) } else { idx1 });
            assert forall|id: u128| #[trigger] index@.contains_key(id) <==> (idx0.contains_key(id) && (holds_id(orig, id)
                ==> holds_id(step.0, id))) by {
                if holds_id(cur, id) {
                    assert(holds_id(step.0, id) <==> !(id == f.maker.id && full));
                } else {
                    assert(!holds_id(step.0, id));
                }
                if id == f.maker.id {
                    assert(at(cur, 0, 0) && cur[0].orders[0].id == id);
                }
            }
            assert(done.push(f).drop_last() =~= done);
            let ghost old_done = done;
            done = done.push(f);
            assert(total_filled(done) == total_filled(old_done) + q);
            assert(old_done + (seq![f] + match_order(step.0, *taker, now).1) =~= done + match_order(step.0, *taker, now).1);
        }
    }
    proof {
        assert(done + Seq::<Fill>::empty() =~= done);
    }
    trades
}

fn better_exec(s: Side, a: u64, b: u64) -> (r: bool)
    ensures
        r == better(s, a, b),
{
    match s {
        Side::Buy => a > b,
        Side::Sell => a < b,
    }
}

/// Puts `o` at the tail of its price level on its own side, opening the level
/// at its place in price order where none exists.
fn add_resting(levels: &mut Vec<Level>, o: Order)
    requires
        side_wf(levels_view(old(levels)@), o.side),
        ids_unique(levels_view(old(levels)@)),
        !holds_id(levels_view(old(levels)@), o.id),
        resting_ok(o, o.side, o.price),
    ensures
        levels_view(final(levels)@) == insert_resting(levels_view(old(levels)@), o),
        side_wf(levels_view(final(levels)@), o.side),
        ids_unique(levels_view(final(levels)@)),
        orders_kept(levels_view(final(levels)@), levels_view(old(levels)@), Some(o)),
        forall|id: u128| #[trigger] holds_id(levels_view(final(levels)@), id)
            <==> (holds_id(levels_view(old(levels)@), id) || id == o.id),
{
    let ghost lv = levels_view(levels@);
    let mut i: usize = 0;
    while i < levels.len()
        invariant
            i <= levels@.len(),
            levels_view(levels@) == lv,
            forall|k: int| 0 <= k < i ==> better(o.side, #[trigger] lv[k].price, o.price),
        ensures
            i <= levels@.len(),
            levels_view(levels@) == lv,
            forall|k: int| 0 <= k < i ==> better(o.side, #[trigger] lv[k].price, o.price),
            i < levels@.len() ==> !better(o.side, lv[i as int].price, o.price),
        decreases levels@.len() - i,
    {
        proof {
            assert(lv[i as int] == levels@[i as int]@);
        }
        if !better_exec(o.side, levels[i].price, o.price) {
            proof {
                assert(levels@[i as int]@ == lv[i as int]);
            }
            break;
        }
        i = i + 1;
    }
    proof {
        lemma_insert_split(lv, o, i as int);
        let tail = lv.subrange(i as int, lv.len() as int);
        if (i as int) < lv.len() {
            assert(tail[0] == lv[i as int]);
            assert(lv[i as int] == levels@[i as int]@);
        }
    }
    if i < levels.len() && levels[i].price == o.price {
        let ghost tail = lv.subrange(i as int, lv.len() as int);
        let ghost nl = LevelView { price: o.price, orders: lv[i as int].orders.push(o) };
        proof {
            lemma_append_at(lv, i as int, o);
            lemma_append_at_kept(lv, i as int, o);
            assert(insert_resting(tail, o) == tail.update(0, nl));
            assert(lv.subrange(0, i as int) + tail.update(0, nl) =~= lv.update(i as int, nl));
        }
        let mut lvl = levels.remove(i);
        lvl.orders.push_back(o);
        levels.insert(i, lvl);
        proof {
            assert(levels_view(levels@) =~= lv.update(i as int, nl));
        }
    } else {
        let ghost tail = lv.subrange(i as int, lv.len() as int);
        let ghost nl = LevelView { price: o.price, orders: seq![o] };
        proof {
            if (i as int) < lv.len() {
                assert(!better(o.side, lv[i as int].price, o.price));
                assert(lv[i as int].price != o.price);
            }
            lemma_new_level_at(lv, i as int, o);
            lemma_new_level_at_kept(lv, i as int, o);
            assert(insert_resting(tail, o) == seq![nl] + tail);
            assert(lv.subrange(0, i as int) + (seq![nl] + tail) =~= lv.insert(i as int, nl));
        }
        let price = o.price;
        let mut orders: VecDeque<Order> = VecDeque::new();
        orders.push_back(o);
        levels.insert(i, Level { price, orders });
        proof {
            assert(levels_view(levels@) =~= lv.insert(i as int, nl));
        }
    }
}

/// Takes the resting order with identifier `id` out of `levels`, dropping
/// its level when it was the last one there.
fn take_order(levels: &mut Vec<Level>, s: Side, price: u64, id: u128) -> (r: Option<Order>)
    requires
        side_wf(levels_view(old(levels)@), s),
        ids_unique(levels_view(old(levels)@)),
        forall|i: int, j: int|
            at(levels_view(old(levels)@), i, j) && #[trigger] levels_view(old(levels)@)[i].orders[j].id == id
                ==> levels_view(old(levels)@)[i].price == price,
    ensures
        side_wf(levels_view(final(levels)@), s),
        ids_unique(levels_view(final(levels)@)),
        ids_within(levels_view(final(levels)@), levels_view(old(levels)@)),
        !holds_id(levels_view(final(levels)@), id),
        match r {
            None => !holds_id(levels_view(old(levels)@), id) && final(levels)@ == old(levels)@,
            Some(o) => exists|i: int, j: int|
                at(levels_view(old(levels)@), i, j) && #[trigger] levels_view(old(levels)@)[i].orders[j] == o
                    && o.id == id && levels_view(final(levels)@) == remove_at(levels_view(old(levels)@), i, j),
        },
{
    let ghost lv = levels_view(levels@);
    let mut i: usize = 0;
    while i < levels.len()
        invariant
            i <= levels@.len(),
            levels@ == old(levels)@,
            levels_view(levels@) == lv,
            side_wf(lv, s),
            ids_unique(lv),
            forall|k: int, j: int| 0 <= k < i && at(lv, k, j) ==> #[trigger] lv[k].orders[j].id != id,
            forall|k: int, j: int| at(lv, k, j) && #[trigger] lv[k].orders[j].id == id ==> lv[k].price == price,
        decreases levels@.len() - i,
    {
        proof {
            assert(lv[i as int] == levels@[i as int]@);
        }
        let n = if levels[i].price == price {
            levels[i].orders.len()
        } else {
            0
        };
        let mut j: usize = 0;
        while j < n
            invariant
                i < levels@.len(),
                n <= lv[i as int].orders.len(),
                n < lv[i as int].orders.len() ==> lv[i as int].price != price,
                forall|k: int, j: int| at(lv, k, j) && #[trigger] lv[k].orders[j].id == id ==> lv[k].price == price,
                j <= n,
                levels@ == old(levels)@,
                levels_view(levels@) == lv,
                lv[i as int] == levels@[i as int]@,
                side_wf(lv, s),
                ids_unique(lv),
                forall|t: int| 0 <= t < j ==> #[trigger] lv[i as int].orders[t].id != id,
            decreases n - j,
        {
            if levels[i].orders[j].id == id {
                proof {
                    lemma_remove_at(lv, s, i as int, j as int);
                }
                let mut lvl = levels.remove(i);
                proof {
                    assert(lvl@ == lv[i as int]);
                }
                let taken = lvl.orders.remove(j);
                proof {
                    assert(taken == Some(lv[i as int].orders[j as int]));
                }
                let ghost rest_orders = lv[i as int].orders.remove(j as int);
                if lvl.orders.len() > 0 {
                    levels.insert(i, lvl);
                    proof {
                        assert(levels_view(levels@) =~= lv.update(i as int, LevelView { price: lv[i as int].price, orders: rest_orders }));
                    }
                } else {
                    proof {
                        assert(levels_view(levels@) =~= lv.remove(i as int));
                    }
                }
                proof {
                    assert(levels_view(levels@) == remove_at(lv, i as int, j as int));
                    assert(lv == levels_view(old(levels)@));
                    assert(lv[i as int].orders[j as int].id == id);
                }
                return taken;
            }
            j = j + 1;
        }
        proof {
            assert forall|t: int| at(lv, i as int, t) implies #[trigger] lv[i as int].orders[t].id != id by {
                if lv[i as int].orders[t].id == id {
                    assert(lv[i as int].price == price);
                }
            }
        }
        i = i + 1;
    }
    proof {
        assert forall|k: int, j: int| at(lv, k, j) implies #[trigger] lv[k].orders[j].id != id by {}
    }
    None
}

/// The number of trades the engine keeps in its history.
pub const HISTORY_CAP: usize = 1000;

/// The most recent trades of `h`, at most `HISTORY_CAP` of them.
pub open spec fn keep_recent(h: Seq<Trade>) -> Seq<Trade> {
    if h.len() > HISTORY_CAP {
        h.subrange(h.len() - HISTORY_CAP, h.len() as int)
    } else {
        h
    }
}

/// The newest `limit` trades of the history `h`, newest first.
pub open spec fn recent_view(h: Seq<Trade>, limit: int) -> Seq<Trade> {
    let n = if limit < h.len() { limit } else { h.len() as int };
    Seq::new(n as nat, |k: int| h[h.len() - 1 - k])
}

/// What a snapshot reports of a level; the total saturates at `u64::MAX`.
pub open spec fn level_summary(l: LevelView) -> PriceLevel {
    PriceLevel {
        price: l.price,
        total_quantity: if open_quantity(l.orders) > u64::MAX { u64::MAX } else { open_quantity(l.orders) as u64 },
        order_count: l.orders.len() as usize,
    }
}

/// The first `depth` levels of a side, summarized.
pub open spec fn depth_view(levels: Seq<LevelView>, depth: int) -> Seq<PriceLevel> {
    let n = if depth < levels.len() { depth } else { levels.len() as int };
    Seq::new(n as nat, |k: int| level_summary(levels[k]))
}

/// Appends `trades` to the history, evicting the oldest beyond the cap.
fn record_trades(history: &mut VecDeque<Trade>, trades: &Vec<Trade>)
    requires
        old(history)@.len() <= HISTORY_CAP,
    ensures
        final(history)@ == keep_recent(old(history)@ + trades@),
        final(history)@.len() <= HISTORY_CAP,
{
    let ghost h0 = history@;
    let mut k: usize = 0;
    proof {
        assert(h0 + trades@.take(0) =~= h0);
    }
    while k < trades.len()
        invariant
            k <= trades@.len(),
            h0.len() <= HISTORY_CAP,
            history@ == keep_recent(h0 + trades@.take(k as int)),
            history@.len() <= HISTORY_CAP,
        decreases trades@.len() - k,
    {
        let ghost s = h0 + trades@.take(k as int);
        let t = trades[k].duplicate();
        history.push_back(t);
        if history.len() > HISTORY_CAP {
            let _ = history.pop_front();
        }
        proof {
            assert(h0 + trades@.take(k + 1) =~= s.push(t));
            let sp = s.push(t);
            if s.len() > HISTORY_CAP {
                assert(history@ =~= sp.subrange(sp.len() - HISTORY_CAP, sp.len() as int));
            } else if s.len() == HISTORY_CAP {
                assert(history@ =~= sp.subrange(1, sp.len() as int));
            } else {
                assert(history@ =~= sp);
            }
        }
        k = k + 1;
    }
    proof {
        assert(trades@.take(trades@.len() as int) =~= trades@);
    }
}

fn summarize(l: &Level, s: Side) -> (r: PriceLevel)
    requires
        level_wf(l@, s),
    ensures
        r == level_summary(l@),
{
    let n = l.orders.len();
    let mut total: u64 = 0;
    let mut j: usize = 0;
    proof {
        assert(l@.orders.take(0) =~= Seq::<Order>::empty());
    }
    while j < n
        invariant
            n == l@.orders.len(),
            j <= n,
            level_wf(l@, s),
            0 <= open_quantity(l@.orders.take(j as int)),
            total == (if open_quantity(l@.orders.take(j as int)) > u64::MAX {
                u64::MAX
            } else {
                open_quantity(l@.orders.take(j as int)) as u64
            }),
        decreases n - j,
    {
        let ghost o = l@.orders[j as int];
        proof {
            assert(resting_ok(o, s, l@.price));
            assert(l@.orders.take(j + 1).drop_last() =~= l@.orders.take(j as int));
        }
        let rem = l.orders[j].quantity - l.orders[j].filled_quantity;
        if total > u64::MAX - rem {
            total = u64::MAX;
        } else {
            total = total + rem;
        }
        j = j + 1;
    }
    proof {
        assert(l@.orders.take(n as int) =~= l@.orders);
    }
    PriceLevel { price: l.price, total_quantity: total, order_count: n }
}

fn depth_side(levels: &Vec<Level>, s: Side, depth: usize) -> (r: Vec<PriceLevel>)
    requires
        side_wf(levels_view(levels@), s),
    ensures
        r@ == depth_view(levels_view(levels@), depth as int),
{
    let ghost lv = levels_view(levels@);
    let mut out: Vec<PriceLevel> = Vec::new();
    let mut k: usize = 0;
    while k < depth && k < levels.len()
        invariant
            k <= depth,
            k <= levels@.len(),
            lv == levels_view(levels@),
            side_wf(lv, s),
            out@ == depth_view(lv, k as int),
        decreases levels@.len() - k,
    {
        proof {
            assert(lv[k as int] == levels@[k as int]@);
            assert(level_wf(lv[k as int], s));
        }
        let p = summarize(&levels[k], s);
        out.push(p);
        k = k + 1;
        proof {
            assert(out@ =~= depth_view(lv, k as int));
        }
    }
    proof {
        assert(out@ =~= depth_view(lv, depth as int));
    }
    out
}

/// The book as a value: both sides, best level first, the trade history,
/// oldest first, and the index from order identifier to side and price.
pub struct BookView {
    pub market: String,
    pub bids: Seq<LevelView>,
    pub asks: Seq<LevelView>,
    pub trades: Seq<Trade>,
    pub lookup: Map<u128, (Side, u64)>,
}

/// `b` with side `s` replaced by `levels`.
pub open spec fn with_side(b: BookView, s: Side, levels: Seq<LevelView>) -> BookView {
    match s {
        Side::Buy => BookView { bids: levels, ..b },
        Side::Sell => BookView { asks: levels, ..b },
    }
}

/// `lookup` sends every resting order of side `s` to its side and price.
pub open spec fn side_indexed(levels: Seq<LevelView>, s: Side, lookup: Map<u128, (Side, u64)>) -> bool {
    forall|i: int, j: int| #[trigger] at(levels, i, j) ==> lookup[levels[i].orders[j].id] == (s, levels[i].price)
}

/// The index holds exactly the resting orders, each with its side and price.
pub open spec fn index_ok(b: BookView) -> bool {
    &&& forall|id: u128| #[trigger] b.lookup.contains_key(id) <==> book_holds(b, id)
    &&& side_indexed(b.bids, Side::Buy, b.lookup)
    &&& side_indexed(b.asks, Side::Sell, b.lookup)
}

pub open spec fn book_side(b: BookView, s: Side) -> Seq<LevelView> {
    match s {
        Side::Buy => b.bids,
        Side::Sell => b.asks,
    }
}

/// Some resting order of the book has identifier `id`.
pub open spec fn book_holds(b: BookView, id: u128) -> bool {
    holds_id(b.bids, id) || holds_id(b.asks, id)
}

/// Both sides well formed, identifiers unique over the whole book, and the
/// history within its cap.
pub open spec fn book_wf(b: BookView) -> bool {
    &&& side_wf(b.bids, Side::Buy)
    &&& side_wf(b.asks, Side::Sell)
    &&& ids_unique(b.bids)
    &&& ids_unique(b.asks)
    &&& ids_disjoint(b.bids, b.asks)
    &&& b.trades.len() <= HISTORY_CAP
    &&& index_ok(b)
}

/// After a submission, the index has lost the makers filled in full and,
/// where the incoming order rests, gained it.
proof fn lemma_index_after_submit(
    b0: BookView,
    s: Side,
    o: Order,
    rested: bool,
    own1: Seq<LevelView>,
    opp1: Seq<LevelView>,
    l1: Map<u128, (Side, u64)>,
    l2: Map<u128, (Side, u64)>,
)
    requires
        book_wf(b0),
        !book_holds(b0, o.id),
        ids_within(opp1, book_side(b0, opposite(s))),
        orders_kept(opp1, book_side(b0, opposite(s)), None),
        forall|id: u128| #[trigger] l1.contains_key(id) <==> (b0.lookup.contains_key(id) && (holds_id(
            book_side(b0, opposite(s)),
            id,
        ) ==> holds_id(opp1, id))),
        forall|id: u128| #[trigger] l1.contains_key(id) ==> l1[id] == b0.lookup[id],
        forall|id: u128| #[trigger] holds_id(own1, id) <==> (holds_id(book_side(b0, s), id) || (rested && id == o.id)),
        orders_kept(own1, book_side(b0, s), if rested { Some(o) } else { None }),
        l2 == if rested { l1.insert(o.id, (s, o.price)) } else { l1 },
    ensures
        index_ok(BookView { lookup: l2, ..with_side(with_side(b0, s, own1), opposite(s), opp1) }),
{
    let own0 = book_side(b0, s);
    let opp0 = book_side(b0, opposite(s));
    let b2 = BookView { lookup: l2, ..with_side(with_side(b0, s, own1), opposite(s), opp1) };
    assert(side_indexed(own0, s, b0.lookup) && side_indexed(opp0, opposite(s), b0.lookup));
    assert(forall|id: u128| #[trigger] holds_id(own0, id) ==> !holds_id(opp0, id));
    assert forall|i: int, j: int| #[trigger] at(opp1, i, j) implies l2[opp1[i].orders[j].id] == (opposite(s), opp1[i].price) by {
        let id = opp1[i].orders[j].id;
        let (i0, j0) = choose|i0: int, j0: int|
            at(opp0, i0, j0) && #[trigger] opp0[i0].orders[j0].id == id && opp0[i0].price == opp1[i].price;
        assert(at(opp0, i0, j0));
        assert(holds_id(opp0, id));
        assert(holds_id(opp1, id));
        assert(book_holds(b0, id));
        assert(l1.contains_key(id));
    }
    assert forall|i: int, j: int| #[trigger] at(own1, i, j) implies l2[own1[i].orders[j].id] == (s, own1[i].price) by {
        let id = own1[i].orders[j].id;
        if rested && id == o.id {
            if !(own1[i].price == o.price) {
                let (i0, j0) = choose|i0: int, j0: int|
                    at(own0, i0, j0) && #[trigger] own0[i0].orders[j0].id == id && own0[i0].price == own1[i].price;
                assert(holds_id(own0, id));
            }
        } else {
            let (i0, j0) = choose|i0: int, j0: int|
                at(own0, i0, j0) && #[trigger] own0[i0].orders[j0].id == id && own0[i0].price == own1[i].price;
            assert(at(own0, i0, j0));
            assert(holds_id(own0, id));
            assert(book_holds(b0, id));
            assert(l1.contains_key(id));
        }
    }
    assert forall|id: u128| #[trigger] l2.contains_key(id) <==> book_holds(b2, id) by {
        if holds_id(opp1, id) {
            assert(holds_id(opp0, id));
        }
    }
    if s == Side::Buy {
        assert(b2.bids == own1 && b2.asks == opp1);
    } else {
        assert(b2.bids == opp1 && b2.asks == own1);
    }
}

/// Taking out the order at `(i, j)` of side `s`, and its index entry, keeps
/// the book well formed.
pub proof fn lemma_index_after_cancel(b: BookView, s: Side, i: int, j: int)
    requires
        book_wf(b),
        at(book_side(b, s), i, j),
    ensures
        ({
            let id = book_side(b, s)[i].orders[j].id;
            let after = BookView { lookup: b.lookup.remove(id), ..with_side(b, s, remove_at(book_side(b, s), i, j)) };
            &&& book_wf(after)
            &&& !book_holds(after, id)
        }),
{
    let lv = book_side(b, s);
    let id = lv[i].orders[j].id;
    let next = remove_at(lv, i, j);
    let after = BookView { lookup: b.lookup.remove(id), ..with_side(b, s, next) };
    lemma_remove_at(lv, s, i, j);
    lemma_remove_at_kept(lv, s, i, j);
    assert(holds_id(lv, id));
    let other = book_side(b, opposite(s));
    assert(side_indexed(lv, s, b.lookup));
    assert(forall|x: u128| #[trigger] holds_id(lv, x) ==> !holds_id(other, x));
    assert forall|k: int, t: int| #[trigger] at(next, k, t) implies after.lookup[next[k].orders[t].id] == (s, next[k].price) by {
        let x = next[k].orders[t].id;
        let (i0, j0) = choose|i0: int, j0: int|
            at(lv, i0, j0) && #[trigger] lv[i0].orders[j0].id == x && lv[i0].price == next[k].price;
        assert(at(lv, i0, j0));
        assert(holds_id(next, x));
    }
    assert forall|k: int, t: int| #[trigger] at(other, k, t) implies after.lookup[other[k].orders[t].id] == (opposite(s), other[k].price) by {
        assert(holds_id(other, other[k].orders[t].id));
    }
    assert forall|x: u128| #[trigger] after.lookup.contains_key(x) <==> book_holds(after, x) by {
        if holds_id(lv, x) && x != id {
            assert(holds_id(next, x));
        }
        if holds_id(next, x) {
            assert(holds_id(lv, x));
        }
    }
    assert forall|x: u128| #[trigger] holds_id(after.bids, x) implies !holds_id(after.asks, x) by {
        if s == Side::Buy {
            assert(holds_id(b.bids, x));
        } else if holds_id(after.asks, x) {
            assert(holds_id(b.asks, x));
        }
    }
    if s == Side::Buy {
        assert(after.bids == next && after.asks == other);
    } else {
        assert(after.bids == other && after.asks == next);
    }
}

/// Status of an incoming order once matching is over. A resting remainder
/// stays `Open`, partly filled or not; a market order's unfilled remainder
/// makes it `Cancelled`.
pub open spec fn settled_status(o: Order) -> OrderStatus {
    if o.filled_quantity >= o.quantity {
        OrderStatus::Filled
    } else {
        match o.order_type {
            OrderType::Limit => OrderStatus::Open,
            OrderType::Market => OrderStatus::Cancelled,
        }
    }
}

/// The incoming order, once matched, rests in the book.
pub open spec fn rests(o: Order) -> bool {
    o.order_type == OrderType::Limit && o.filled_quantity < o.quantity
}

/// The live order book and recent trades of one market.
pub struct MatchingEngine {
    pub market: String,
    bids: Vec<Level>,
    asks: Vec<Level>,
    order_lookup: HashMap<u128, (Side, u64)>,
    recent_trades: VecDeque<Trade>,
}

impl View for MatchingEngine {
    type V = BookView;

    closed spec fn view(&self) -> BookView {
        BookView {
            market: self.market,
            bids: levels_view(self.bids@),
            asks: levels_view(self.asks@),
            trades: self.recent_trades@,
            lookup: self.order_lookup@,
        }
    }
}

impl MatchingEngine {
    pub open spec fn wf(&self) -> bool {
        book_wf(self@)
    }

    /// An empty book for `market`.
    pub fn new(market: String) -> (r: Self)
        ensures
            r.wf(),
            r@.market == market,
            r@.bids.len() == 0,
            r@.asks.len() == 0,
            r@.trades.len() == 0,
    {
        let r = MatchingEngine {
            market,
            bids: Vec::new(),
            asks: Vec::new(),
            order_lookup: HashMap::new(),
            recent_trades: VecDeque::new(),
        };
        proof {
            assert(r@.bids =~= Seq::<LevelView>::empty());
            assert(r@.asks =~= Seq::<LevelView>::empty());
        }
        r
    }

    /// Whether an order with identifier `id` rests in the book.
    pub fn contains_order(&self, id: u128) -> (r: bool)
        requires
            self.wf(),
        ensures
            r == book_holds(self@, id),
    {
        self.order_lookup.contains_key(&id)
    }

    /// Submits an incoming order: it is matched under price-time priority
    /// against the opposite side; a limit order's remainder then rests on its
    /// own side, a market order's remainder is discarded.
    ///
    /// A market order that is not filled in full ends `Cancelled`, also when
    /// some of it traded: its `filled_quantity` keeps what did. Orders of the
    /// same user are matched against each other like any others.
    pub fn process_order(&mut self, order: Order) -> (r: MatchResult)
        requires
            old(self).wf(),
            order.quantity > 0,
            order.filled_quantity <= order.quantity,
            !book_holds(old(self)@, order.id),
        ensures
            final(self).wf(),
            final(self)@.market == old(self)@.market,
            ({
                let now = r.order.updated_at;
                let t = Order { status: OrderStatus::Open, updated_at: now, ..order };
                let m = match_order(book_side(old(self)@, opposite(order.side)), t, now);
                let after = Order { filled_quantity: (t.filled_quantity + total_filled(m.1)) as u64, ..t };
                &&& t.filled_quantity + total_filled(m.1) <= t.quantity
                &&& trades_record(r.trades@, m.1, t, old(self)@.market, now)
                &&& r.order == (Order { status: settled_status(after), ..after })
                &&& book_side(final(self)@, opposite(order.side)) == m.0
                &&& book_side(final(self)@, order.side) == if rests(after) {
                    insert_resting(book_side(old(self)@, order.side), after)
                } else {
                    book_side(old(self)@, order.side)
                }
                &&& final(self)@.trades == keep_recent(old(self)@.trades + r.trades@)
            }),
            r.status == r.order.status,
    {
        let ghost b0 = self@;
        let now = now_millis();
        let mut order = order;
        order.status = OrderStatus::Open;
        order.updated_at = now;
        let ghost t = order;
        let market = self.market.clone();
        let trades = match order.side {
            Side::Buy => match_incoming(&mut self.asks, &mut order, &market, now, &mut self.order_lookup),
            Side::Sell => match_incoming(&mut self.bids, &mut order, &market, now, &mut self.order_lookup),
        };
        let ghost after = order;
        let ghost b1 = self@;
        if order.filled_quantity < order.quantity {
            match order.order_type {
                OrderType::Limit => {
                    let resting = order.duplicate();
                    proof {
                        assert(!holds_id(book_side(b0, order.side), order.id));
                    }
                    match order.side {
                        Side::Buy => add_resting(&mut self.bids, resting),
                        Side::Sell => add_resting(&mut self.asks, resting),
                    }
                    self.order_lookup.insert(order.id, (order.side, order.price));
                },
                OrderType::Market => {
                    order.status = OrderStatus::Cancelled;
                },
            }
        } else {
            order.status = OrderStatus::Filled;
        }
        proof {
            let s = after.side;
            let own = book_side(self@, s);
            let opp = book_side(self@, opposite(s));
            let own0 = book_side(b0, s);
            assert(ids_within(opp, book_side(b0, opposite(s))));
            assert forall|id: u128| #[trigger] holds_id(own, id) implies holds_id(own0, id) || id == after.id by {}
            assert forall|id: u128| #[trigger] holds_id(self@.bids, id) implies !holds_id(self@.asks, id) by {
                if s == Side::Buy {
                    if holds_id(b0.bids, id) {
                        assert(!holds_id(b0.asks, id));
                    }
                } else {
                    assert(holds_id(b0.bids, id));
                    if holds_id(self@.asks, id) {
                        assert(holds_id(b0.asks, id) || id == after.id);
                    }
                }
            }
            if !rests(after) {
                assert(own == own0);
                assert forall|i: int, j: int| #[trigger] at(own0, i, j) implies exists|i0: int, j0: int|
                    at(own0, i0, j0) && #[trigger] own0[i0].orders[j0].id == own0[i].orders[j].id && own0[i0].price
                        == own0[i].price by {
                    assert(at(own0, i, j));
                }
            }
            lemma_index_after_submit(b0, s, after, rests(after), own, opp, b1.lookup, self@.lookup);
            if s == Side::Buy {
                assert(self@ == BookView { lookup: self@.lookup, ..with_side(with_side(b0, s, own), opposite(s), opp) });
            } else {
                assert(self@ == BookView { lookup: self@.lookup, ..with_side(with_side(b0, s, own), opposite(s), opp) });
            }
        }
        record_trades(&mut self.recent_trades, &trades);
        let status = order.status;
        proof {
            assert(market == b0.market);
        }
        MatchResult { order, trades, status }
    }

    /// Cancels the resting order with identifier `order_id`; nothing happens
    /// and nothing is returned when no such order rests in the book.
    pub fn cancel_order(&mut self, order_id: u128) -> (r: Option<Order>)
        requires
            old(self).wf(),
        ensures
            final(self).wf(),
            final(self)@.market == old(self)@.market,
            final(self)@.trades == old(self)@.trades,
            !book_holds(final(self)@, order_id),
            match r {
                None => !book_holds(old(self)@, order_id) && final(self)@ == old(self)@,
                Some(o) => exists|s: Side, i: int, j: int|
                    at(book_side(old(self)@, s), i, j) && #[trigger] book_side(old(self)@, s)[i].orders[j].id == order_id
                        && o == (Order {
                        status: OrderStatus::Cancelled,
                        updated_at: o.updated_at,
                        ..book_side(old(self)@, s)[i].orders[j]
                    }) && book_side(final(self)@, s) == remove_at(book_side(old(self)@, s), i, j)
                        && book_side(final(self)@, opposite(s)) == book_side(old(self)@, opposite(s)),
            },
    {
        let ghost b0 = self@;
        let found = self.order_lookup.remove(&order_id);
        match found {
            None => {
                proof {
                    assert(self@.lookup =~= b0.lookup);
                    assert(self@ == b0);
                }
                None
            },
            Some(place) => {
                let (side, price) = place;
                proof {
                    assert(book_holds(b0, order_id));
                    let lv = book_side(b0, side);
                    if !holds_id(lv, order_id) {
                        let other = book_side(b0, opposite(side));
                        let (i, j) = choose|i: int, j: int|
                            at(other, i, j) && #[trigger] other[i].orders[j].id == order_id;
                        assert(side_indexed(other, opposite(side), b0.lookup));
                        assert(b0.lookup[order_id] == (opposite(side), other[i].price));
                    }
                    assert(side_indexed(lv, side, b0.lookup));
                    assert forall|i: int, j: int| at(lv, i, j) && #[trigger] lv[i].orders[j].id == order_id implies lv[i].price
                        == price by {}
                }
                let taken = match side {
                    Side::Buy => take_order(&mut self.bids, Side::Buy, price, order_id),
                    Side::Sell => take_order(&mut self.asks, Side::Sell, price, order_id),
                };
                match taken {
                    Some(o) => {
                        let mut o = o;
                        o.status = OrderStatus::Cancelled;
                        o.updated_at = now_millis();
                        proof {
                            let lv = book_side(b0, side);
                            let (i, j) = choose|i: int, j: int|
                                at(lv, i, j) && #[trigger] lv[i].orders[j] == taken->0 && taken->0.id == order_id
                                    && book_side(self@, side) == remove_at(lv, i, j);
                            lemma_index_after_cancel(b0, side, i, j);
                            assert(self@ == BookView { lookup: b0.lookup.remove(order_id), ..with_side(b0, side, remove_at(lv, i, j)) });
                            assert(lv[i].orders[j].id == order_id);
                        }
                        Some(o)
                    },
                    None => {
                        proof {
                            assert(false);
                        }
                        None
                    },
                }
            },
        }
    }

    /// Up to `depth` levels per side: bids by descending price, asks by
    /// ascending price, each with its open quantity and order count.
    pub fn get_order_book_snapshot(&self, depth: usize) -> (r: OrderBookSnapshot)
        requires
            self.wf(),
        ensures
            r.bids@ == depth_view(self@.bids, depth as int),
            r.asks@ == depth_view(self@.asks, depth as int),
    {
        let bids = depth_side(&self.bids, Side::Buy, depth);
        let asks = depth_side(&self.asks, Side::Sell, depth);
        OrderBookSnapshot { bids, asks }
    }

    /// Up to `limit` of the most recent trades, newest first.
    pub fn get_recent_trades(&self, limit: usize) -> (r: Vec<Trade>)
        requires
            self.wf(),
        ensures
            r@ == recent_view(self@.trades, limit as int),
    {
        let n = self.recent_trades.len();
        let mut out: Vec<Trade> = Vec::new();
        let mut k: usize = 0;
        while k < limit && k < n
            invariant
                n == self@.trades.len(),
                k <= n,
                k <= limit,
                out@ == recent_view(self@.trades, k as int),
            decreases n - k,
        {
            let t = self.recent_trades[n - 1 - k].duplicate();
            out.push(t);
            k = k + 1;
            proof {
                assert(out@ =~= recent_view(self@.trades, k as int));
            }
        }
        proof {
            assert(out@ =~= recent_view(self@.trades, limit as int));
        }
        out
    }
}

} // verus!
