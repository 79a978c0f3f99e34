use vstd::prelude::*;

use crate::book::{
    at, better, crosses, fill_front, ids_unique, lemma_fill_front, level_wf, match_levels, remove_at, side_wf,
    total_filled, Fill, LevelView,
};
use crate::engine::{
    book_holds, book_side, book_wf, depth_view, keep_recent, lemma_index_after_cancel, recent_view, trade_of,
    trades_record, with_side, BookView, HISTORY_CAP,
};
use crate::types::{Order, OrderType, Side, Trade};

verus! {

/// Every price at which an incoming order trades crosses its limit and is no
/// better than the best price of the book, and the prices come best first.
proof fn lemma_fill_prices(
    levels: Seq<LevelView>,
    rs: Side,
    s: Side,
    kind: OrderType,
    limit: u64,
    remaining: int,
    now: i64,
)
    requires
        side_wf(levels, rs),
        ids_unique(levels),
    ensures
        ({
            let fills = match_levels(levels, s, kind, limit, remaining, now).1;
            &&& forall|k: int| 0 <= k < fills.len() ==> crosses(s, kind, limit, #[trigger] fills[k].price)
            &&& forall|k: int| 0 <= k < fills.len() ==> !better(rs, #[trigger] fills[k].price, levels[0].price)
            &&& forall|k1: int, k2: int|
                0 <= k1 < k2 < fills.len() ==> !better(rs, #[trigger] fills[k2].price, #[trigger] fills[k1].price)
        }),
    decreases remaining,
{
    let fills = match_levels(levels, s, kind, limit, remaining, now).1;
    if remaining <= 0 || levels.len() == 0 || levels[0].orders.len() == 0 || !crosses(s, kind, limit, levels[0].price) {
    } else {
        lemma_fill_front(levels, rs, remaining, now);
        let step = fill_front(levels, remaining, now);
        let next = step.0;
        let q = step.1.quantity as int;
        lemma_fill_prices(next, rs, s, kind, limit, remaining - q, now);
        let rest = match_levels(next, s, kind, limit, remaining - q, now).1;
        assert(fills == seq![step.1] + rest);
        if next.len() > 0 {
            // the best price left is no better than the best price before
            if next.len() == levels.len() {
                assert(next[0].price == levels[0].price);
            } else {
                assert(next[0] == levels[1]);
                assert(better(rs, levels[0].price, levels[1].price));
            }
        }
        assert forall|k: int| 0 <= k < fills.len() implies crosses(s, kind, limit, #[trigger] fills[k].price)
            && !better(rs, fills[k].price, levels[0].price) by {
            if k > 0 {
                assert(fills[k] == rest[k - 1]);
            }
        }
        assert forall|k1: int, k2: int| 0 <= k1 < k2 < fills.len() implies !better(
            rs,
            #[trigger] fills[k2].price,
            #[trigger] fills[k1].price,
        ) by {
            assert(fills[k2] == rest[k2 - 1]);
            if k1 > 0 {
                assert(fills[k1] == rest[k1 - 1]);
            }
        }
    }
}

/// Crossing correctness: an incoming buy never trades above its limit, a sell
/// never below it, and a market order trades at any price; in all cases the
/// fills come best price first.
pub proof fn lemma_crossing(levels: Seq<LevelView>, s: Side, kind: OrderType, limit: u64, remaining: int, now: i64)
    requires
        side_wf(levels, crate::book::opposite(s)),
        ids_unique(levels),
    ensures
        ({
            let fills = match_levels(levels, s, kind, limit, remaining, now).1;
            &&& forall|k: int|
                0 <= k < fills.len() && kind == OrderType::Limit && s == Side::Buy ==> #[trigger] fills[k].price <= limit
            &&& forall|k: int|
                0 <= k < fills.len() && kind == OrderType::Limit && s == Side::Sell ==> #[trigger] fills[k].price >= limit
            &&& forall|k1: int, k2: int|
                0 <= k1 < k2 < fills.len() && s == Side::Buy ==> #[trigger] fills[k1].price <= #[trigger] fills[k2].price
            &&& forall|k1: int, k2: int|
                0 <= k1 < k2 < fills.len() && s == Side::Sell ==> #[trigger] fills[k1].price >= #[trigger] fills[k2].price
        }),
{
    let rs = crate::book::opposite(s);
    lemma_fill_prices(levels, rs, s, kind, limit, remaining, now);
    let fills = match_levels(levels, s, kind, limit, remaining, now).1;
    assert forall|k: int| 0 <= k < fills.len() implies crosses(s, kind, limit, #[trigger] fills[k].price) by {}
    assert forall|k1: int, k2: int| 0 <= k1 < k2 < fills.len() implies !better(
        rs,
        #[trigger] fills[k2].price,
        #[trigger] fills[k1].price,
    ) by {}
}

/// Price-time priority: of two orders resting at one price, the one that
/// arrived later trades only after the earlier one has been filled in full,
/// whatever other levels the book holds.
pub proof fn lemma_time_priority(
    levels: Seq<LevelView>,
    s: Side,
    kind: OrderType,
    limit: u64,
    remaining: int,
    now: i64,
    i: int,
    j1: int,
    j2: int,
)
    requires
        side_wf(levels, crate::book::opposite(s)),
        ids_unique(levels),
        at(levels, i, j1),
        at(levels, i, j2),
        j1 < j2,
    ensures
        ({
            let fills = match_levels(levels, s, kind, limit, remaining, now).1;
            let first = levels[i].orders[j1].id;
            let second = levels[i].orders[j2].id;
            forall|k: int|
                0 <= k < fills.len() && #[trigger] fills[k].maker.id == second ==> exists|k0: int|
                    0 <= k0 < k && #[trigger] fills[k0].maker.id == first && fills[k0].maker.filled_quantity
                        == fills[k0].maker.quantity
        }),
    decreases remaining,
{
    let rs = crate::book::opposite(s);
    let fills = match_levels(levels, s, kind, limit, remaining, now).1;
    let first = levels[i].orders[j1].id;
    let second = levels[i].orders[j2].id;
    if remaining <= 0 || levels.len() == 0 || levels[0].orders.len() == 0 || !crosses(s, kind, limit, levels[0].price) {
    } else {
        lemma_fill_front(levels, rs, remaining, now);
        let step = fill_front(levels, remaining, now);
        let next = step.0;
        let f = step.1;
        let q = f.quantity as int;
        let rest = match_levels(next, s, kind, limit, remaining - q, now).1;
        assert(fills == seq![f] + rest);
        assert(fills[0] == f);
        assert(at(levels, 0, 0));
        assert(f.maker.id != second) by {
            if f.maker.id == second {
                assert(levels[0].orders[0].id == levels[i].orders[j2].id);
            }
        }
        let m = f.maker;
        assert(level_wf(levels[0], rs));
        let full = m.filled_quantity >= m.quantity;
        if i == 0 && j1 == 0 && full {
            assert forall|k: int| 0 <= k < fills.len() && #[trigger] fills[k].maker.id == second implies exists|k0: int|
                0 <= k0 < k && #[trigger] fills[k0].maker.id == first && fills[k0].maker.filled_quantity
                    == fills[k0].maker.quantity by {
                assert(k != 0);
                assert(fills[0].maker.id == first);
            }
        } else {
            let ni = if i == 0 {
                0
            } else if next.len() < levels.len() {
                i - 1
            } else {
                i
            };
            let nj1 = if i == 0 && full { j1 - 1 } else { j1 };
            let nj2 = if i == 0 && full { j2 - 1 } else { j2 };
            if i == 0 {
                if full {
                    assert(next[0].orders =~= levels[0].orders.drop_first());
                } else {
                    assert(next[0].orders =~= levels[0].orders.update(0, m));
                }
            } else if next.len() < levels.len() {
                assert(next[i - 1] == levels[i]);
            } else {
                assert(next[i] == levels[i]);
            }
            assert(at(next, ni, nj1) && next[ni].orders[nj1].id == first);
            assert(at(next, ni, nj2) && next[ni].orders[nj2].id == second);
            lemma_time_priority(next, s, kind, limit, remaining - q, now, ni, nj1, nj2);
            assert forall|k: int| 0 <= k < fills.len() && #[trigger] fills[k].maker.id == second implies exists|k0: int|
                0 <= k0 < k && #[trigger] fills[k0].maker.id == first && fills[k0].maker.filled_quantity
                    == fills[k0].maker.quantity by {
                assert(k != 0);
                assert(fills[k] == rest[k - 1]);
                let k0 = choose|k0: int|
                    0 <= k0 < k - 1 && #[trigger] rest[k0].maker.id == first && rest[k0].maker.filled_quantity
                        == rest[k0].maker.quantity;
                assert(fills[k0 + 1] == rest[k0]);
            }
        }
    }
}

/// Sum of the quantities of `trades`.
pub open spec fn trade_total(trades: Seq<Trade>) -> int
    decreases trades.len(),
{
    if trades.len() == 0 {
        0
    } else {
        trade_total(trades.drop_last()) + trades.last().quantity
    }
}

/// Sum of the quantities of the fills in `fills` against the order `id`.
pub open spec fn filled_against(fills: Seq<Fill>, id: u128) -> int
    decreases fills.len(),
{
    if fills.len() == 0 {
        0
    } else {
        (if fills[0].maker.id == id {
            fills[0].quantity as int
        } else {
            0
        }) + filled_against(fills.drop_first(), id)
    }
}

/// Conservation on the incoming side: the trades of a submission add up to
/// what its fills added to the incoming order's filled quantity.
pub proof fn lemma_taker_conservation(trades: Seq<Trade>, fills: Seq<Fill>, taker: Order, market: String, now: i64)
    requires
        trades_record(trades, fills, taker, market, now),
    ensures
        trade_total(trades) == total_filled(fills),
    decreases trades.len(),
{
    if trades.len() > 0 {
        let tl = trades.drop_last();
        let fl = fills.drop_last();
        assert forall|k: int| 0 <= k < tl.len() implies trade_of(#[trigger] tl[k], fl[k], taker, market, now) by {
            assert(tl[k] == trades[k]);
        }
        lemma_taker_conservation(tl, fl, taker, market, now);
        assert(trade_of(trades[trades.len() - 1], fills[fills.len() - 1], taker, market, now));
    }
}

/// Each resting order left after one match stands in the book before it,
/// with the match's quantity added to its filled quantity if it was the maker.
proof fn lemma_fill_front_filled(levels: Seq<LevelView>, rs: Side, remaining: int, now: i64)
    requires
        side_wf(levels, rs),
        ids_unique(levels),
        levels.len() > 0,
        remaining > 0,
    ensures
        ({
            let next = fill_front(levels, remaining, now).0;
            let f = fill_front(levels, remaining, now).1;
            forall|i: int, j: int| #[trigger] at(next, i, j) ==> exists|i0: int, j0: int|
                at(levels, i0, j0) && #[trigger] levels[i0].orders[j0].id == next[i].orders[j].id
                    && next[i].orders[j].filled_quantity == levels[i0].orders[j0].filled_quantity + (if next[i].orders[j].id
                    == f.maker.id {
                    f.quantity as int
                } else {
                    0
                })
        }),
{
    lemma_fill_front(levels, rs, remaining, now);
    let next = fill_front(levels, remaining, now).0;
    let f = fill_front(levels, remaining, now).1;
    let m = f.maker;
    let lvl = levels[0];
    assert(level_wf(lvl, rs));
    assert(at(levels, 0, 0));
    let full = m.filled_quantity >= m.quantity;
    assert forall|i: int, j: int| #[trigger] at(next, i, j) implies exists|i0: int, j0: int|
        at(levels, i0, j0) && #[trigger] levels[i0].orders[j0].id == next[i].orders[j].id
            && next[i].orders[j].filled_quantity == levels[i0].orders[j0].filled_quantity + (if next[i].orders[j].id
            == f.maker.id {
            f.quantity as int
        } else {
            0
        }) by {
        let vanished = next.len() < levels.len();
        let i0 = if vanished { i + 1 } else { i };
        let j0 = if i == 0 && !vanished && full { j + 1 } else { j };
        if vanished {
            assert(next[i] == levels[i + 1]);
        } else if i == 0 {
            if full {
                assert(next[0].orders =~= lvl.orders.drop_first());
            } else {
                assert(next[0].orders =~= lvl.orders.update(0, m));
            }
        } else {
            assert(next[i] == levels[i]);
        }
        assert(at(levels, i0, j0));
        if !(i0 == 0 && j0 == 0) {
            assert(levels[i0].orders[j0] == next[i].orders[j]);
            if next[i].orders[j].id == f.maker.id {
                assert(levels[0].orders[0].id == levels[i0].orders[j0].id);
            }
        }
    }
}

/// Conservation on the resting side: after each fill of a submission, its
/// maker's filled quantity is the one it rested with plus the quantities of
/// all fills against it so far, that one included.
pub proof fn lemma_maker_conservation(
    levels: Seq<LevelView>,
    s: Side,
    kind: OrderType,
    limit: u64,
    remaining: int,
    now: i64,
)
    requires
        side_wf(levels, crate::book::opposite(s)),
        ids_unique(levels),
    ensures
        ({
            let fills = match_levels(levels, s, kind, limit, remaining, now).1;
            forall|k: int| 0 <= k < fills.len() ==> exists|i: int, j: int|
                at(levels, i, j) && #[trigger] levels[i].orders[j].id == (#[trigger] fills[k]).maker.id
                    && fills[k].maker.filled_quantity == levels[i].orders[j].filled_quantity + filled_against(
                    fills.take(k + 1),
                    fills[k].maker.id,
                )
        }),
    decreases remaining,
{
    let rs = crate::book::opposite(s);
    let fills = match_levels(levels, s, kind, limit, remaining, now).1;
    if remaining <= 0 || levels.len() == 0 || levels[0].orders.len() == 0 || !crosses(s, kind, limit, levels[0].price) {
    } else {
        lemma_fill_front(levels, rs, remaining, now);
        lemma_fill_front_filled(levels, rs, remaining, now);
        let step = fill_front(levels, remaining, now);
        let next = step.0;
        let f = step.1;
        let q = f.quantity as int;
        let rest = match_levels(next, s, kind, limit, remaining - q, now).1;
        lemma_maker_conservation(next, s, kind, limit, remaining - q, now);
        assert(fills == seq![f] + rest);
        assert(at(levels, 0, 0));
        assert forall|k: int| 0 <= k < fills.len() implies exists|i: int, j: int|
            at(levels, i, j) && #[trigger] levels[i].orders[j].id == (#[trigger] fills[k]).maker.id
                && fills[k].maker.filled_quantity == levels[i].orders[j].filled_quantity + filled_against(
                fills.take(k + 1),
                fills[k].maker.id,
            ) by {
            let x = fills[k].maker.id;
            assert(fills.take(k + 1).drop_first() =~= rest.take(k));
            assert(fills.take(k + 1)[0] == f);
            assert(filled_against(fills.take(k + 1), x) == (if f.maker.id == x {
                q
            } else {
                0
            }) + filled_against(rest.take(k), x));
            if k == 0 {
                assert(rest.take(0).len() == 0);
                assert(filled_against(rest.take(0), x) == 0);
                assert(levels[0].orders[0].id == x);
                assert(f.maker.filled_quantity == levels[0].orders[0].filled_quantity + q);
                assert(fills[k].maker.filled_quantity == levels[0].orders[0].filled_quantity + filled_against(
                    fills.take(k + 1),
                    x,
                ));
            } else {
                assert(fills[k] == rest[k - 1]);
                let (i1, j1) = choose|i1: int, j1: int|
                    at(next, i1, j1) && #[trigger] next[i1].orders[j1].id == (#[trigger] rest[k - 1]).maker.id
                        && rest[k - 1].maker.filled_quantity == next[i1].orders[j1].filled_quantity + filled_against(
                        rest.take(k),
                        rest[k - 1].maker.id,
                    );
                assert(at(next, i1, j1));
                let (i0, j0) = choose|i0: int, j0: int|
                    at(levels, i0, j0) && #[trigger] levels[i0].orders[j0].id == next[i1].orders[j1].id
                        && next[i1].orders[j1].filled_quantity == levels[i0].orders[j0].filled_quantity + (if next[i1].orders[j1].id
                        == f.maker.id {
                        f.quantity as int
                    } else {
                        0
                    });
                assert(at(levels, i0, j0) && levels[i0].orders[j0].id == x);
                assert(fills[k].maker.filled_quantity == levels[i0].orders[j0].filled_quantity + filled_against(
                    fills.take(k + 1),
                    x,
                ));
            }
        }
    }
}

/// No empty levels: in a well-formed book, the state that every submission
/// and cancellation leaves behind, each price level holds a resting order.
pub proof fn lemma_no_empty_levels(b: BookView)
    requires
        book_wf(b),
    ensures
        forall|i: int| 0 <= i < b.bids.len() ==> (#[trigger] b.bids[i]).orders.len() > 0,
        forall|i: int| 0 <= i < b.asks.len() ==> (#[trigger] b.asks[i]).orders.len() > 0,
{
    assert forall|i: int| 0 <= i < b.bids.len() implies (#[trigger] b.bids[i]).orders.len() > 0 by {
        assert(level_wf(b.bids[i], Side::Buy));
    }
    assert forall|i: int| 0 <= i < b.asks.len() implies (#[trigger] b.asks[i]).orders.len() > 0 by {
        assert(level_wf(b.asks[i], Side::Sell));
    }
}

/// Depth truncation: a snapshot of depth `depth` holds at most `depth`
/// levels per side, bids in strictly descending and asks in strictly
/// ascending price order.
pub proof fn lemma_snapshot_depth(b: BookView, depth: int)
    requires
        book_wf(b),
        depth >= 0,
    ensures
        depth_view(b.bids, depth).len() <= depth,
        depth_view(b.asks, depth).len() <= depth,
        forall|i: int, k: int|
            0 <= i < k < depth_view(b.bids, depth).len() ==> #[trigger] depth_view(b.bids, depth)[i].price
                > #[trigger] depth_view(b.bids, depth)[k].price,
        forall|i: int, k: int|
            0 <= i < k < depth_view(b.asks, depth).len() ==> #[trigger] depth_view(b.asks, depth)[i].price
                < #[trigger] depth_view(b.asks, depth)[k].price,
{
    assert forall|i: int, k: int| 0 <= i < k < depth_view(b.bids, depth).len() implies #[trigger] depth_view(
        b.bids,
        depth,
    )[i].price > #[trigger] depth_view(b.bids, depth)[k].price by {
        assert(better(Side::Buy, b.bids[i].price, b.bids[k].price));
    }
    assert forall|i: int, k: int| 0 <= i < k < depth_view(b.asks, depth).len() implies #[trigger] depth_view(
        b.asks,
        depth,
    )[i].price < #[trigger] depth_view(b.asks, depth)[k].price by {
        assert(better(Side::Sell, b.asks[i].price, b.asks[k].price));
    }
}

/// History cap: once more than `HISTORY_CAP` trades have been recorded, the
/// newest `HISTORY_CAP` of them are exactly what the history returns, newest
/// first; the older ones are gone.
pub proof fn lemma_history_cap(old_history: Seq<Trade>, added: Seq<Trade>)
    requires
        old_history.len() <= HISTORY_CAP,
        old_history.len() + added.len() > HISTORY_CAP,
    ensures
        ({
            let all = old_history + added;
            let r = recent_view(keep_recent(all), HISTORY_CAP as int);
            &&& keep_recent(all).len() == HISTORY_CAP
            &&& r.len() == HISTORY_CAP
            &&& forall|k: int| 0 <= k < HISTORY_CAP ==> #[trigger] r[k] == all[all.len() - 1 - k]
        }),
{
}

/// Idempotent cancellation: once the order at `(i, j)` of side `s` and its
/// index entry are taken out, the book is still well formed and holds no
/// order with its identifier, so a second cancellation finds nothing and
/// changes nothing.
pub proof fn lemma_cancel_idempotent(b: BookView, s: Side, i: int, j: int)
    requires
        book_wf(b),
        at(book_side(b, s), i, j),
    ensures
        ({
            let id = book_side(b, s)[i].orders[j].id;
            let after = BookView { lookup: b.lookup.remove(id), ..with_side(b, s, remove_at(book_side(b, s), i, j)) };
            &&& book_wf(after)
            &&& !book_holds(after, id)
            &&& !after.lookup.contains_key(id)
        }),
{
    lemma_index_after_cancel(b, s, i, j);
}

} // verus!
