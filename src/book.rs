use vstd::prelude::*;

use crate::types::{Order, OrderStatus, OrderType, Side};

verus! {

/// One price level as a value: its price and its resting orders, oldest first.
pub struct LevelView {
    pub price: u64,
    pub orders: Seq<Order>,
}

/// The effect of one match on the resting side: the maker order after the
/// match, the execution price and the matched quantity.
pub struct Fill {
    pub maker: Order,
    pub price: u64,
    pub quantity: u64,
}

/// The side whose orders an incoming order of side `s` trades against.
pub open spec fn opposite(s: Side) -> Side {
    match s {
        Side::Buy => Side::Sell,
        Side::Sell => Side::Buy,
    }
}

/// On the book side `s`, price `a` comes strictly before price `b`
/// (higher bids first, lower asks first).
pub open spec fn better(s: Side, a: u64, b: u64) -> bool {
    match s {
        Side::Buy => a > b,
        Side::Sell => a < b,
    }
}

/// An incoming order of side `s`, kind `kind` and limit `limit` may trade
/// at `price`.
pub open spec fn crosses(s: Side, kind: OrderType, limit: u64, price: u64) -> bool {
    match kind {
        OrderType::Market => true,
        OrderType::Limit => match s {
            Side::Buy => price <= limit,
            Side::Sell => price >= limit,
        },
    }
}

/// An order that may rest on side `s` at `price`.
pub open spec fn resting_ok(o: Order, s: Side, price: u64) -> bool {
    &&& o.side == s
    &&& o.price == price
    &&& o.order_type == OrderType::Limit
    &&& o.status == OrderStatus::Open
    &&& o.filled_quantity < o.quantity
}

pub open spec fn level_wf(l: LevelView, s: Side) -> bool {
    &&& l.orders.len() > 0
    &&& forall|j: int| 0 <= j < l.orders.len() ==> resting_ok(#[trigger] l.orders[j], s, l.price)
}

/// Every level is non-empty and holds well-formed orders of side `s`, and the
/// levels stand in strict best-first price order.
pub open spec fn side_wf(levels: Seq<LevelView>, s: Side) -> bool {
    &&& forall|i: int| 0 <= i < levels.len() ==> level_wf(#[trigger] levels[i], s)
    &&& forall|i: int, k: int|
        0 <= i < k < levels.len() ==> better(s, #[trigger] levels[i].price, #[trigger] levels[k].price)
}

pub open spec fn at(levels: Seq<LevelView>, i: int, j: int) -> bool {
    0 <= i < levels.len() && 0 <= j < levels[i].orders.len()
}

/// Some resting order on these levels has identifier `id`.
pub open spec fn holds_id(levels: Seq<LevelView>, id: u128) -> bool {
    exists|i: int, j: int| at(levels, i, j) && #[trigger] levels[i].orders[j].id == id
}

/// No two resting orders share an identifier.
pub open spec fn ids_unique(levels: Seq<LevelView>) -> bool {
    forall|i1: int, j1: int, i2: int, j2: int|
        at(levels, i1, j1) && at(levels, i2, j2) && #[trigger] levels[i1].orders[j1].id
            == #[trigger] levels[i2].orders[j2].id ==> i1 == i2 && j1 == j2
}

/// The two sides share no identifier.
pub open spec fn ids_disjoint(a: Seq<LevelView>, b: Seq<LevelView>) -> bool {
    forall|id: u128| #[trigger] holds_id(a, id) ==> !holds_id(b, id)
}

pub open spec fn ids_within(a: Seq<LevelView>, b: Seq<LevelView>) -> bool {
    forall|id: u128| #[trigger] holds_id(a, id) ==> holds_id(b, id)
}

/// Every resting order of `next` other than `o` rests in `prev` too, at the
/// same price; `o`, where it rests in `next`, rests at its own price.
pub open spec fn orders_kept(next: Seq<LevelView>, prev: Seq<LevelView>, o: Option<Order>) -> bool {
    forall|i: int, j: int| #[trigger] at(next, i, j) ==> {
        ||| (o is Some && next[i].orders[j].id == o->0.id && next[i].price == o->0.price)
        ||| exists|i0: int, j0: int|
            at(prev, i0, j0) && #[trigger] prev[i0].orders[j0].id == next[i].orders[j].id && prev[i0].price
                == next[i].price
    }
}

pub proof fn lemma_orders_kept_trans(a: Seq<LevelView>, b: Seq<LevelView>, c: Seq<LevelView>)
    requires
        orders_kept(a, b, None),
        orders_kept(b, c, None),
    ensures
        orders_kept(a, c, None),
{
    assert forall|i: int, j: int| #[trigger] at(a, i, j) implies exists|i0: int, j0: int|
        at(c, i0, j0) && #[trigger] c[i0].orders[j0].id == a[i].orders[j].id && c[i0].price == a[i].price by {
        let (i1, j1) = choose|i1: int, j1: int|
            at(b, i1, j1) && #[trigger] b[i1].orders[j1].id == a[i].orders[j].id && b[i1].price == a[i].price;
        assert(at(b, i1, j1));
        let (i0, j0) = choose|i0: int, j0: int|
            at(c, i0, j0) && #[trigger] c[i0].orders[j0].id == b[i1].orders[j1].id && c[i0].price == b[i1].price;
    }
}

/// The levels after the resting order at `(i, j)` leaves, with its level
/// dropped when it becomes empty.
pub open spec fn remove_at(levels: Seq<LevelView>, i: int, j: int) -> Seq<LevelView> {
    let orders = levels[i].orders.remove(j);
    if orders.len() == 0 {
        levels.remove(i)
    } else {
        levels.update(i, LevelView { price: levels[i].price, orders })
    }
}

/// One match of an incoming order with `remaining` open quantity against the
/// oldest order at the best level, stamped with time `now`.
pub open spec fn fill_front(levels: Seq<LevelView>, remaining: int, now: i64) -> (Seq<LevelView>, Fill) {
    let lvl = levels[0];
    let maker = lvl.orders[0];
    let q: u64 = if remaining < maker.remaining() {
        remaining as u64
    } else {
        (maker.quantity - maker.filled_quantity) as u64
    };
    let m = Order { filled_quantity: (maker.filled_quantity + q) as u64, updated_at: now, ..maker };
    let orders = if m.filled_quantity < m.quantity {
        lvl.orders.update(0, m)
    } else {
        lvl.orders.drop_first()
    };
    let next = if orders.len() == 0 {
        levels.drop_first()
    } else {
        levels.update(0, LevelView { price: lvl.price, orders })
    };
    (next, Fill { maker: m, price: lvl.price, quantity: q })
}

/// Continuous matching: the resting levels that are left and the fills made,
/// in execution order, when an incoming order of side `s`, kind `kind`,
/// limit `limit` and open quantity `remaining` meets `levels`.
pub open spec fn match_levels(
    levels: Seq<LevelView>,
    s: Side,
    kind: OrderType,
    limit: u64,
    remaining: int,
    now: i64,
) -> (Seq<LevelView>, Seq<Fill>)
    decreases remaining,
{
    if remaining <= 0 || levels.len() == 0 || levels[0].orders.len() == 0 || !crosses(
        s,
        kind,
        limit,
        levels[0].price,
    ) {
        (levels, seq![])
    } else {
        let step = fill_front(levels, remaining, now);
        let q = step.1.quantity as int;
        if q <= 0 || q > remaining {
            (levels, seq![])
        } else {
            let rest = match_levels(step.0, s, kind, limit, remaining - q, now);
            (rest.0, seq![step.1] + rest.1)
        }
    }
}

/// Sum of the quantities of `fills`.
pub open spec fn total_filled(fills: Seq<Fill>) -> int
    decreases fills.len(),
{
    if fills.len() == 0 {
        0
    } else {
        total_filled(fills.drop_last()) + fills.last().quantity
    }
}

/// Open quantity resting in `orders`.
pub open spec fn open_quantity(orders: Seq<Order>) -> int
    decreases orders.len(),
{
    if orders.len() == 0 {
        0
    } else {
        open_quantity(orders.drop_last()) + orders.last().remaining()
    }
}

/// The levels after the order `o` comes to rest: at the tail of the level at
/// its price, or in a new level at its place in price order.
pub open spec fn insert_resting(levels: Seq<LevelView>, o: Order) -> Seq<LevelView>
    decreases levels.len(),
{
    if levels.len() == 0 {
        seq![LevelView { price: o.price, orders: seq![o] }]
    } else if levels[0].price == o.price {
        levels.update(0, LevelView { price: o.price, orders: levels[0].orders.push(o) })
    } else if better(o.side, o.price, levels[0].price) {
        seq![LevelView { price: o.price, orders: seq![o] }] + levels
    } else {
        seq![levels[0]] + insert_resting(levels.drop_first(), o)
    }
}

pub proof fn lemma_fill_front(levels: Seq<LevelView>, s: Side, remaining: int, now: i64)
    requires
        side_wf(levels, s),
        ids_unique(levels),
        levels.len() > 0,
        remaining > 0,
    ensures
        side_wf(fill_front(levels, remaining, now).0, s),
        ids_unique(fill_front(levels, remaining, now).0),
        ids_within(fill_front(levels, remaining, now).0, levels),
        fill_front(levels, remaining, now).1.quantity > 0,
        fill_front(levels, remaining, now).1.quantity <= remaining,
        fill_front(levels, remaining, now).1.maker.id == levels[0].orders[0].id,
{
    let (next, f) = fill_front(levels, remaining, now);
    let lvl = levels[0];
    assert(level_wf(lvl, s));
    assert(resting_ok(lvl.orders[0], s, lvl.price));
    let m = f.maker;
    let orders = if m.filled_quantity < m.quantity {
        lvl.orders.update(0, m)
    } else {
        lvl.orders.drop_first()
    };
    // the orders of the front level after the fill
    assert forall|j: int| 0 <= j < orders.len() implies resting_ok(#[trigger] orders[j], s, lvl.price) by {
        if m.filled_quantity < m.quantity {
            if j != 0 {
                assert(orders[j] == lvl.orders[j]);
            }
        } else {
            assert(orders[j] == lvl.orders[j + 1]);
        }
    }
    if orders.len() == 0 {
        assert(next =~= levels.drop_first());
        assert forall|i: int| 0 <= i < next.len() implies level_wf(#[trigger] next[i], s) by {
            assert(next[i] == levels[i + 1]);
        }
        assert forall|i: int, k: int| 0 <= i < k < next.len() implies better(s, #[trigger] next[i].price, #[trigger] next[k].price) by {
            assert(next[i] == levels[i + 1]);
            assert(next[k] == levels[k + 1]);
        }
        assert forall|i1: int, j1: int, i2: int, j2: int|
            at(next, i1, j1) && at(next, i2, j2) && #[trigger] next[i1].orders[j1].id
                == #[trigger] next[i2].orders[j2].id implies i1 == i2 && j1 == j2 by {
            assert(next[i1] == levels[i1 + 1]);
            assert(next[i2] == levels[i2 + 1]);
            assert(at(levels, i1 + 1, j1) && at(levels, i2 + 1, j2));
            assert(levels[i1 + 1].orders[j1].id == levels[i2 + 1].orders[j2].id);
        }
        assert forall|id: u128| #[trigger] holds_id(next, id) implies holds_id(levels, id) by {
            let (i, j) = choose|i: int, j: int| at(next, i, j) && #[trigger] next[i].orders[j].id == id;
            assert(next[i] == levels[i + 1]);
            assert(at(levels, i + 1, j) && levels[i + 1].orders[j].id == id);
        }
    } else {
        let nl = LevelView { price: lvl.price, orders };
        assert(next == levels.update(0, nl));
        assert(level_wf(nl, s));
        assert forall|i: int| 0 <= i < next.len() implies level_wf(#[trigger] next[i], s) by {
            if i != 0 {
                assert(next[i] == levels[i]);
            }
        }
        assert forall|i: int, k: int| 0 <= i < k < next.len() implies better(s, #[trigger] next[i].price, #[trigger] next[k].price) by {
            assert(next[k] == levels[k]);
            if i != 0 {
                assert(next[i] == levels[i]);
            } else {
                assert(better(s, levels[0].price, levels[k].price));
            }
        }
        // a position of `next` and the position of `levels` it came from
        let src = |i: int, j: int| -> int {
            if i == 0 && m.filled_quantity >= m.quantity { j + 1 } else { j }
        };
        assert forall|i: int, j: int| #[trigger] at(next, i, j) implies at(levels, i, src(i, j))
            && next[i].orders[j].id == levels[i].orders[src(i, j)].id by {
            if i == 0 {
                if m.filled_quantity < m.quantity {
                    if j == 0 {
                        assert(next[i].orders[j] == m);
                    } else {
                        assert(next[i].orders[j] == lvl.orders[j]);
                    }
                } else {
                    assert(next[i].orders[j] == lvl.orders[j + 1]);
                }
            } else {
                assert(next[i] == levels[i]);
            }
        }
        assert forall|i1: int, j1: int, i2: int, j2: int|
            at(next, i1, j1) && at(next, i2, j2) && #[trigger] next[i1].orders[j1].id
                == #[trigger] next[i2].orders[j2].id implies i1 == i2 && j1 == j2 by {
            assert(at(next, i1, j1));
            assert(at(next, i2, j2));
            assert(levels[i1].orders[src(i1, j1)].id == levels[i2].orders[src(i2, j2)].id);
        }
        assert forall|id: u128| #[trigger] holds_id(next, id) implies holds_id(levels, id) by {
            let (i, j) = choose|i: int, j: int| at(next, i, j) && #[trigger] next[i].orders[j].id == id;
            assert(at(next, i, j));
            assert(levels[i].orders[src(i, j)].id == id);
        }
    }
}

/// Levels strictly better than the price of `o` stay in front of it.
pub proof fn lemma_insert_split(levels: Seq<LevelView>, o: Order, i: int)
    requires
        0 <= i <= levels.len(),
        forall|k: int| 0 <= k < i ==> better(o.side, #[trigger] levels[k].price, o.price),
    ensures
        insert_resting(levels, o) == levels.subrange(0, i) + insert_resting(levels.subrange(i, levels.len() as int), o),
    decreases i,
{
    if i == 0 {
        assert(levels.subrange(0, 0) + insert_resting(levels.subrange(0, levels.len() as int), o) =~= insert_resting(levels, o)) by {
            assert(levels.subrange(0, levels.len() as int) =~= levels);
        }
    } else {
        let tail = levels.drop_first();
        assert(better(o.side, levels[0].price, o.price));
        assert forall|k: int| 0 <= k < i - 1 implies better(o.side, #[trigger] tail[k].price, o.price) by {
            assert(tail[k] == levels[k + 1]);
        }
        lemma_insert_split(tail, o, i - 1);
        assert(tail.subrange(i - 1, tail.len() as int) =~= levels.subrange(i, levels.len() as int));
        assert(seq![levels[0]] + tail.subrange(0, i - 1) =~= levels.subrange(0, i));
        assert(insert_resting(levels, o) == seq![levels[0]] + insert_resting(tail, o));
        assert((seq![levels[0]] + tail.subrange(0, i - 1)) + insert_resting(levels.subrange(i, levels.len() as int), o)
            =~= seq![levels[0]] + (tail.subrange(0, i - 1) + insert_resting(tail.subrange(i - 1, tail.len() as int), o)));
    }
}

/// Appending a fresh resting order to the level at index `i`, whose price it
/// has, keeps the side well formed.
pub proof fn lemma_append_at(levels: Seq<LevelView>, i: int, o: Order)
    requires
        side_wf(levels, o.side),
        ids_unique(levels),
        !holds_id(levels, o.id),
        0 <= i < levels.len(),
        levels[i].price == o.price,
        resting_ok(o, o.side, o.price),
    ensures
        ({
            let next = levels.update(i, LevelView { price: o.price, orders: levels[i].orders.push(o) });
            &&& side_wf(next, o.side)
            &&& ids_unique(next)
            &&& forall|id: u128| #[trigger] holds_id(next, id) <==> (holds_id(levels, id) || id == o.id)
        }),
{
    let next = levels.update(i, LevelView { price: o.price, orders: levels[i].orders.push(o) });
    let n = levels[i].orders.len() as int;
    assert(level_wf(levels[i], o.side));
    assert forall|k: int| 0 <= k < next.len() implies level_wf(#[trigger] next[k], o.side) by {
        if k == i {
            assert forall|j: int| 0 <= j < next[k].orders.len() implies resting_ok(#[trigger] next[k].orders[j], o.side, next[k].price) by {
                if j < n {
                    assert(next[k].orders[j] == levels[i].orders[j]);
                }
            }
        } else {
            assert(next[k] == levels[k]);
        }
    }
    assert forall|a: int, b: int| 0 <= a < b < next.len() implies better(o.side, #[trigger] next[a].price, #[trigger] next[b].price) by {
        assert(better(o.side, levels[a].price, levels[b].price));
    }
    assert forall|k: int, j: int| #[trigger] at(next, k, j) && !(k == i && j == n) implies at(levels, k, j)
        && next[k].orders[j] == levels[k].orders[j] by {
        if k == i {
            assert(next[k].orders[j] == levels[i].orders[j]);
        }
    }
    assert(next[i].orders[n] == o);
    assert forall|i1: int, j1: int, i2: int, j2: int|
        at(next, i1, j1) && at(next, i2, j2) && #[trigger] next[i1].orders[j1].id
            == #[trigger] next[i2].orders[j2].id implies i1 == i2 && j1 == j2 by {
        assert(at(next, i1, j1));
        assert(at(next, i2, j2));
        if (i1 == i && j1 == n) && !(i2 == i && j2 == n) {
            assert(levels[i2].orders[j2].id == o.id);
            assert(holds_id(levels, o.id));
        } else if !(i1 == i && j1 == n) && (i2 == i && j2 == n) {
            assert(levels[i1].orders[j1].id == o.id);
            assert(holds_id(levels, o.id));
        }
    }
    assert forall|id: u128| #[trigger] holds_id(next, id) <==> (holds_id(levels, id) || id == o.id) by {
        if holds_id(next, id) {
            let (k, j) = choose|k: int, j: int| at(next, k, j) && #[trigger] next[k].orders[j].id == id;
            assert(at(next, k, j));
            if !(k == i && j == n) {
                assert(levels[k].orders[j].id == id);
            }
        }
        if holds_id(levels, id) {
            let (k, j) = choose|k: int, j: int| at(levels, k, j) && #[trigger] levels[k].orders[j].id == id;
            if k == i {
                assert(next[k].orders[j] == levels[k].orders[j]);
            } else {
                assert(next[k] == levels[k]);
            }
            assert(at(next, k, j) && next[k].orders[j].id == id);
        }
        if id == o.id {
            assert(at(next, i, n) && next[i].orders[n].id == id);
        }
    }
}

/// Opening a new level for a fresh resting order at index `i`, between the
/// better and the worse prices, keeps the side well formed.
pub proof fn lemma_new_level_at(levels: Seq<LevelView>, i: int, o: Order)
    requires
        side_wf(levels, o.side),
        ids_unique(levels),
        !holds_id(levels, o.id),
        0 <= i <= levels.len(),
        forall|k: int| 0 <= k < i ==> better(o.side, #[trigger] levels[k].price, o.price),
        i < levels.len() ==> better(o.side, o.price, levels[i].price),
        resting_ok(o, o.side, o.price),
    ensures
        ({
            let next = levels.insert(i, LevelView { price: o.price, orders: seq![o] });
            &&& side_wf(next, o.side)
            &&& ids_unique(next)
            &&& forall|id: u128| #[trigger] holds_id(next, id) <==> (holds_id(levels, id) || id == o.id)
        }),
{
    let nl = LevelView { price: o.price, orders: seq![o] };
    let next = levels.insert(i, nl);
    // position in `levels` of the level at index `k` of `next`
    let src = |k: int| -> int { if k < i { k } else { k - 1 } };
    assert forall|k: int| 0 <= k < next.len() && k != i implies #[trigger] next[k] == levels[src(k)] by {}
    assert(level_wf(nl, o.side));
    assert forall|k: int| 0 <= k < next.len() implies level_wf(#[trigger] next[k], o.side) by {
        if k != i {
            assert(next[k] == levels[src(k)]);
        }
    }
    assert forall|a: int, b: int| 0 <= a < b < next.len() implies better(o.side, #[trigger] next[a].price, #[trigger] next[b].price) by {
        if a == i {
            assert(next[b] == levels[b - 1]);
            if b - 1 > i {
                assert(better(o.side, levels[i].price, levels[b - 1].price));
            }
        } else if b == i {
            assert(next[a] == levels[a]);
        } else {
            assert(next[a] == levels[src(a)]);
            assert(next[b] == levels[src(b)]);
            if src(a) == i - 1 && src(b) == i {
                assert(better(o.side, levels[i - 1].price, o.price));
            }
        }
    }
    assert forall|i1: int, j1: int, i2: int, j2: int|
        at(next, i1, j1) && at(next, i2, j2) && #[trigger] next[i1].orders[j1].id
            == #[trigger] next[i2].orders[j2].id implies i1 == i2 && j1 == j2 by {
        if i1 != i && i2 != i {
            assert(next[i1] == levels[src(i1)]);
            assert(next[i2] == levels[src(i2)]);
            assert(at(levels, src(i1), j1) && at(levels, src(i2), j2));
        } else if i1 == i && i2 != i {
            assert(next[i2] == levels[src(i2)]);
            assert(at(levels, src(i2), j2) && levels[src(i2)].orders[j2].id == o.id);
        } else if i1 != i && i2 == i {
            assert(next[i1] == levels[src(i1)]);
            assert(at(levels, src(i1), j1) && levels[src(i1)].orders[j1].id == o.id);
        }
    }
    assert forall|id: u128| #[trigger] holds_id(next, id) <==> (holds_id(levels, id) || id == o.id) by {
        if holds_id(next, id) {
            let (k, j) = choose|k: int, j: int| at(next, k, j) && #[trigger] next[k].orders[j].id == id;
            if k != i {
                assert(next[k] == levels[src(k)]);
                assert(at(levels, src(k), j) && levels[src(k)].orders[j].id == id);
            }
        }
        if holds_id(levels, id) {
            let (k, j) = choose|k: int, j: int| at(levels, k, j) && #[trigger] levels[k].orders[j].id == id;
            let t = if k < i { k } else { k + 1 };
            assert(next[t] == levels[k]);
            assert(at(next, t, j) && next[t].orders[j].id == id);
        }
        if id == o.id {
            assert(at(next, i, 0) && next[i].orders[0].id == id);
        }
    }
}

/// Taking out the resting order at `(i, j)` keeps the side well formed and
/// leaves no order with its identifier.
pub proof fn lemma_remove_at(levels: Seq<LevelView>, s: Side, i: int, j: int)
    requires
        side_wf(levels, s),
        ids_unique(levels),
        at(levels, i, j),
    ensures
        side_wf(remove_at(levels, i, j), s),
        ids_unique(remove_at(levels, i, j)),
        ids_within(remove_at(levels, i, j), levels),
        !holds_id(remove_at(levels, i, j), levels[i].orders[j].id),
{
    let next = remove_at(levels, i, j);
    let orders = levels[i].orders.remove(j);
    let id0 = levels[i].orders[j].id;
    assert(level_wf(levels[i], s));
    assert forall|t: int| 0 <= t < orders.len() implies #[trigger] orders[t] == levels[i].orders[if t < j { t } else { t + 1 }] by {}
    if orders.len() == 0 {
        assert forall|k: int| 0 <= k < next.len() implies #[trigger] next[k] == levels[if k < i { k } else { k + 1 }] by {}
        assert forall|k: int| 0 <= k < next.len() implies level_wf(#[trigger] next[k], s) by {
            assert(next[k] == levels[if k < i { k } else { k + 1 }]);
        }
        assert forall|a: int, b: int| 0 <= a < b < next.len() implies better(s, #[trigger] next[a].price, #[trigger] next[b].price) by {
            assert(next[a] == levels[if a < i { a } else { a + 1 }]);
            assert(next[b] == levels[if b < i { b } else { b + 1 }]);
        }
        assert forall|k: int, t: int| #[trigger] at(next, k, t) implies at(levels, if k < i { k } else { k + 1 }, t)
            && next[k].orders[t] == levels[if k < i { k } else { k + 1 }].orders[t] by {
            assert(next[k] == levels[if k < i { k } else { k + 1 }]);
        }
        assert forall|i1: int, j1: int, i2: int, j2: int|
            at(next, i1, j1) && at(next, i2, j2) && #[trigger] next[i1].orders[j1].id
                == #[trigger] next[i2].orders[j2].id implies i1 == i2 && j1 == j2 by {
            assert(at(next, i1, j1));
            assert(at(next, i2, j2));
        }
        assert forall|id: u128| #[trigger] holds_id(next, id) implies holds_id(levels, id) && id != id0 by {
            let (k, t) = choose|k: int, t: int| at(next, k, t) && #[trigger] next[k].orders[t].id == id;
            assert(at(next, k, t));
            let k0 = if k < i { k } else { k + 1 };
            assert(at(levels, k0, t) && levels[k0].orders[t].id == id);
        }
    } else {
        let nl = LevelView { price: levels[i].price, orders };
        assert(next == levels.update(i, nl));
        assert(level_wf(nl, s));
        assert forall|k: int| 0 <= k < next.len() implies level_wf(#[trigger] next[k], s) by {
            if k != i {
                assert(next[k] == levels[k]);
            }
        }
        assert forall|a: int, b: int| 0 <= a < b < next.len() implies better(s, #[trigger] next[a].price, #[trigger] next[b].price) by {
            assert(better(s, levels[a].price, levels[b].price));
        }
        let src = |k: int, t: int| -> int { if k == i && t >= j { t + 1 } else { t } };
        assert forall|k: int, t: int| #[trigger] at(next, k, t) implies at(levels, k, src(k, t))
            && next[k].orders[t] == levels[k].orders[src(k, t)] && (k, src(k, t)) != (i, j) by {
            if k != i {
                assert(next[k] == levels[k]);
            }
        }
        assert forall|i1: int, j1: int, i2: int, j2: int|
            at(next, i1, j1) && at(next, i2, j2) && #[trigger] next[i1].orders[j1].id
                == #[trigger] next[i2].orders[j2].id implies i1 == i2 && j1 == j2 by {
            assert(at(next, i1, j1));
            assert(at(next, i2, j2));
        }
        assert forall|id: u128| #[trigger] holds_id(next, id) implies holds_id(levels, id) && id != id0 by {
            let (k, t) = choose|k: int, t: int| at(next, k, t) && #[trigger] next[k].orders[t].id == id;
            assert(at(next, k, t));
            assert(at(levels, k, src(k, t)) && levels[k].orders[src(k, t)].id == id);
        }
    }
}

/// One match keeps every other resting order where it was, at its price,
/// and takes out the maker exactly when it is filled in full.
pub proof fn lemma_fill_front_kept(levels: Seq<LevelView>, s: Side, remaining: int, now: i64)
    requires
        side_wf(levels, s),
        ids_unique(levels),
        levels.len() > 0,
        remaining > 0,
    ensures
        ({
            let next = fill_front(levels, remaining, now).0;
            let m = fill_front(levels, remaining, now).1.maker;
            &&& orders_kept(next, levels, None)
            &&& forall|y: u128| #[trigger] holds_id(levels, y) ==> (holds_id(next, y) <==> !(y == m.id
                && m.filled_quantity >= m.quantity))
        }),
{
    lemma_fill_front(levels, s, remaining, now);
    let next = fill_front(levels, remaining, now).0;
    let m = fill_front(levels, remaining, now).1.maker;
    let lvl = levels[0];
    assert(level_wf(lvl, s));
    assert(at(levels, 0, 0));
    let full = m.filled_quantity >= m.quantity;
    let vanished = next.len() < levels.len();
    assert forall|i: int, j: int| #[trigger] at(next, i, j) implies exists|i0: int, j0: int|
        at(levels, i0, j0) && #[trigger] levels[i0].orders[j0].id == next[i].orders[j].id && levels[i0].price
            == next[i].price by {
        let i0 = if vanished { i + 1 } else { i };
        let j0 = if i == 0 && !vanished && full { j + 1 } else { j };
        if vanished {
            assert(next[i] == levels[i + 1]);
        } else if i == 0 {
            if full {
                assert(next[0].orders =~= lvl.orders.drop_first());
            } else {
                assert(next[0].orders =~= lvl.orders.update(0, m));
            }
        } else {
            assert(next[i] == levels[i]);
        }
        assert(at(levels, i0, j0) && levels[i0].orders[j0].id == next[i].orders[j].id);
    }
    assert forall|y: u128| #[trigger] holds_id(levels, y) implies (holds_id(next, y) <==> !(y == m.id && full)) by {
        let (i, j) = choose|i: int, j: int| at(levels, i, j) && #[trigger] levels[i].orders[j].id == y;
        if y == m.id && full {
        } else {
            // the position of `y` in `next`
            if i == 0 && j == 0 {
                assert(!full);
                assert(next[0].orders =~= lvl.orders.update(0, m));
                assert(at(next, 0, 0) && next[0].orders[0].id == y);
            } else {
                assert(y != m.id);
                if vanished {
                    assert(i != 0);
                    assert(next[i - 1] == levels[i]);
                    assert(at(next, i - 1, j) && next[i - 1].orders[j].id == y);
                } else if i == 0 {
                    if full {
                        assert(next[0].orders =~= lvl.orders.drop_first());
                        assert(at(next, 0, j - 1) && next[0].orders[j - 1].id == y);
                    } else {
                        assert(next[0].orders =~= lvl.orders.update(0, m));
                        assert(at(next, 0, j) && next[0].orders[j].id == y);
                    }
                } else {
                    assert(next[i] == levels[i]);
                    assert(at(next, i, j) && next[i].orders[j].id == y);
                }
            }
        }
    }
}

/// Taking out the order at `(i, j)` keeps every other resting order, at its
/// price.
pub proof fn lemma_remove_at_kept(levels: Seq<LevelView>, s: Side, i: int, j: int)
    requires
        side_wf(levels, s),
        ids_unique(levels),
        at(levels, i, j),
    ensures
        orders_kept(remove_at(levels, i, j), levels, None),
        forall|y: u128| #[trigger] holds_id(levels, y) && y != levels[i].orders[j].id ==> holds_id(remove_at(levels, i, j), y),
{
    let next = remove_at(levels, i, j);
    let orders = levels[i].orders.remove(j);
    let gone = orders.len() == 0;
    assert forall|k: int, t: int| #[trigger] at(next, k, t) implies exists|i0: int, j0: int|
        at(levels, i0, j0) && #[trigger] levels[i0].orders[j0].id == next[k].orders[t].id && levels[i0].price
            == next[k].price by {
        let k0 = if gone && k >= i { k + 1 } else { k };
        let t0 = if !gone && k == i && t >= j { t + 1 } else { t };
        if gone {
            assert(next[k] == levels[k0]);
        } else if k != i {
            assert(next[k] == levels[k]);
        } else {
            assert(next[k].orders[t] == levels[i].orders[t0]);
        }
        assert(at(levels, k0, t0) && levels[k0].orders[t0].id == next[k].orders[t].id);
    }
    assert forall|y: u128| #[trigger] holds_id(levels, y) && y != levels[i].orders[j].id implies holds_id(next, y) by {
        let (k, t) = choose|k: int, t: int| at(levels, k, t) && #[trigger] levels[k].orders[t].id == y;
        assert(!(k == i && t == j));
        if gone {
            assert(k != i);
            let k1 = if k > i { k - 1 } else { k };
            assert(next[k1] == levels[k]);
            assert(at(next, k1, t) && next[k1].orders[t].id == y);
        } else if k != i {
            assert(next[k] == levels[k]);
            assert(at(next, k, t) && next[k].orders[t].id == y);
        } else {
            let t1 = if t > j { t - 1 } else { t };
            assert(next[k].orders[t1] == levels[k].orders[t]);
            assert(at(next, k, t1) && next[k].orders[t1].id == y);
        }
    }
}

/// Appending `o` to the level at index `i` keeps every resting order, at its
/// price.
pub proof fn lemma_append_at_kept(levels: Seq<LevelView>, i: int, o: Order)
    requires
        0 <= i < levels.len(),
        levels[i].price == o.price,
    ensures
        orders_kept(
            levels.update(i, LevelView { price: o.price, orders: levels[i].orders.push(o) }),
            levels,
            Some(o),
        ),
{
    let next = levels.update(i, LevelView { price: o.price, orders: levels[i].orders.push(o) });
    let n = levels[i].orders.len() as int;
    assert forall|k: int, t: int| #[trigger] at(next, k, t) implies {
        ||| (Some(o) is Some && next[k].orders[t].id == Some(o)->0.id && next[k].price == Some(o)->0.price)
        ||| exists|i0: int, j0: int|
            at(levels, i0, j0) && #[trigger] levels[i0].orders[j0].id == next[k].orders[t].id && levels[i0].price
                == next[k].price
    } by {
        if k == i && t == n {
            assert(next[k].orders[t] == o);
        } else {
            if k == i {
                assert(next[k].orders[t] == levels[k].orders[t]);
            } else {
                assert(next[k] == levels[k]);
            }
            assert(at(levels, k, t) && levels[k].orders[t].id == next[k].orders[t].id);
        }
    }
}

/// Opening a level for `o` at index `i` keeps every resting order, at its
/// price.
pub proof fn lemma_new_level_at_kept(levels: Seq<LevelView>, i: int, o: Order)
    requires
        0 <= i <= levels.len(),
    ensures
        orders_kept(levels.insert(i, LevelView { price: o.price, orders: seq![o] }), levels, Some(o)),
{
    let next = levels.insert(i, LevelView { price: o.price, orders: seq![o] });
    assert forall|k: int, t: int| #[trigger] at(next, k, t) implies {
        ||| (Some(o) is Some && next[k].orders[t].id == Some(o)->0.id && next[k].price == Some(o)->0.price)
        ||| exists|i0: int, j0: int|
            at(levels, i0, j0) && #[trigger] levels[i0].orders[j0].id == next[k].orders[t].id && levels[i0].price
                == next[k].price
    } by {
        if k != i {
            let k0 = if k < i { k } else { k - 1 };
            assert(next[k] == levels[k0]);
            assert(at(levels, k0, t) && levels[k0].orders[t].id == next[k].orders[t].id);
        }
    }
}

} // verus!
