//! Laws of the top of the book: what the extremes of a sorted entry are,
//! and what an offer or a withdrawal writes to the log.

use vstd::prelude::*;
use crate::side::Side;
use crate::order::{Order, before, same_place, book_order_total};
use crate::events::LogEntry;
use crate::entry::{
    EntryView, top_notice, sorted, rank, holds_place, with_order, nth_from_top, in_level, run_end, run_len,
    run_sum, run_min_id, top_of, crosses, after_add, after_cancel, rank_is_split_point,
    rank_splits, small_sum_is_exact,
};

verus! {

/// In a sorted entry the first order is the lowest-priced sell and the last
/// the highest-priced buy: whichever order one picks, the extreme on its
/// side is of that side and at least as good in price.
pub proof fn extremes_are_best(s: Seq<Order>, i: int)
    requires
        sorted(s),
        0 <= i < s.len(),
    ensures
        s[i].side == Side::Sell ==> s.first().side == Side::Sell && s.first().price <= s[i].price,
        s[i].side == Side::Buy ==> s.last().side == Side::Buy && s[i].price <= s.last().price,
{
    if 0 < i {
        assert(before(s[0], s[i]));
    }
    if i < s.len() - 1 {
        assert(before(s[i], s[s.len() - 1]));
    }
}

/// A side has a top exactly where an order of that side rests, and the top
/// carries the best price of the side: no resting sell is cheaper than the
/// sell top, no resting buy dearer than the buy top.
pub proof fn top_is_best(s: Seq<Order>, side: Side)
    requires
        sorted(s),
    ensures
        top_of(s, side).is_some() <==> exists|i: int| 0 <= i < s.len() && (#[trigger] s[i]).side == side,
        top_of(s, side).is_some() ==> top_of(s, side).unwrap().side == side,
        forall|i: int|
            0 <= i < s.len() && (#[trigger] s[i]).side == side ==> top_of(s, side).is_some() && match side {
                Side::Sell => top_of(s, side).unwrap().price <= s[i].price,
                Side::Buy => s[i].price <= top_of(s, side).unwrap().price,
            },
{
    assert forall|i: int| 0 <= i < s.len() && (#[trigger] s[i]).side == side implies top_of(
        s,
        side,
    ).is_some() && match side {
        Side::Sell => top_of(s, side).unwrap().price <= s[i].price,
        Side::Buy => s[i].price <= top_of(s, side).unwrap().price,
    } by {
        extremes_are_best(s, i);
    }
    if top_of(s, side).is_some() {
        let h = if side == Side::Sell { 0 } else { s.len() - 1 };
        assert(s[h].side == side);
    }
}

/// Whether `entry` is an acknowledgement or refusal of the order
/// `(user_id, order_id)`, or reports a top of `side` or the lack of one.
pub open spec fn answers(entry: LogEntry, user_id: usize, order_id: usize, side: Side) -> bool {
    match entry {
        LogEntry::Acknowledge { user_id: u, order_id: o } => u == user_id && o == order_id,
        LogEntry::Reject { user_id: u, order_id: o } => u == user_id && o == order_id,
        LogEntry::TopOfBook { side: s, price: _, volume: _ } => s.is_none() || s == Some(side),
        _ => false,
    }
}

/// An offer keeps the log that was there and appends one or two entries:
/// first its acknowledgement or refusal, then at most one report, which is
/// about the order's own side. No other kind of entry is ever written.
pub proof fn offer_appends_its_answer(e: EntryView, order: Order)
    ensures
        e.log.len() < after_add(e, order).log.len() <= e.log.len() + 2,
        after_add(e, order).log.subrange(0, e.log.len() as int) == e.log,
        forall|i: int|
            e.log.len() <= i < after_add(e, order).log.len() ==> answers(
                #[trigger] after_add(e, order).log[i],
                order.user_id,
                order.order_id,
                order.side,
            ),
        after_add(e, order).log[e.log.len() as int] == if crosses(e.orders, order) {
            LogEntry::Reject { user_id: order.user_id, order_id: order.order_id }
        } else {
            LogEntry::Acknowledge { user_id: order.user_id, order_id: order.order_id }
        },
{
    assert(after_add(e, order).log.subrange(0, e.log.len() as int) =~= e.log);
}

/// A withdrawal keeps the log that was there and appends one or two
/// entries: first its acknowledgement, never a refusal, then at most one
/// report, which is about the order's own side.
pub proof fn withdrawal_appends_its_answer(e: EntryView, order: Order)
    ensures
        e.log.len() < after_cancel(e, order).log.len() <= e.log.len() + 2,
        after_cancel(e, order).log.subrange(0, e.log.len() as int) == e.log,
        forall|i: int|
            e.log.len() <= i < after_cancel(e, order).log.len() ==> answers(
                #[trigger] after_cancel(e, order).log[i],
                order.user_id,
                order.order_id,
                order.side,
            ),
        after_cancel(e, order).log[e.log.len() as int] == (LogEntry::Acknowledge {
            user_id: order.user_id,
            order_id: order.order_id,
        }),
{
    assert(after_cancel(e, order).log.subrange(0, e.log.len() as int) =~= e.log);
}

/// A report is written exactly where the top of the side changed or the
/// side has no top, and it carries the new top's side, price and volume.
pub proof fn report_follows_change(old_top: Option<Order>, new_top: Option<Order>)
    ensures
        top_notice(old_top, new_top).len() == if new_top.is_some() && old_top == new_top {
            0nat
        } else {
            1nat
        },
        new_top.is_some() && old_top != new_top ==> top_notice(old_top, new_top)[0] == (
        LogEntry::TopOfBook {
            side: Some(new_top.unwrap().side),
            price: new_top.unwrap().price,
            volume: new_top.unwrap().volume,
        }),
        new_top.is_none() ==> top_notice(old_top, new_top)[0] == (LogEntry::TopOfBook {
            side: None,
            price: 0,
            volume: 0,
        }),
{
}

/// An order for a side on which nothing rests is never refused.
pub proof fn order_on_empty_side_is_admitted(s: Seq<Order>, order: Order)
    requires
        top_of(s, order.side).is_none(),
    ensures
        !crosses(s, order),
{
}

/// A bid at or above the best ask is refused where a bid already rests:
/// the entry gains a `Reject` and nothing else changes.
pub proof fn crossing_bid_is_refused(e: EntryView, order: Order)
    requires
        order.side == Side::Buy,
        top_of(e.orders, Side::Buy).is_some(),
        top_of(e.orders, Side::Sell).is_some(),
        order.price >= top_of(e.orders, Side::Sell).unwrap().price,
    ensures
        after_add(e, order).orders == e.orders,
        after_add(e, order).log == e.log.push(
            LogEntry::Reject { user_id: order.user_id, order_id: order.order_id },
        ),
{
}

/// An ask at or below the best bid is refused where an ask already rests.
pub proof fn crossing_ask_is_refused(e: EntryView, order: Order)
    requires
        order.side == Side::Sell,
        top_of(e.orders, Side::Buy).is_some(),
        top_of(e.orders, Side::Sell).is_some(),
        order.price <= top_of(e.orders, Side::Buy).unwrap().price,
    ensures
        after_add(e, order).orders == e.orders,
        after_add(e, order).log == e.log.push(
            LogEntry::Reject { user_id: order.user_id, order_id: order.order_id },
        ),
{
}

/// A run that holds only orders of the level from `k` up to `n`, and ends
/// at `n`, is the run that `run_end` finds.
pub proof fn run_end_is(s: Seq<Order>, side: Side, user_id: usize, price: usize, k: nat, n: nat)
    requires
        k <= n <= s.len(),
        forall|j: int| k <= j < n ==> in_level(#[trigger] nth_from_top(s, side, j), user_id, price),
        n < s.len() ==> !in_level(nth_from_top(s, side, n as int), user_id, price),
    ensures
        run_end(s, side, user_id, price, k) == n,
    decreases n - k,
{
    if k < n {
        assert(in_level(nth_from_top(s, side, k as int), user_id, price));
        run_end_is(s, side, user_id, price, k + 1, n);
    }
}

/// What `run_end` finds from `k` on: only orders of the level, and then
/// the end of the entry or an order of another level.
pub proof fn run_end_facts(s: Seq<Order>, side: Side, user_id: usize, price: usize, k: nat)
    requires
        k <= s.len(),
    ensures
        k <= run_end(s, side, user_id, price, k) <= s.len(),
        forall|j: int|
            k <= j < run_end(s, side, user_id, price, k) ==> in_level(
                #[trigger] nth_from_top(s, side, j),
                user_id,
                price,
            ),
        run_end(s, side, user_id, price, k) < s.len() ==> !in_level(
            nth_from_top(s, side, run_end(s, side, user_id, price, k) as int),
            user_id,
            price,
        ),
    decreases s.len() - k,
{
    if k < s.len() && in_level(nth_from_top(s, side, k as int), user_id, price) {
        run_end_facts(s, side, user_id, price, k + 1);
    }
}

/// Two entries that agree on their first `n` orders from the top of `side`
/// agree on the sum and the least order id of those.
pub proof fn run_totals_agree(s: Seq<Order>, t: Seq<Order>, side: Side, n: nat)
    requires
        forall|j: int| 0 <= j < n ==> nth_from_top(s, side, j) == nth_from_top(t, side, j),
    ensures
        run_sum(s, side, n) == run_sum(t, side, n),
        run_min_id(s, side, n) == run_min_id(t, side, n),
    decreases n,
{
    if n > 0 {
        run_totals_agree(s, t, side, (n - 1) as nat);
    }
}

/// A new best bid that does not cross is acknowledged and reported as the
/// new top exactly once: the log gains an `Acknowledge` and one `TopOfBook`
/// for the buy side at the order's price, with the volume of the new top.
/// That volume is the order's own unless the order below it is of the same
/// user at the same price.
pub proof fn new_best_bid_is_reported(e: EntryView, order: Order)
    requires
        sorted(e.orders),
        order.side == Side::Buy,
        !crosses(e.orders, order),
        top_of(e.orders, Side::Buy).is_some() ==> top_of(e.orders, Side::Buy).unwrap().price
            < order.price,
    ensures
        after_add(e, order).orders == e.orders.push(order),
        top_of(after_add(e, order).orders, Side::Buy).is_some(),
        after_add(e, order).log == e.log.push(
            LogEntry::Acknowledge { user_id: order.user_id, order_id: order.order_id },
        ).push(
            LogEntry::TopOfBook {
                side: Some(Side::Buy),
                price: order.price,
                volume: top_of(after_add(e, order).orders, Side::Buy).unwrap().volume,
            },
        ),
        e.orders.len() == 0 || !in_level(e.orders.last(), order.user_id, order.price) ==> top_of(
            after_add(e, order).orders,
            Side::Buy,
        ) == Some(order),
{
    let s = e.orders;
    top_is_best(s, Side::Buy);
    assert forall|j: int| 0 <= j < s.len() implies before(#[trigger] s[j], order) by {
        if s[j].side == Side::Buy {
            assert(s[j].price <= top_of(s, Side::Buy).unwrap().price);
        }
    }
    rank_is_split_point(s, order, s.len() as int);
    let t = s.push(order);
    assert(with_order(s, order) =~= t);
    assert(nth_from_top(t, Side::Buy, 0) == order);
    let acked = e.log.push(
        LogEntry::Acknowledge { user_id: order.user_id, order_id: order.order_id },
    );
    let new_top = top_of(t, Side::Buy).unwrap();
    assert(new_top.price == order.price);
    assert(acked + seq![
        LogEntry::TopOfBook { side: Some(Side::Buy), price: order.price, volume: new_top.volume },
    ] =~= acked.push(
        LogEntry::TopOfBook { side: Some(Side::Buy), price: order.price, volume: new_top.volume },
    ));
    if s.len() == 0 || !in_level(s.last(), order.user_id, order.price) {
        if s.len() > 0 {
            assert(nth_from_top(t, Side::Buy, 1) == s.last());
        }
        run_end_is(t, Side::Buy, order.user_id, order.price, 0, 1);
        assert(run_sum(t, Side::Buy, 0) == 0);
        assert(run_sum(t, Side::Buy, 1) == order.volume);
        assert(run_min_id(t, Side::Buy, 0) == usize::MAX);
        assert(run_min_id(t, Side::Buy, 1) == order.order_id);
        small_sum_is_exact(order.volume as int);
    }
}

/// A bid below the best bid leaves the top as it was, and the log gains
/// the `Acknowledge` alone, where the orders that make up the top are all
/// bids (asks of the same user at the same price would be cut off from
/// them by the new order).
pub proof fn worse_bid_is_silent(e: EntryView, order: Order)
    requires
        sorted(e.orders),
        order.side == Side::Buy,
        !crosses(e.orders, order),
        top_of(e.orders, Side::Buy).is_some(),
        order.price < top_of(e.orders, Side::Buy).unwrap().price,
        forall|k: int|
            0 <= k < run_len(
                e.orders,
                Side::Buy,
                e.orders.last().user_id,
                e.orders.last().price,
            ) ==> (#[trigger] nth_from_top(e.orders, Side::Buy, k)).side == Side::Buy,
    ensures
        top_of(after_add(e, order).orders, Side::Buy) == top_of(e.orders, Side::Buy),
        after_add(e, order).log == e.log.push(
            LogEntry::Acknowledge { user_id: order.user_id, order_id: order.order_id },
        ),
{
    let s = e.orders;
    let head = s.last();
    let acked = e.log.push(
        LogEntry::Acknowledge { user_id: order.user_id, order_id: order.order_id },
    );
    assert(acked + Seq::<LogEntry>::empty() =~= acked);
    if !holds_place(s, order) {
        let r = rank(s, order) as int;
        let t = s.insert(r, order);
        let n = run_len(s, Side::Buy, head.user_id, head.price);
        rank_splits(s, order);
        run_end_facts(s, Side::Buy, head.user_id, head.price, 0);
        assert(in_level(nth_from_top(s, Side::Buy, 0), head.user_id, head.price));
        assert(n >= 1);
        let low = nth_from_top(s, Side::Buy, n - 1);
        assert(in_level(low, head.user_id, head.price));
        assert(low.side == Side::Buy);
        assert(before(order, low));
        book_order_total(order, low);
        if s.len() - n < r {
            assert(before(s[s.len() - n], order));
        }
        assert(s.len() - 1 - (n - 1) >= r);
        assert forall|k: int| 0 <= k < n implies nth_from_top(s, Side::Buy, k) == nth_from_top(
            t,
            Side::Buy,
            k,
        ) by {
            assert(t[t.len() - 1 - k] == s[s.len() - 1 - k]);
        }
        assert forall|k: int| 0 <= k < n implies in_level(
            #[trigger] nth_from_top(t, Side::Buy, k),
            head.user_id,
            head.price,
        ) by {
            assert(in_level(nth_from_top(s, Side::Buy, k), head.user_id, head.price));
        }
        if n < t.len() {
            if s.len() - n == r {
                assert(nth_from_top(t, Side::Buy, n as int) == order);
            } else {
                assert(t[t.len() - 1 - n] == s[s.len() - 1 - n]);
            }
        }
        run_end_is(t, Side::Buy, head.user_id, head.price, 0, n);
        run_totals_agree(s, t, Side::Buy, n);
        assert(nth_from_top(t, Side::Buy, 0) == head);
    }
}

/// A new best ask that does not cross is acknowledged and reported as the
/// new top exactly once: the log gains an `Acknowledge` and one `TopOfBook`
/// for the sell side at the order's price, with the volume of the new top.
/// That volume is the order's own unless the order above it is of the same
/// user at the same price.
pub proof fn new_best_ask_is_reported(e: EntryView, order: Order)
    requires
        sorted(e.orders),
        order.side == Side::Sell,
        !crosses(e.orders, order),
        top_of(e.orders, Side::Sell).is_some() ==> order.price < top_of(
            e.orders,
            Side::Sell,
        ).unwrap().price,
    ensures
        after_add(e, order).orders == e.orders.insert(0, order),
        top_of(after_add(e, order).orders, Side::Sell).is_some(),
        after_add(e, order).log == e.log.push(
            LogEntry::Acknowledge { user_id: order.user_id, order_id: order.order_id },
        ).push(
            LogEntry::TopOfBook {
                side: Some(Side::Sell),
                price: order.price,
                volume: top_of(after_add(e, order).orders, Side::Sell).unwrap().volume,
            },
        ),
        e.orders.len() == 0 || !in_level(e.orders.first(), order.user_id, order.price) ==> top_of(
            after_add(e, order).orders,
            Side::Sell,
        ) == Some(order),
{
    let s = e.orders;
    top_is_best(s, Side::Sell);
    if s.len() > 0 {
        if s[0].side == Side::Sell {
            assert(top_of(s, Side::Sell).unwrap().price <= s[0].price);
        }
        assert(before(order, s[0]));
        book_order_total(order, s[0]);
    }
    rank_is_split_point(s, order, 0);
    let t = s.insert(0, order);
    assert(with_order(s, order) == t);
    assert(nth_from_top(t, Side::Sell, 0) == order);
    let acked = e.log.push(
        LogEntry::Acknowledge { user_id: order.user_id, order_id: order.order_id },
    );
    let new_top = top_of(t, Side::Sell).unwrap();
    assert(new_top.price == order.price);
    assert(acked + seq![
        LogEntry::TopOfBook { side: Some(Side::Sell), price: order.price, volume: new_top.volume },
    ] =~= acked.push(
        LogEntry::TopOfBook { side: Some(Side::Sell), price: order.price, volume: new_top.volume },
    ));
    if s.len() == 0 || !in_level(s.first(), order.user_id, order.price) {
        if s.len() > 0 {
            assert(nth_from_top(t, Side::Sell, 1) == s.first());
        }
        run_end_is(t, Side::Sell, order.user_id, order.price, 0, 1);
        assert(run_sum(t, Side::Sell, 0) == 0);
        assert(run_sum(t, Side::Sell, 1) == order.volume);
        assert(run_min_id(t, Side::Sell, 0) == usize::MAX);
        assert(run_min_id(t, Side::Sell, 1) == order.order_id);
        small_sum_is_exact(order.volume as int);
    }
}

/// An ask above the best ask leaves the top as it was, and the log gains
/// the `Acknowledge` alone, where the orders that make up the top are all
/// asks (bids of the same user at the same price would be cut off from
/// them by the new order).
pub proof fn worse_ask_is_silent(e: EntryView, order: Order)
    requires
        sorted(e.orders),
        order.side == Side::Sell,
        !crosses(e.orders, order),
        top_of(e.orders, Side::Sell).is_some(),
        top_of(e.orders, Side::Sell).unwrap().price < order.price,
        forall|k: int|
            0 <= k < run_len(
                e.orders,
                Side::Sell,
                e.orders.first().user_id,
                e.orders.first().price,
            ) ==> (#[trigger] nth_from_top(e.orders, Side::Sell, k)).side == Side::Sell,
    ensures
        top_of(after_add(e, order).orders, Side::Sell) == top_of(e.orders, Side::Sell),
        after_add(e, order).log == e.log.push(
            LogEntry::Acknowledge { user_id: order.user_id, order_id: order.order_id },
        ),
{
    let s = e.orders;
    let head = s.first();
    let acked = e.log.push(
        LogEntry::Acknowledge { user_id: order.user_id, order_id: order.order_id },
    );
    assert(acked + Seq::<LogEntry>::empty() =~= acked);
    if !holds_place(s, order) {
        let r = rank(s, order) as int;
        let t = s.insert(r, order);
        let n = run_len(s, Side::Sell, head.user_id, head.price);
        rank_splits(s, order);
        run_end_facts(s, Side::Sell, head.user_id, head.price, 0);
        assert(in_level(nth_from_top(s, Side::Sell, 0), head.user_id, head.price));
        assert(n >= 1);
        let high = nth_from_top(s, Side::Sell, n - 1);
        assert(in_level(high, head.user_id, head.price));
        assert(high.side == Side::Sell);
        assert(before(high, order));
        if n - 1 >= r {
            assert(!before(s[n - 1], order));
        }
        assert(n <= r);
        assert forall|k: int| 0 <= k < n implies nth_from_top(s, Side::Sell, k) == nth_from_top(
            t,
            Side::Sell,
            k,
        ) by {
            assert(t[k] == s[k]);
        }
        assert forall|k: int| 0 <= k < n implies in_level(
            #[trigger] nth_from_top(t, Side::Sell, k),
            head.user_id,
            head.price,
        ) by {
            assert(in_level(nth_from_top(s, Side::Sell, k), head.user_id, head.price));
        }
        if n < t.len() {
            if n == r {
                assert(nth_from_top(t, Side::Sell, n as int) == order);
            } else {
                assert(t[n as int] == s[n as int]);
            }
        }
        run_end_is(t, Side::Sell, head.user_id, head.price, 0, n);
        run_totals_agree(s, t, Side::Sell, n);
        assert(nth_from_top(t, Side::Sell, 0) == head);
    }
}

/// Withdrawing the only order that rests on its side leaves the side
/// without a top: the log gains the `Acknowledge` and a `TopOfBook` with no
/// side, price 0 and volume 0.
pub proof fn last_order_of_side_leaves_no_top(e: EntryView, order: Order)
    requires
        sorted(e.orders),
        holds_place(e.orders, order),
        forall|i: int|
            0 <= i < e.orders.len() && (#[trigger] e.orders[i]).side == order.side ==> same_place(
                e.orders[i],
                order,
            ),
    ensures
        after_cancel(e, order).orders == e.orders.remove(rank(e.orders, order) as int),
        top_of(after_cancel(e, order).orders, order.side).is_none(),
        after_cancel(e, order).log == e.log.push(
            LogEntry::Acknowledge { user_id: order.user_id, order_id: order.order_id },
        ).push(LogEntry::TopOfBook { side: None, price: 0, volume: 0 }),
{
    let s = e.orders;
    let r = rank(s, order) as int;
    let t = s.remove(r);
    rank_splits(s, order);
    assert forall|i: int| 0 <= i < t.len() implies (#[trigger] t[i]).side != order.side by {
        let i0 = if i < r { i } else { i + 1 };
        assert(t[i] == s[i0]);
    }
    if t.len() > 0 {
        assert(t[0].side != order.side);
        assert(t[t.len() - 1].side != order.side);
    }
    let acked = e.log.push(
        LogEntry::Acknowledge { user_id: order.user_id, order_id: order.order_id },
    );
    assert(acked + seq![LogEntry::TopOfBook { side: None, price: 0, volume: 0 }] =~= acked.push(
        LogEntry::TopOfBook { side: None, price: 0, volume: 0 },
    ));
}

} // verus!
