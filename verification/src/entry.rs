use vstd::prelude::*;
use vstd::arithmetic::div_mod::{lemma_add_mod_noop, lemma_small_mod, lemma_mod_bound};
use crate::side::{Side, flip};
use crate::order::{Order, before, same_place, book_order_total, book_order_transitive};
use crate::events::LogEntry;

verus! {

/// The resting orders of one symbol, lowest first, and the symbol's log.
pub struct OrderBookEntry {
    pub orders: Vec<Order>,
    pub log: Vec<LogEntry>,
}

/// What an entry holds, as plain sequences.
pub struct EntryView {
    pub orders: Seq<Order>,
    pub log: Seq<LogEntry>,
}

/// Every order sorts strictly before each one behind it.
pub open spec fn sorted(s: Seq<Order>) -> bool {
    forall|i: int, j: int| 0 <= i < j < s.len() ==> before(#[trigger] s[i], #[trigger] s[j])
}

/// The number of orders in `s` that sort strictly before `o`.
pub open spec fn rank(s: Seq<Order>, o: Order) -> nat
    decreases s.len(),
{
    if s.len() == 0 {
        0
    } else {
        rank(s.drop_last(), o) + if before(s.last(), o) { 1nat } else { 0nat }
    }
}

/// Whether `s` holds an order in the place that `o` would take.
pub open spec fn holds_place(s: Seq<Order>, o: Order) -> bool {
    rank(s, o) < s.len() && same_place(s[rank(s, o) as int], o)
}

/// `s` after `o` was inserted as into an ordered set: an order that already
/// holds the place of `o` stays and `o` is dropped.
pub open spec fn with_order(s: Seq<Order>, o: Order) -> Seq<Order> {
    if holds_place(s, o) {
        s
    } else {
        s.insert(rank(s, o) as int, o)
    }
}

/// `s` after the order that holds the place of `o` was removed, if there is one.
pub open spec fn without_order(s: Seq<Order>, o: Order) -> Seq<Order> {
    if holds_place(s, o) {
        s.remove(rank(s, o) as int)
    } else {
        s
    }
}

/// The order `k` steps away from the top of `side`: sells are counted from
/// the low end, buys from the high end.
pub open spec fn nth_from_top(s: Seq<Order>, side: Side, k: int) -> Order {
    match side {
        Side::Sell => s[k],
        Side::Buy => s[s.len() - 1 - k],
    }
}

/// Whether `o` belongs to the price level of `user_id` at `price`.
pub open spec fn in_level(o: Order, user_id: usize, price: usize) -> bool {
    o.user_id == user_id && o.price == price
}

/// Where the run of orders in the level ends, given that it reaches `k`.
pub open spec fn run_end(s: Seq<Order>, side: Side, user_id: usize, price: usize, k: nat) -> nat
    decreases s.len() - k,
{
    if k < s.len() && in_level(nth_from_top(s, side, k as int), user_id, price) {
        run_end(s, side, user_id, price, k + 1)
    } else {
        k
    }
}

/// The number of consecutive orders from the top of `side` that belong to
/// the level of `user_id` at `price`.
pub open spec fn run_len(s: Seq<Order>, side: Side, user_id: usize, price: usize) -> nat {
    run_end(s, side, user_id, price, 0)
}

/// The volumes of the first `n` orders from the top of `side`, summed.
pub open spec fn run_sum(s: Seq<Order>, side: Side, n: nat) -> int
    decreases n,
{
    if n == 0 {
        0
    } else {
        run_sum(s, side, (n - 1) as nat) + nth_from_top(s, side, n - 1).volume
    }
}

/// The least order id among the first `n` orders from the top of `side`,
/// and `usize::MAX` where `n` is 0.
pub open spec fn run_min_id(s: Seq<Order>, side: Side, n: nat) -> usize
    decreases n,
{
    if n == 0 {
        usize::MAX
    } else {
        let rest = run_min_id(s, side, (n - 1) as nat);
        let id = nth_from_top(s, side, n - 1).order_id;
        if id < rest { id } else { rest }
    }
}

/// A sum as machine arithmetic keeps it: reduced modulo the range of `usize`.
pub open spec fn wrapped(x: int) -> usize {
    (x % (usize::MAX + 1)) as usize
}

/// The best resting order on `side`, with the volumes of the same user's
/// orders at the same price that follow it without a gap summed up (in
/// machine arithmetic) and the least of their order ids in place of its own.
/// `None` where `s` is empty or its extreme order is of the other side.
pub open spec fn top_of(s: Seq<Order>, side: Side) -> Option<Order> {
    if s.len() == 0 {
        None
    } else {
        let head = nth_from_top(s, side, 0);
        if head.side != side {
            None
        } else {
            let n = run_len(s, side, head.user_id, head.price);
            Some(Order {
                user_id: head.user_id,
                order_id: run_min_id(s, side, n),
                price: head.price,
                volume: wrapped(run_sum(s, side, n)),
                side: head.side,
            })
        }
    }
}

/// What a change of one side's top from `old_top` to `new_top` adds to the
/// log. A side left without a top is always reported, whatever it had
/// before; a top that stays as it was is not.
pub open spec fn top_notice(old_top: Option<Order>, new_top: Option<Order>) -> Seq<LogEntry> {
    match new_top {
        None => seq![LogEntry::TopOfBook { side: None, price: 0, volume: 0 }],
        Some(t) => if old_top == Some(t) {
            Seq::empty()
        } else {
            seq![LogEntry::TopOfBook { side: Some(t.side), price: t.price, volume: t.volume }]
        },
    }
}

/// Whether `order` would cross the book `s`: both sides have a top, and the
/// best bid would reach the best ask once `order` rested.
pub open spec fn crosses(s: Seq<Order>, order: Order) -> bool {
    match (top_of(s, order.side), top_of(s, flip(order.side))) {
        (Some(_), Some(other)) => match order.side {
            Side::Sell => other.price >= order.price,
            Side::Buy => order.price >= other.price,
        },
        _ => false,
    }
}

/// The entry after `order` was offered to it: refused where it crosses,
/// else acknowledged, inserted, and a new top on its side reported.
pub open spec fn after_add(e: EntryView, order: Order) -> EntryView {
    if crosses(e.orders, order) {
        EntryView {
            orders: e.orders,
            log: e.log.push(LogEntry::Reject { user_id: order.user_id, order_id: order.order_id }),
        }
    } else {
        let orders = with_order(e.orders, order);
        EntryView {
            orders,
            log: e.log.push(
                LogEntry::Acknowledge { user_id: order.user_id, order_id: order.order_id },
            ) + top_notice(top_of(e.orders, order.side), top_of(orders, order.side)),
        }
    }
}

/// The entry after `order` was withdrawn from it: always acknowledged, and
/// the top of its side reported where it changed or vanished.
pub open spec fn after_cancel(e: EntryView, order: Order) -> EntryView {
    let orders = without_order(e.orders, order);
    EntryView {
        orders,
        log: e.log.push(
            LogEntry::Acknowledge { user_id: order.user_id, order_id: order.order_id },
        ) + top_notice(top_of(e.orders, order.side), top_of(orders, order.side)),
    }
}

/// In a sorted sequence the rank of `o` is the one position that has only
/// earlier orders before it and none from it on.
pub proof fn rank_is_split_point(s: Seq<Order>, o: Order, i: int)
    requires
        sorted(s),
        0 <= i <= s.len(),
        forall|j: int| 0 <= j < i ==> before(#[trigger] s[j], o),
        i < s.len() ==> !before(s[i], o),
    ensures
        rank(s, o) == i,
    decreases s.len(),
{
    if s.len() > 0 {
        let front = s.drop_last();
        if i == s.len() {
            rank_is_split_point(front, o, i - 1);
        } else {
            if before(s.last(), o) {
                book_order_transitive(s[i], s.last(), o);
            }
            rank_is_split_point(front, o, i);
        }
    }
}

/// Around its rank in a sorted sequence, `o` has the earlier orders before
/// it and, unless one holds its place, the later ones behind it.
pub proof fn rank_splits(s: Seq<Order>, o: Order)
    requires
        sorted(s),
    ensures
        rank(s, o) <= s.len(),
        forall|j: int| 0 <= j < rank(s, o) ==> before(#[trigger] s[j], o),
        forall|j: int| rank(s, o) <= j < s.len() ==> !before(#[trigger] s[j], o),
        forall|j: int| rank(s, o) < j < s.len() ==> before(o, #[trigger] s[j]),
        forall|j: int| 0 <= j < s.len() && j != rank(s, o) ==> !same_place(#[trigger] s[j], o),
        !holds_place(s, o) ==> forall|j: int| rank(s, o) <= j < s.len() ==> before(o, #[trigger] s[j]),
    decreases s.len(),
{
    if s.len() > 0 {
        let front = s.drop_last();
        let last = s.last();
        rank_splits(front, o);
        let r = rank(front, o);
        if r < front.len() {
            book_order_transitive(front[r as int], last, o);
            book_order_total(front[r as int], o);
        }
        book_order_total(last, o);
        assert forall|j: int| rank(s, o) < j < s.len() implies before(o, #[trigger] s[j]) by {
            book_order_total(s[j], o);
            if j == s.len() - 1 {
                let r0 = rank(s, o) as int;
                book_order_transitive(s[r0], last, o);
                book_order_transitive(o, s[r0], last);
                book_order_total(s[r0], o);
            } else {
                assert(s[j] == front[j]);
            }
        }
        assert forall|j: int| 0 <= j < s.len() && j != rank(s, o) implies !same_place(
            #[trigger] s[j],
            o,
        ) by {
            book_order_total(s[j], o);
            if j < s.len() - 1 {
                assert(s[j] == front[j]);
            }
        }
        assert forall|j: int| 0 <= j < rank(s, o) implies before(#[trigger] s[j], o) by {
            if j < s.len() - 1 {
                assert(s[j] == front[j]);
            }
        }
        assert forall|j: int| rank(s, o) <= j < s.len() implies !before(#[trigger] s[j], o) by {
            if j < s.len() - 1 {
                assert(s[j] == front[j]);
            }
        }
        if !holds_place(s, o) && rank(s, o) < s.len() {
            book_order_total(s[rank(s, o) as int], o);
        }
    }
}

/// Ordered insertion keeps a sorted sequence sorted.
pub proof fn with_order_sorted(s: Seq<Order>, o: Order)
    requires
        sorted(s),
    ensures
        sorted(with_order(s, o)),
{
    rank_splits(s, o);
    if !holds_place(s, o) {
        let r = rank(s, o) as int;
        let t = s.insert(r, o);
        assert forall|i: int, j: int| 0 <= i < j < t.len() implies before(
            #[trigger] t[i],
            #[trigger] t[j],
        ) by {
            if i < r {
                assert(t[i] == s[i]);
            } else if i > r {
                assert(t[i] == s[i - 1]);
            }
            if j < r {
                assert(t[j] == s[j]);
            } else if j > r {
                assert(t[j] == s[j - 1]);
            }
        }
    }
}

/// Removal keeps a sorted sequence sorted.
pub proof fn without_order_sorted(s: Seq<Order>, o: Order)
    requires
        sorted(s),
    ensures
        sorted(without_order(s, o)),
{
    if holds_place(s, o) {
        let r = rank(s, o) as int;
        let t = s.remove(r);
        assert forall|i: int, j: int| 0 <= i < j < t.len() implies before(
            #[trigger] t[i],
            #[trigger] t[j],
        ) by {
            assert(t[i] == if i < r { s[i] } else { s[i + 1] });
            assert(t[j] == if j < r { s[j] } else { s[j + 1] });
        }
    }
}

/// A sum that fits the machine's range is kept as it is.
pub proof fn small_sum_is_exact(sum: int)
    requires
        0 <= sum <= usize::MAX,
    ensures
        wrapped(sum) == sum,
{
    lemma_small_mod(sum as nat, (usize::MAX + 1) as nat);
}

/// One more volume added in machine arithmetic is the longer sum, wrapped.
pub proof fn wrapped_step(sum: int, v: usize)
    requires
        sum >= 0,
    ensures
        vstd::wrapping::usize_specs::wrapping_add(wrapped(sum), v) == wrapped(sum + v),
{
    let m = usize::MAX + 1;
    lemma_add_mod_noop(sum, v as int, m);
    lemma_small_mod(v as nat, m as nat);
    lemma_mod_bound(sum, m);
    let t = sum % m;
    if t + v >= m {
        lemma_small_mod((t + v - m) as nat, m as nat);
        vstd::arithmetic::div_mod::lemma_mod_sub_multiples_vanish(t + v, m);
    } else {
        lemma_small_mod((t + v) as nat, m as nat);
    }
}

impl View for OrderBookEntry {
    type V = EntryView;

    open spec fn view(&self) -> EntryView {
        EntryView { orders: self.orders@, log: self.log@ }
    }
}

impl OrderBookEntry {
    /// The resting orders are sorted, so no two of them share a place.
    pub open spec fn wf(&self) -> bool {
        sorted(self.orders@)
    }

    /// An entry with no orders and an empty log.
    pub fn new() -> (r: OrderBookEntry)
        ensures
            r.wf(),
            r@ == (EntryView { orders: Seq::empty(), log: Seq::empty() }),
    {
        OrderBookEntry { orders: Vec::new(), log: Vec::new() }
    }

    /// The position that `order` has or would take among the resting orders.
    fn position(&self, order: &Order) -> (i: usize)
        requires
            self.wf(),
        ensures
            i == rank(self.orders@, *order),
            i <= self.orders.len(),
    {
        let n = self.orders.len();
        let mut i: usize = 0;
        while i < n && self.orders[i].sorts_before(order)
            invariant
                n == self.orders.len(),
                i <= n,
                forall|j: int| 0 <= j < i ==> before(#[trigger] self.orders@[j], *order),
            decreases n - i,
        {
            i += 1;
        }
        proof {
            rank_is_split_point(self.orders@, *order, i as int);
        }
        i
    }

    /// Inserts `order` as into an ordered set. Returns whether it was
    /// inserted: it is not where an order already holds its place.
    pub fn insert(&mut self, order: Order) -> (r: bool)
        requires
            old(self).wf(),
        ensures
            final(self).wf(),
            final(self)@.orders == with_order(old(self)@.orders, order),
            final(self)@.log == old(self)@.log,
            r == !holds_place(old(self)@.orders, order),
    {
        let i = self.position(&order);
        proof {
            with_order_sorted(self.orders@, order);
        }
        if i < self.orders.len() && self.orders[i].same_place_as(&order) {
            false
        } else {
            self.orders.insert(i, order);
            true
        }
    }

    /// Removes the order that holds the place of `order`. Returns whether
    /// there was one.
    pub fn remove(&mut self, order: &Order) -> (r: bool)
        requires
            old(self).wf(),
        ensures
            final(self).wf(),
            final(self)@.orders == without_order(old(self)@.orders, *order),
            final(self)@.log == old(self)@.log,
            r == holds_place(old(self)@.orders, *order),
    {
        let i = self.position(order);
        proof {
            without_order_sorted(self.orders@, *order);
        }
        if i < self.orders.len() && self.orders[i].same_place_as(order) {
            self.orders.remove(i);
            true
        } else {
            false
        }
    }

    /// The order `k` steps away from the top of `side`.
    fn nth(&self, side: Side, k: usize) -> (r: Order)
        requires
            k < self.orders.len(),
        ensures
            r == nth_from_top(self.orders@, side, k as int),
    {
        match side {
            Side::Sell => self.orders[k],
            Side::Buy => self.orders[self.orders.len() - 1 - k],
        }
    }

    /// Whether the order `k` steps from the top of `side` is of the level.
    fn level_at(&self, side: Side, k: usize, user_id: usize, price: usize) -> (r: bool)
        requires
            k < self.orders.len(),
        ensures
            r == in_level(nth_from_top(self.orders@, side, k as int), user_id, price),
    {
        let o = self.nth(side, k);
        o.user_id == user_id && o.price == price
    }

    /// Walks from the top of `side` while the orders are of `user_id` at
    /// `price`, and returns their summed volume and their least order id.
    pub fn total_volume(&self, side: Side, user_id: usize, price: usize) -> (r: (usize, usize))
        ensures
            r.0 == wrapped(
                run_sum(self.orders@, side, run_len(self.orders@, side, user_id, price)),
            ),
            r.1 == run_min_id(self.orders@, side, run_len(self.orders@, side, user_id, price)),
    {
        let n = self.orders.len();
        let mut k: usize = 0;
        let mut total: usize = 0;
        let mut min_order_id: usize = usize::MAX;
        proof {
            lemma_small_mod(0, (usize::MAX + 1) as nat);
        }
        while k < n && self.level_at(side, k, user_id, price)
            invariant
                n == self.orders.len(),
                k <= n,
                run_end(self.orders@, side, user_id, price, k as nat) == run_len(
                    self.orders@,
                    side,
                    user_id,
                    price,
                ),
                run_sum(self.orders@, side, k as nat) >= 0,
                total == wrapped(run_sum(self.orders@, side, k as nat)),
                min_order_id == run_min_id(self.orders@, side, k as nat),
            decreases n - k,
        {
            let o = self.nth(side, k);
            proof {
                wrapped_step(run_sum(self.orders@, side, k as nat), o.volume);
            }
            if o.order_id < min_order_id {
                min_order_id = o.order_id;
            }
            total = total.wrapping_add(o.volume);
            k += 1;
        }
        (total, min_order_id)
    }

    /// The best resting order on `side`, aggregated over its level.
    pub fn top(&self, side: Side) -> (r: Option<Order>)
        ensures
            r == top_of(self@.orders, side),
    {
        let n = self.orders.len();
        if n == 0 {
            return None;
        }
        let head = self.nth(side, 0);
        if head.side == side {
            let (volume, order_id) = self.total_volume(side, head.user_id, head.price);
            Some(Order { user_id: head.user_id, order_id, price: head.price, volume, side: head.side })
        } else {
            None
        }
    }

    /// Appends what the change of a top from `old_top` to `new_top` calls for.
    pub fn log_top_of_book(&mut self, old_top: Option<Order>, new_top: Option<Order>)
        ensures
            final(self)@.orders == old(self)@.orders,
            final(self)@.log == old(self)@.log + top_notice(old_top, new_top),
    {
        match new_top {
            None => {
                self.log.push(LogEntry::TopOfBook { side: None, price: 0, volume: 0 });
            },
            Some(t) => {
                let unchanged = match old_top {
                    Some(o) => o == t,
                    None => false,
                };
                if !unchanged {
                    self.log.push(
                        LogEntry::TopOfBook { side: Some(t.side), price: t.price, volume: t.volume },
                    );
                }
            },
        }
        proof {
            assert(self.log@ =~= old(self).log@ + top_notice(old_top, new_top));
        }
    }

    /// Offers `order` to this entry. Returns whether it was admitted.
    pub fn offer(&mut self, order: &Order) -> (r: bool)
        requires
            old(self).wf(),
        ensures
            final(self).wf(),
            final(self)@ == after_add(old(self)@, *order),
            r == !crosses(old(self)@.orders, *order),
    {
        let top = self.top(order.side);
        let other_top = self.top(order.side.opposite());
        let crossed = match (top, other_top) {
            (Some(_), Some(ot)) => match order.side {
                Side::Sell => ot.price >= order.price,
                Side::Buy => order.price >= ot.price,
            },
            _ => false,
        };
        if crossed {
            self.log.push(LogEntry::Reject { user_id: order.user_id, order_id: order.order_id });
            return false;
        }
        self.log.push(LogEntry::Acknowledge { user_id: order.user_id, order_id: order.order_id });
        self.insert(*order);
        let new_top = self.top(order.side);
        self.log_top_of_book(top, new_top);
        true
    }

    /// Withdraws the order that holds the place of `order`.
    pub fn withdraw(&mut self, order: &Order)
        requires
            old(self).wf(),
        ensures
            final(self).wf(),
            final(self)@ == after_cancel(old(self)@, *order),
    {
        let old_top = self.top(order.side);
        self.remove(order);
        self.log.push(LogEntry::Acknowledge { user_id: order.user_id, order_id: order.order_id });
        let new_top = self.top(order.side);
        self.log_top_of_book(old_top, new_top);
    }
}

} // verus!
