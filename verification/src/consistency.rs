//! Laws of the book as a whole: the index and the entries tell the same
//! story, and a cancellation is felt once.

use vstd::prelude::*;
use crate::order::{Order, before, book_order_total};
use crate::entry::{
    sorted, rank, holds_place, crosses, rank_is_split_point, rank_splits,
    with_order_sorted, without_order_sorted,
};
use crate::side::Side;
use crate::book::{
    BookView, empty_book, entry_or_empty, key_of, book_after_add, book_after_cancel, top_in,
};
use crate::tops::{extremes_are_best, top_is_best};

verus! {

/// Every entry is sorted, and every indexed snapshot sits under its own
/// key and names a symbol that the book has.
pub open spec fn valid(v: BookView) -> bool {
    &&& forall|s: Seq<char>| #[trigger] v.books.contains_key(s) ==> sorted(v.books[s].orders)
    &&& forall|k: (usize, usize)| #[trigger]
        v.index.contains_key(k) ==> v.books.contains_key(v.index[k].0) && key_of(v.index[k].1) == k
}

/// Whether `order` rests in the entry of `symbol`.
pub open spec fn rests(v: BookView, symbol: Seq<char>, order: Order) -> bool {
    v.books.contains_key(symbol) && exists|i: int|
        0 <= i < v.books[symbol].orders.len() && #[trigger] v.books[symbol].orders[i] == order
}

/// Whether the index holds `order` under its key, for `symbol`.
pub open spec fn indexed(v: BookView, symbol: Seq<char>, order: Order) -> bool {
    v.index.contains_key(key_of(order)) && v.index[key_of(order)] == (symbol, order)
}

/// The index and the entries agree: an order rests in a symbol's entry
/// exactly where the index holds an equal snapshot of it for that symbol.
pub open spec fn consistent(v: BookView) -> bool {
    forall|symbol: Seq<char>, order: Order| #[trigger]
        rests(v, symbol, order) <==> #[trigger] indexed(v, symbol, order)
}

/// A book without symbols and with an empty index is valid and consistent.
pub proof fn empty_book_is_consistent()
    ensures
        valid(empty_book()),
        consistent(empty_book()),
{
}

/// In a sorted entry an order that rests holds its own place, at its rank.
pub proof fn resting_order_holds_place(s: Seq<Order>, i: int)
    requires
        sorted(s),
        0 <= i < s.len(),
    ensures
        rank(s, s[i]) == i,
        holds_place(s, s[i]),
{
    book_order_total(s[i], s[i]);
    rank_is_split_point(s, s[i], i);
}

/// Adding an order keeps the book valid, and keeps index and entries in
/// agreement where the order is new to both: its key is not indexed, and
/// no resting order of the symbol holds its place.
pub proof fn add_keeps_consistent(v: BookView, symbol: Seq<char>, order: Order)
    requires
        valid(v),
        consistent(v),
        !v.index.contains_key(key_of(order)),
        !holds_place(entry_or_empty(v, symbol).orders, order),
    ensures
        valid(book_after_add(v, symbol, order)),
        consistent(book_after_add(v, symbol, order)),
{
    let w = book_after_add(v, symbol, order);
    let s = entry_or_empty(v, symbol).orders;
    add_keeps_valid(v, symbol, order);
    if crosses(s, order) {
        assert(v.books.contains_key(symbol));
        assert forall|sym: Seq<char>, o: Order| #[trigger]
            rests(w, sym, o) <==> #[trigger] indexed(w, sym, o) by {
            assert(rests(v, sym, o) <==> indexed(v, sym, o));
            if rests(v, sym, o) {
                let i = choose|i: int|
                    0 <= i < v.books[sym].orders.len() && #[trigger] v.books[sym].orders[i] == o;
                assert(w.books[sym].orders[i] == o);
            }
            if rests(w, sym, o) {
                let i = choose|i: int|
                    0 <= i < w.books[sym].orders.len() && #[trigger] w.books[sym].orders[i] == o;
                assert(v.books[sym].orders[i] == o);
            }
        }
    } else {
        let r = rank(s, order) as int;
        let t = s.insert(r, order);
        if v.books.contains_key(symbol) {
            rank_splits(s, order);
        }
        assert(w.books[symbol].orders == t);
        assert forall|sym: Seq<char>, o: Order| #[trigger]
            rests(w, sym, o) <==> #[trigger] indexed(w, sym, o) by {
            assert(rests(v, sym, o) <==> indexed(v, sym, o));
            if sym == symbol {
                if o == order {
                    assert(t[r] == order);
                } else {
                    if rests(v, sym, o) {
                        let i = choose|i: int| 0 <= i < s.len() && #[trigger] s[i] == o;
                        let i1 = if i < r { i } else { i + 1 };
                        assert(t[i1] == o);
                    }
                    if rests(w, sym, o) {
                        let i = choose|i: int| 0 <= i < t.len() && #[trigger] t[i] == o;
                        let i0 = if i < r { i } else { i - 1 };
                        assert(s[i0] == o);
                        assert(v.books.contains_key(symbol));
                    }
                }
            } else {
                if rests(v, sym, o) {
                    let i = choose|i: int|
                        0 <= i < v.books[sym].orders.len() && #[trigger] v.books[sym].orders[i]
                            == o;
                    assert(w.books[sym].orders[i] == o);
                }
                if rests(w, sym, o) {
                    let i = choose|i: int|
                        0 <= i < w.books[sym].orders.len() && #[trigger] w.books[sym].orders[i]
                            == o;
                    assert(v.books[sym].orders[i] == o);
                }
            }
        }
    }
}

/// Adding an order keeps a valid book valid, whatever the order.
pub proof fn add_keeps_valid(v: BookView, symbol: Seq<char>, order: Order)
    requires
        valid(v),
    ensures
        valid(book_after_add(v, symbol, order)),
{
    let w = book_after_add(v, symbol, order);
    let s = entry_or_empty(v, symbol).orders;
    assert(sorted(s));
    with_order_sorted(s, order);
    assert forall|sym: Seq<char>| #[trigger] w.books.contains_key(sym) implies sorted(
        w.books[sym].orders,
    ) by {
        if sym != symbol {
            assert(v.books.contains_key(sym));
        }
    }
    assert forall|k: (usize, usize)| #[trigger] w.index.contains_key(k) implies w.books.contains_key(
        w.index[k].0,
    ) && key_of(w.index[k].1) == k by {
        if v.index.contains_key(k) {
            assert(v.books.contains_key(v.index[k].0));
        }
    }
}

/// Cancelling keeps a valid book valid, whatever the key.
pub proof fn cancel_keeps_valid(v: BookView, user_id: usize, order_id: usize)
    requires
        valid(v),
    ensures
        valid(book_after_cancel(v, user_id, order_id)),
{
    let w = book_after_cancel(v, user_id, order_id);
    let k = (user_id, order_id);
    if v.index.contains_key(k) {
        let (symbol, order) = v.index[k];
        assert(v.books.contains_key(symbol));
        without_order_sorted(v.books[symbol].orders, order);
        assert forall|sym: Seq<char>| #[trigger] w.books.contains_key(sym) implies sorted(
            w.books[sym].orders,
        ) by {
            if sym != symbol {
                assert(v.books.contains_key(sym));
            }
        }
        assert forall|q: (usize, usize)| #[trigger] w.index.contains_key(q) implies w.books.contains_key(
            w.index[q].0,
        ) && key_of(w.index[q].1) == q by {
            assert(v.index.contains_key(q));
            assert(v.books.contains_key(v.index[q].0));
        }
    }
}

/// Cancelling keeps index and entries in agreement, whatever the key.
pub proof fn cancel_keeps_consistent(v: BookView, user_id: usize, order_id: usize)
    requires
        valid(v),
        consistent(v),
    ensures
        valid(book_after_cancel(v, user_id, order_id)),
        consistent(book_after_cancel(v, user_id, order_id)),
{
    let w = book_after_cancel(v, user_id, order_id);
    let k = (user_id, order_id);
    cancel_keeps_valid(v, user_id, order_id);
    if v.index.contains_key(k) {
        let (symbol, order) = v.index[k];
        let s = v.books[symbol].orders;
        assert(v.books.contains_key(symbol));
        assert(indexed(v, symbol, order));
        assert(rests(v, symbol, order));
        let p = choose|i: int| 0 <= i < s.len() && #[trigger] s[i] == order;
        resting_order_holds_place(s, p);
        let t = s.remove(p);
        assert(w.books[symbol].orders == t);
        assert forall|sym: Seq<char>, o: Order| #[trigger]
            rests(w, sym, o) <==> #[trigger] indexed(w, sym, o) by {
            assert(rests(v, sym, o) <==> indexed(v, sym, o));
            if sym == symbol {
                if rests(w, sym, o) {
                    let i = choose|i: int| 0 <= i < t.len() && #[trigger] t[i] == o;
                    let i0 = if i < p { i } else { i + 1 };
                    assert(s[i0] == o);
                    assert(rests(v, sym, o));
                    if key_of(o) == k {
                        assert(o == order);
                        book_order_total(s[i0], s[p]);
                        assert(before(s[i0], s[p]) || before(s[p], s[i0]));
                    }
                }
                if indexed(w, sym, o) {
                    assert(indexed(v, sym, o));
                    let i = choose|i: int| 0 <= i < s.len() && #[trigger] s[i] == o;
                    let i1 = if i < p { i } else { i - 1 };
                    assert(t[i1] == o);
                }
            } else {
                if rests(v, sym, o) {
                    let i = choose|i: int|
                        0 <= i < v.books[sym].orders.len() && #[trigger] v.books[sym].orders[i]
                            == o;
                    assert(w.books[sym].orders[i] == o);
                }
                if rests(w, sym, o) {
                    let i = choose|i: int|
                        0 <= i < w.books[sym].orders.len() && #[trigger] w.books[sym].orders[i]
                            == o;
                    assert(v.books[sym].orders[i] == o);
                }
            }
        }
    }
}

/// A request to the book.
pub enum Request {
    Add { symbol: Seq<char>, order: Order },
    Cancel { user_id: usize, order_id: usize },
}

/// The book after it served `request`.
pub open spec fn served(v: BookView, request: Request) -> BookView {
    match request {
        Request::Add { symbol, order } => book_after_add(v, symbol, order),
        Request::Cancel { user_id, order_id } => book_after_cancel(v, user_id, order_id),
    }
}

/// The book that a new book becomes by serving `requests` in turn.
pub open spec fn replayed(requests: Seq<Request>) -> BookView
    decreases requests.len(),
{
    if requests.len() == 0 {
        empty_book()
    } else {
        served(replayed(requests.drop_last()), requests.last())
    }
}

/// Whether `request` brings nothing that `v` already has: an order to add
/// is new to the index by its key and to its symbol's entry by its place.
pub open spec fn brings_new(v: BookView, request: Request) -> bool {
    match request {
        Request::Add { symbol, order } => !v.index.contains_key(key_of(order)) && !holds_place(
            entry_or_empty(v, symbol).orders,
            order,
        ),
        Request::Cancel { user_id, order_id } => true,
    }
}

/// Whether each of `requests` brings something new to the book that the
/// requests before it have made.
pub open spec fn all_bring_new(requests: Seq<Request>) -> bool
    decreases requests.len(),
{
    requests.len() == 0 || (all_bring_new(requests.drop_last()) && brings_new(
        replayed(requests.drop_last()),
        requests.last(),
    ))
}

/// Whatever requests a new book serves, every entry stays sorted and every
/// indexed snapshot sits under its own key and names a symbol of the book.
pub proof fn replayed_is_valid(requests: Seq<Request>)
    ensures
        valid(replayed(requests)),
    decreases requests.len(),
{
    if requests.len() > 0 {
        let v = replayed(requests.drop_last());
        replayed_is_valid(requests.drop_last());
        match requests.last() {
            Request::Add { symbol, order } => add_keeps_valid(v, symbol, order),
            Request::Cancel { user_id, order_id } => cancel_keeps_valid(v, user_id, order_id),
        }
    }
}

/// Whatever requests a new book served, the ends of each entry are its
/// best ask and its best bid: beside any resting sell, the first order is
/// a sell at no higher a price and the sell top carries that price; beside
/// any resting buy, the last order is a buy at no lower a price and the buy
/// top carries that price.
pub proof fn replayed_ends_are_best(requests: Seq<Request>, symbol: Seq<char>, i: int)
    requires
        replayed(requests).books.contains_key(symbol),
        0 <= i < replayed(requests).books[symbol].orders.len(),
    ensures
        ({
            let v = replayed(requests);
            let s = v.books[symbol].orders;
            match s[i].side {
                Side::Sell => s.first().side == Side::Sell && s.first().price <= s[i].price
                    && top_in(v, symbol, Side::Sell).is_some() && top_in(
                    v,
                    symbol,
                    Side::Sell,
                ).unwrap().price == s.first().price,
                Side::Buy => s.last().side == Side::Buy && s[i].price <= s.last().price && top_in(
                    v,
                    symbol,
                    Side::Buy,
                ).is_some() && top_in(v, symbol, Side::Buy).unwrap().price == s.last().price,
            }
        }),
{
    let s = replayed(requests).books[symbol].orders;
    replayed_is_valid(requests);
    extremes_are_best(s, i);
    top_is_best(s, s[i].side);
}

/// After any sequence of additions and cancellations in which no addition
/// repeats a live key or a taken place, the orders that rest are exactly
/// those that the index holds, each for its symbol and with an equal
/// snapshot.
pub proof fn replayed_is_consistent(requests: Seq<Request>)
    requires
        all_bring_new(requests),
    ensures
        consistent(replayed(requests)),
    decreases requests.len(),
{
    if requests.len() > 0 {
        let v = replayed(requests.drop_last());
        replayed_is_valid(requests.drop_last());
        replayed_is_consistent(requests.drop_last());
        match requests.last() {
            Request::Add { symbol, order } => add_keeps_consistent(v, symbol, order),
            Request::Cancel { user_id, order_id } => cancel_keeps_consistent(v, user_id, order_id),
        }
    } else {
        empty_book_is_consistent();
    }
}

/// Cancelling a key a second time changes nothing: the first cancellation
/// takes the key out of the index, and a key that is not indexed leaves
/// the book, and with it every log, as it is.
pub proof fn cancel_is_idempotent(v: BookView, user_id: usize, order_id: usize)
    ensures
        !book_after_cancel(v, user_id, order_id).index.contains_key((user_id, order_id)),
        book_after_cancel(book_after_cancel(v, user_id, order_id), user_id, order_id)
            == book_after_cancel(v, user_id, order_id),
        !v.index.contains_key((user_id, order_id)) ==> book_after_cancel(v, user_id, order_id) == v,
{
}

} // verus!
