use vstd::prelude::*;
use std::collections::HashMap;
use crate::side::Side;
use crate::order::Order;
use crate::events::LogEntry;
use crate::entry::{OrderBookEntry, EntryView, after_add, after_cancel, crosses, top_of, sorted};
use crate::consistency::valid;

verus! {

broadcast use vstd::std_specs::hash::group_hash_axioms;

/// One symbol with its entry.
struct SymbolSlot {
    symbol: String,
    entry: OrderBookEntry,
}

/// One indexed order: the slot of its symbol and a snapshot of the order.
/// It is filed under the snapshot's `(user_id, order_id)`.
struct IndexEntry {
    slot: usize,
    order: Order,
}

/// Book of orders: an entry per symbol, made when the symbol is first
/// named and never dropped, and an index from `(user_id, order_id)` to the
/// symbol and snapshot of each admitted order that was not cancelled.
pub struct OrderBook {
    order_book: Vec<SymbolSlot>,
    index: HashMap<u128, IndexEntry>,
}

/// What a book holds: its entries by symbol, and its index.
pub struct BookView {
    pub books: Map<Seq<char>, EntryView>,
    pub index: Map<(usize, usize), (Seq<char>, Order)>,
}

/// The book without symbols and with an empty index.
pub open spec fn empty_book() -> BookView {
    BookView { books: Map::empty(), index: Map::empty() }
}

/// The entry with no orders and no log.
pub open spec fn empty_entry() -> EntryView {
    EntryView { orders: Seq::empty(), log: Seq::empty() }
}

/// The entry of `symbol`, or the empty entry where the book has none yet.
pub open spec fn entry_or_empty(v: BookView, symbol: Seq<char>) -> EntryView {
    if v.books.contains_key(symbol) {
        v.books[symbol]
    } else {
        empty_entry()
    }
}

/// The key under which the index holds `order`.
pub open spec fn key_of(order: Order) -> (usize, usize) {
    (order.user_id, order.order_id)
}

/// A key as one number: the user id in the high half, the order id in the
/// low half.
pub open spec fn packed(k: (usize, usize)) -> u128 {
    (k.0 * 0x1_0000_0000_0000_0000 + k.1) as u128
}

/// Different keys are different numbers.
pub proof fn packed_is_injective(a: (usize, usize), b: (usize, usize))
    ensures
        packed(a) == packed(b) ==> a == b,
{
}

/// Packs a key into one number.
fn pack(user_id: usize, order_id: usize) -> (r: u128)
    ensures
        r == packed((user_id, order_id)),
{
    (user_id as u128) * 0x1_0000_0000_0000_0000u128 + (order_id as u128)
}

/// The book after `order` was offered for `symbol`: the symbol's entry
/// takes the offer, and an admitted order enters the index, in place of
/// whatever its key held.
pub open spec fn book_after_add(v: BookView, symbol: Seq<char>, order: Order) -> BookView {
    let e = entry_or_empty(v, symbol);
    BookView {
        books: v.books.insert(symbol, after_add(e, order)),
        index: if crosses(e.orders, order) {
            v.index
        } else {
            v.index.insert(key_of(order), (symbol, order))
        },
    }
}

/// The book after the order under `(user_id, order_id)` was cancelled:
/// unchanged where the index has no such key, else the key leaves the
/// index and the snapshot's symbol entry loses the order.
pub open spec fn book_after_cancel(v: BookView, user_id: usize, order_id: usize) -> BookView {
    let k = (user_id, order_id);
    if v.index.contains_key(k) {
        let (symbol, order) = v.index[k];
        BookView {
            books: v.books.insert(symbol, after_cancel(v.books[symbol], order)),
            index: v.index.remove(k),
        }
    } else {
        v
    }
}

/// The top of `side` for `symbol`; `None` for a symbol the book never saw.
pub open spec fn top_in(v: BookView, symbol: Seq<char>, side: Side) -> Option<Order> {
    if v.books.contains_key(symbol) {
        top_of(v.books[symbol].orders, side)
    } else {
        None
    }
}

impl OrderBook {
    /// The symbol that slot `i` holds.
    spec fn symbol_at(&self, i: int) -> Seq<char> {
        self.order_book@[i].symbol@
    }

    /// Whether some slot holds `symbol`.
    spec fn has_symbol(&self, symbol: Seq<char>) -> bool {
        exists|i: int| 0 <= i < self.order_book@.len() && #[trigger] self.symbol_at(i) == symbol
    }

    /// The slot that holds `symbol`.
    spec fn slot_of(&self, symbol: Seq<char>) -> int {
        choose|i: int| 0 <= i < self.order_book@.len() && #[trigger] self.symbol_at(i) == symbol
    }

    /// No symbol has two entries, every indexed order is filed under its
    /// own key and names a symbol of the book, and every entry is sorted.
    pub closed spec fn wf(&self) -> bool {
        &&& forall|i: int, j: int|
            0 <= i < j < self.order_book@.len() ==> #[trigger] self.symbol_at(i)
                != #[trigger] self.symbol_at(j)
        &&& forall|p: u128| #[trigger]
            self.index@.contains_key(p) ==> p == packed(key_of(self.index@[p].order))
                && self.index@[p].slot < self.order_book@.len()
        &&& forall|i: int|
            0 <= i < self.order_book@.len() ==> (#[trigger] self.order_book@[i]).entry.wf()
    }

    /// A slot is the one that holds its symbol.
    proof fn slot_known(&self, i: int)
        requires
            self.wf(),
            0 <= i < self.order_book@.len(),
        ensures
            self.has_symbol(self.symbol_at(i)),
            self.slot_of(self.symbol_at(i)) == i,
    {
        let j = self.slot_of(self.symbol_at(i));
        assert(self.symbol_at(j) == self.symbol_at(i));
    }

    /// A well-formed book has a valid view.
    pub proof fn view_is_valid(&self)
        requires
            self.wf(),
        ensures
            valid(self@),
    {
        assert forall|s: Seq<char>| #[trigger] self@.books.contains_key(s) implies sorted(
            self@.books[s].orders,
        ) by {
            let i = self.slot_of(s);
            assert(self.symbol_at(i) == s);
            assert(self.order_book@[i].entry.wf());
        }
        assert forall|k: (usize, usize)| #[trigger]
            self@.index.contains_key(k) implies self@.books.contains_key(self@.index[k].0)
            && key_of(self@.index[k].1) == k by {
            let e = self.index@[packed(k)];
            packed_is_injective(k, key_of(e.order));
            self.slot_known(e.slot as int);
        }
    }

    /// Create a new order book, with no symbol and an empty index.
    pub fn new() -> (r: OrderBook)
        ensures
            r.wf(),
            r@ == empty_book(),
    {
        let r = OrderBook { order_book: Vec::new(), index: HashMap::new() };
        proof {
            assert(r@.books =~= Map::<Seq<char>, EntryView>::empty());
            assert(r@.index =~= Map::<(usize, usize), (Seq<char>, Order)>::empty());
        }
        r
    }

    /// The slot that holds `symbol`, if the book has seen it.
    fn find_symbol(&self, symbol: &str) -> (r: Option<usize>)
        requires
            self.wf(),
        ensures
            match r {
                Some(i) => i < self.order_book@.len() && self.symbol_at(i as int) == symbol@
                    && self.has_symbol(symbol@) && self.slot_of(symbol@) == i,
                None => !self.has_symbol(symbol@),
            },
    {
        let name = symbol.to_owned();
        let n = self.order_book.len();
        let mut i: usize = 0;
        while i < n
            invariant
                self.wf(),
                n == self.order_book@.len(),
                i <= n,
                name@ == symbol@,
                forall|j: int| 0 <= j < i ==> #[trigger] self.symbol_at(j) != symbol@,
            decreases n - i,
        {
            if self.order_book[i].symbol == name {
                proof {
                    self.slot_known(i as int);
                }
                return Some(i);
            }
            i += 1;
        }
        None
    }

    /// Return the top of the book on `side` for `symbol`.
    pub fn top(&self, side: Side, symbol: &str) -> (r: Option<Order>)
        requires
            self.wf(),
        ensures
            r == top_in(self@, symbol@, side),
    {
        match self.find_symbol(symbol) {
            None => None,
            Some(i) => self.order_book[i].entry.top(side),
        }
    }

    /// The log of `symbol` in the order of emission; `None` for a symbol
    /// the book never saw.
    pub fn get_logs(&self, symbol: &str) -> (r: Option<&Vec<LogEntry>>)
        requires
            self.wf(),
        ensures
            match r {
                Some(log) => self@.books.contains_key(symbol@) && log@ == self@.books[symbol@].log,
                None => !self@.books.contains_key(symbol@),
            },
    {
        match self.find_symbol(symbol) {
            None => None,
            Some(i) => Some(&self.order_book[i].entry.log),
        }
    }

    /// Add a new order for `symbol`. An order that would cross the book is
    /// refused and leaves only a `Reject` in the symbol's log; any other is
    /// acknowledged, indexed and inserted, and a change of the top of its
    /// side is logged.
    pub fn add(&mut self, symbol: &str, order: &Order)
        requires
            old(self).wf(),
        ensures
            final(self).wf(),
            final(self)@ == book_after_add(old(self)@, symbol@, *order),
    {
        let ghost start = *self;
        let slot = match self.find_symbol(symbol) {
            Some(i) => i,
            None => {
                self.order_book.push(
                    SymbolSlot { symbol: symbol.to_owned(), entry: OrderBookEntry::new() },
                );
                proof {
                    let grown = *self;
                    assert(forall|i: int|
                        0 <= i < start.order_book@.len() ==> grown.symbol_at(i) == start.symbol_at(
                            i,
                        ));
                    assert(forall|i: int|
                        0 <= i < start.order_book@.len() ==> grown.order_book@[i]
                            == start.order_book@[i]);
                    assert(forall|i: int|
                        0 <= i < start.order_book@.len() ==> start.symbol_at(i) != symbol@);
                    assert(grown.symbol_at(start.order_book@.len() as int) == symbol@);
                }
                self.order_book.len() - 1
            },
        };
        let ghost opened = *self;
        proof {
            assert(opened.symbol_at(slot as int) == symbol@);
            assert(forall|i: int|
                0 <= i < start.order_book@.len() ==> opened.symbol_at(i) == start.symbol_at(i));
            assert(opened.wf());
            assert(opened.order_book@[slot as int].entry@ == entry_or_empty(start@, symbol@));
        }
        let admitted = self.order_book[slot].entry.offer(order);
        if admitted {
            let key = pack(order.user_id, order.order_id);
            self.index.insert(key, IndexEntry { slot, order: *order });
        }
        proof {
            let after = *self;
            let want = book_after_add(start@, symbol@, *order);
            assert(forall|i: int|
                0 <= i < opened.order_book@.len() ==> after.symbol_at(i) == opened.symbol_at(i));
            assert(after.wf());
            after.slot_known(slot as int);
            assert forall|s: Seq<char>| after@.books.contains_key(s) <==> want.books.contains_key(
                s,
            ) by {
                if after.has_symbol(s) {
                    let i = after.slot_of(s);
                    if i < start.order_book@.len() {
                        assert(start.symbol_at(i) == s);
                    }
                }
                if start.has_symbol(s) {
                    let i = start.slot_of(s);
                    assert(after.symbol_at(i) == s);
                }
            }
            assert forall|s: Seq<char>| after@.books.contains_key(s) implies after@.books[s]
                == want.books[s] by {
                let i = after.slot_of(s);
                if s != symbol@ {
                    assert(start.symbol_at(i) == s);
                    start.slot_known(i);
                }
            }
            assert(after@.books =~= want.books);
            assert forall|k: (usize, usize)| after@.index.contains_key(k) <==> want.index.contains_key(
                k,
            ) by {
                packed_is_injective(k, key_of(*order));
            }
            assert forall|k: (usize, usize)| after@.index.contains_key(k) implies after@.index[k]
                == want.index[k] by {
                packed_is_injective(k, key_of(*order));
                if !(admitted && k == key_of(*order)) {
                    let e = start.index@[packed(k)];
                    assert(start.index@.contains_key(packed(k)));
                    assert(after.symbol_at(e.slot as int) == start.symbol_at(e.slot as int));
                }
            }
            assert(after@.index =~= want.index);
        }
    }

    /// Cancel the order under `(user_id, order_id)`. A key that the index
    /// does not hold changes nothing; else the order leaves index and
    /// entry, the cancellation is acknowledged, and a change of the top of
    /// its side is logged.
    pub fn cancel(&mut self, user_id: usize, order_id: usize)
        requires
            old(self).wf(),
        ensures
            final(self).wf(),
            final(self)@ == book_after_cancel(old(self)@, user_id, order_id),
    {
        let ghost start = *self;
        let key = pack(user_id, order_id);
        match self.index.remove(&key) {
            None => {
                proof {
                    let after = *self;
                    assert(after.index@ =~= start.index@);
                    assert(forall|i: int|
                        0 <= i < start.order_book@.len() ==> after.symbol_at(i) == start.symbol_at(
                            i,
                        ));
                    assert(after.wf());
                    assert forall|s: Seq<char>| after.has_symbol(s) <==> start.has_symbol(s) by {
                        if after.has_symbol(s) {
                            assert(start.symbol_at(after.slot_of(s)) == s);
                        }
                        if start.has_symbol(s) {
                            assert(after.symbol_at(start.slot_of(s)) == s);
                        }
                    }
                    assert(after@.books =~= start@.books);
                    assert(after@.index =~= start@.index);
                }
            },
            Some(found) => {
                proof {
                    assert(start.index@.contains_key(key));
                    assert(found == start.index@[key]);
                    packed_is_injective((user_id, order_id), key_of(found.order));
                }
                self.order_book[found.slot].entry.withdraw(&found.order);
                proof {
                    let after = *self;
                    let k = (user_id, order_id);
                    let slot = found.slot as int;
                    let want = book_after_cancel(start@, user_id, order_id);
                    assert(forall|i: int|
                        0 <= i < start.order_book@.len() ==> after.symbol_at(i) == start.symbol_at(
                            i,
                        ));
                    assert(after.wf());
                    start.slot_known(slot);
                    after.slot_known(slot);
                    assert forall|s: Seq<char>| after@.books.contains_key(s)
                        <==> want.books.contains_key(s) by {
                        if after.has_symbol(s) {
                            assert(start.symbol_at(after.slot_of(s)) == s);
                        }
                        if start.has_symbol(s) {
                            assert(after.symbol_at(start.slot_of(s)) == s);
                        }
                    }
                    assert forall|s: Seq<char>| after@.books.contains_key(s) implies after@.books[s]
                        == want.books[s] by {
                        let i = after.slot_of(s);
                        assert(start.symbol_at(i) == s);
                        start.slot_known(i);
                    }
                    assert(after@.books =~= want.books);
                    assert forall|q: (usize, usize)| after@.index.contains_key(q)
                        <==> want.index.contains_key(q) by {
                        packed_is_injective(q, k);
                    }
                    assert forall|q: (usize, usize)| after@.index.contains_key(q) implies after@.index[q]
                        == want.index[q] by {
                        packed_is_injective(q, k);
                        let e = start.index@[packed(q)];
                        assert(start.index@.contains_key(packed(q)));
                        assert(after.symbol_at(e.slot as int) == start.symbol_at(e.slot as int));
                    }
                    assert(after@.index =~= want.index);
                }
            },
        }
    }
}

impl View for OrderBook {
    type V = BookView;

    closed spec fn view(&self) -> BookView {
        BookView {
            books: Map::new(
                |s: Seq<char>| self.has_symbol(s),
                |s: Seq<char>| self.order_book@[self.slot_of(s)].entry@,
            ),
            index: Map::new(
                |k: (usize, usize)| self.index@.contains_key(packed(k)),
                |k: (usize, usize)|
                    {
                        let e = self.index@[packed(k)];
                        (self.symbol_at(e.slot as int), e.order)
                    },
            ),
        }
    }
}

} // verus!
