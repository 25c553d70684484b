use vstd::prelude::*;
use crate::side::Side;
use core::cmp::Ordering;

verus! {

/// A limit order. `(user_id, order_id)` identifies it.
#[derive(Copy, Clone, Debug, PartialEq, Eq, Structural)]
pub struct Order {
    pub user_id: usize,
    pub order_id: usize,
    pub price: usize,
    pub volume: usize,
    pub side: Side,
}

/// How two orders of one side compare: by price, then by volume, then by
/// order id, where the earlier buy sorts higher and the earlier sell lower.
pub open spec fn same_side_order(a: Order, b: Order) -> Ordering {
    if a.price != b.price {
        if a.price < b.price { Ordering::Less } else { Ordering::Greater }
    } else if a.volume != b.volume {
        if a.volume < b.volume { Ordering::Less } else { Ordering::Greater }
    } else if a.order_id == b.order_id {
        Ordering::Equal
    } else if (a.side == Side::Buy) == (b.order_id < a.order_id) {
        Ordering::Less
    } else {
        Ordering::Greater
    }
}

/// The book's sort key: every sell below every buy, and `same_side_order`
/// within a side.
pub open spec fn book_order(a: Order, b: Order) -> Ordering {
    if a.side == b.side {
        same_side_order(a, b)
    } else if a.side == Side::Sell {
        Ordering::Less
    } else {
        Ordering::Greater
    }
}

/// `a` sorts strictly before `b`.
pub open spec fn before(a: Order, b: Order) -> bool {
    book_order(a, b) == Ordering::Less
}

/// `a` and `b` take the same place in the order: they agree on side, price,
/// volume and order id.
pub open spec fn same_place(a: Order, b: Order) -> bool {
    book_order(a, b) == Ordering::Equal
}

impl Order {
    /// Create a new order.
    pub fn new(side: Side, user_id: usize, order_id: usize, price: usize, volume: usize) -> (r: Order)
        ensures
            r == (Order { user_id, order_id, price, volume, side }),
    {
        Order { user_id, order_id, price, volume, side }
    }

    /// Compares two orders that rest on the same side.
    pub fn prices_cmp(&self, other: &Order) -> (r: Option<Ordering>)
        ensures
            r == Some(same_side_order(*self, *other)),
    {
        if self.price != other.price {
            if self.price < other.price { Some(Ordering::Less) } else { Some(Ordering::Greater) }
        } else if self.volume != other.volume {
            if self.volume < other.volume { Some(Ordering::Less) } else { Some(Ordering::Greater) }
        } else if self.order_id == other.order_id {
            Some(Ordering::Equal)
        } else {
            let later = other.order_id < self.order_id;
            match self.side {
                Side::Buy => if later { Some(Ordering::Less) } else { Some(Ordering::Greater) },
                Side::Sell => if later { Some(Ordering::Greater) } else { Some(Ordering::Less) },
            }
        }
    }

    /// Whether this order sorts strictly before `other` in the book.
    pub fn sorts_before(&self, other: &Order) -> (r: bool)
        ensures
            r == before(*self, *other),
    {
        match self.partial_cmp(other) {
            Some(Ordering::Less) => true,
            _ => false,
        }
    }

    /// Whether this order takes the same place in the book as `other`.
    pub fn same_place_as(&self, other: &Order) -> (r: bool)
        ensures
            r == same_place(*self, *other),
    {
        match self.partial_cmp(other) {
            Some(Ordering::Equal) => true,
            _ => false,
        }
    }
}

impl PartialOrd for Order {
    fn partial_cmp(&self, other: &Order) -> (r: Option<Ordering>) {
        match self.side {
            Side::Buy => match other.side {
                Side::Buy => self.prices_cmp(other),
                Side::Sell => Some(Ordering::Greater),
            },
            Side::Sell => match other.side {
                Side::Buy => Some(Ordering::Less),
                Side::Sell => self.prices_cmp(other),
            },
        }
    }
}

impl vstd::std_specs::cmp::PartialOrdSpecImpl for Order {
    open spec fn obeys_partial_cmp_spec() -> bool {
        true
    }

    open spec fn partial_cmp_spec(&self, other: &Order) -> Option<Ordering> {
        Some(book_order(*self, *other))
    }
}

/// The order is total: of two orders exactly one of before, same place and
/// after holds, and orders share a place only where they agree on side,
/// price, volume and order id.
pub proof fn book_order_total(a: Order, b: Order)
    ensures
        before(a, b) || same_place(a, b) || before(b, a),
        !(before(a, b) && same_place(a, b)),
        !(before(a, b) && before(b, a)),
        same_place(a, b) <==> same_place(b, a),
        same_place(a, a),
        same_place(a, b) <==> (a.side == b.side && a.price == b.price && a.volume == b.volume
            && a.order_id == b.order_id),
{
}

/// The order is transitive, and orders in the same place are interchangeable.
pub proof fn book_order_transitive(a: Order, b: Order, c: Order)
    ensures
        before(a, b) && before(b, c) ==> before(a, c),
        same_place(a, b) && before(b, c) ==> before(a, c),
        before(a, b) && same_place(b, c) ==> before(a, c),
        same_place(a, b) && same_place(b, c) ==> same_place(a, c),
{
}

} // verus!
