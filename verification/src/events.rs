use vstd::prelude::*;
use crate::side::Side;

verus! {

/// A notification that the book appends to a symbol's log.
///
/// `SideElimination` and `Trade` belong to the vocabulary but no operation
/// of the book emits them.
#[derive(Clone, Copy, Debug, PartialEq, Eq)]
pub enum LogEntry {
    Acknowledge { user_id: usize, order_id: usize },
    Reject { user_id: usize, order_id: usize },
    TopOfBook { side: Option<Side>, price: usize, volume: usize },
    SideElimination(Side),
    Trade {
        user_id_buy: usize,
        order_id_buy: usize,
        user_id_sell: usize,
        order_id_sell: usize,
        price: usize,
        volume: usize,
    },
}

} // verus!
