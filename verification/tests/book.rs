use orderbook::{LogEntry, Order, OrderBook, OrderBookEntry, Side};

fn ack(user_id: usize, order_id: usize) -> LogEntry {
    LogEntry::Acknowledge { user_id, order_id }
}

fn reject(user_id: usize, order_id: usize) -> LogEntry {
    LogEntry::Reject { user_id, order_id }
}

fn tob(side: Side, price: usize, volume: usize) -> LogEntry {
    LogEntry::TopOfBook { side: Some(side), price, volume }
}

fn no_top() -> LogEntry {
    LogEntry::TopOfBook { side: None, price: 0, volume: 0 }
}

fn logs(book: &OrderBook, symbol: &str) -> Vec<LogEntry> {
    book.get_logs(symbol).unwrap().clone()
}

#[test]
fn test_book() {
    let mut book = OrderBook::new();
    book.add("IBM", &Order::new(Side::Buy, 1, 1, 10, 100));
    book.add("IBM", &Order::new(Side::Sell, 1, 2, 12, 100));
    book.add("IBM", &Order::new(Side::Buy, 2, 101, 9, 100));
    book.add("IBM", &Order::new(Side::Sell, 2, 102, 11, 100));
    book.add("IBM", &Order::new(Side::Buy, 1, 3, 11, 100));
    book.add("IBM", &Order::new(Side::Sell, 2, 103, 10, 100));
    book.add("IBM", &Order::new(Side::Buy, 1, 4, 10, 100));
    book.cancel(2, 102);
    book.cancel(1, 1);
    let expected = vec![
        ack(1, 1),
        tob(Side::Buy, 10, 100),
        ack(1, 2),
        tob(Side::Sell, 12, 100),
        ack(2, 101),
        ack(2, 102),
        tob(Side::Sell, 11, 100),
        reject(1, 3),
        reject(2, 103),
        ack(1, 4),
        tob(Side::Buy, 10, 200),
        ack(2, 102),
        tob(Side::Sell, 12, 100),
        ack(1, 1),
        tob(Side::Buy, 10, 100),
    ];
    assert_eq!(logs(&book, "IBM"), expected);
}

#[test]
fn new_book_knows_no_symbol() {
    let book = OrderBook::new();
    assert_eq!(book.get_logs("XYZ"), None);
    assert_eq!(book.top(Side::Buy, "XYZ"), None);
    assert_eq!(book.top(Side::Sell, "XYZ"), None);
}

#[test]
fn new_entry_is_empty() {
    let entry = OrderBookEntry::new();
    assert!(entry.orders.is_empty());
    assert!(entry.log.is_empty());
    assert_eq!(entry.top(Side::Buy), None);
    assert_eq!(entry.top(Side::Sell), None);
}

#[test]
fn symbols_are_kept_apart() {
    let mut book = OrderBook::new();
    book.add("AAA", &Order::new(Side::Buy, 1, 1, 10, 5));
    book.add("BBB", &Order::new(Side::Sell, 2, 2, 20, 6));
    assert_eq!(logs(&book, "AAA"), vec![ack(1, 1), tob(Side::Buy, 10, 5)]);
    assert_eq!(logs(&book, "BBB"), vec![ack(2, 2), tob(Side::Sell, 20, 6)]);
    assert_eq!(book.top(Side::Sell, "AAA"), None);
    assert_eq!(book.top(Side::Buy, "BBB"), None);
    assert_eq!(book.get_logs("CCC"), None);
    book.cancel(2, 2);
    assert_eq!(logs(&book, "AAA"), vec![ack(1, 1), tob(Side::Buy, 10, 5)]);
    assert_eq!(logs(&book, "BBB"), vec![ack(2, 2), tob(Side::Sell, 20, 6), ack(2, 2), no_top()]);
}

#[test]
fn extremes_are_best_ask_and_best_bid() {
    let mut book = OrderBook::new();
    book.add("S", &Order::new(Side::Sell, 1, 1, 120, 1));
    book.add("S", &Order::new(Side::Buy, 2, 2, 80, 2));
    book.add("S", &Order::new(Side::Sell, 3, 3, 110, 3));
    book.add("S", &Order::new(Side::Buy, 4, 4, 90, 4));
    book.add("S", &Order::new(Side::Sell, 5, 5, 130, 5));
    book.add("S", &Order::new(Side::Buy, 6, 6, 70, 6));
    assert_eq!(book.top(Side::Sell, "S"), Some(Order::new(Side::Sell, 3, 3, 110, 3)));
    assert_eq!(book.top(Side::Buy, "S"), Some(Order::new(Side::Buy, 4, 4, 90, 4)));
    book.cancel(3, 3);
    book.cancel(4, 4);
    assert_eq!(book.top(Side::Sell, "S"), Some(Order::new(Side::Sell, 1, 1, 120, 1)));
    assert_eq!(book.top(Side::Buy, "S"), Some(Order::new(Side::Buy, 2, 2, 80, 2)));
}

#[test]
fn cancelling_twice_acknowledges_once() {
    let mut book = OrderBook::new();
    book.add("S", &Order::new(Side::Buy, 1, 1, 10, 5));
    book.add("S", &Order::new(Side::Buy, 1, 2, 9, 5));
    book.cancel(1, 2);
    let once = logs(&book, "S");
    assert_eq!(once, vec![ack(1, 1), tob(Side::Buy, 10, 5), ack(1, 2), ack(1, 2)]);
    book.cancel(1, 2);
    assert_eq!(logs(&book, "S"), once);
    assert_eq!(book.top(Side::Buy, "S"), Some(Order::new(Side::Buy, 1, 1, 10, 5)));
}

#[test]
fn cancelling_an_unknown_order_changes_nothing() {
    let mut book = OrderBook::new();
    book.cancel(1, 1);
    assert_eq!(book.get_logs("S"), None);
    book.add("S", &Order::new(Side::Sell, 1, 1, 10, 5));
    book.cancel(1, 2);
    book.cancel(2, 1);
    assert_eq!(logs(&book, "S"), vec![ack(1, 1), tob(Side::Sell, 10, 5)]);
}

#[test]
fn cancelled_order_is_no_longer_indexed() {
    let mut book = OrderBook::new();
    book.add("S", &Order::new(Side::Sell, 1, 1, 10, 5));
    book.add("S", &Order::new(Side::Sell, 2, 2, 11, 6));
    book.cancel(1, 1);
    assert_eq!(book.top(Side::Sell, "S"), Some(Order::new(Side::Sell, 2, 2, 11, 6)));
    book.add("S", &Order::new(Side::Sell, 1, 1, 10, 5));
    assert_eq!(book.top(Side::Sell, "S"), Some(Order::new(Side::Sell, 1, 1, 10, 5)));
    book.cancel(1, 1);
    book.cancel(2, 2);
    assert_eq!(book.top(Side::Sell, "S"), None);
}

#[test]
fn crossing_buy_is_rejected_and_book_unchanged() {
    for price in [100, 101, 5000] {
        let mut book = OrderBook::new();
        book.add("S", &Order::new(Side::Sell, 1, 1, 100, 10));
        book.add("S", &Order::new(Side::Buy, 2, 2, 90, 10));
        let bid = book.top(Side::Buy, "S");
        let ask = book.top(Side::Sell, "S");
        let before = logs(&book, "S");
        book.add("S", &Order::new(Side::Buy, 3, 3, price, 10));
        let mut expected = before.clone();
        expected.push(reject(3, 3));
        assert_eq!(logs(&book, "S"), expected);
        assert_eq!(book.top(Side::Buy, "S"), bid);
        assert_eq!(book.top(Side::Sell, "S"), ask);
        book.cancel(3, 3);
        assert_eq!(logs(&book, "S"), expected);
    }
}

#[test]
fn crossing_sell_is_rejected() {
    let mut book = OrderBook::new();
    book.add("S", &Order::new(Side::Sell, 1, 1, 100, 10));
    book.add("S", &Order::new(Side::Buy, 2, 2, 90, 10));
    book.add("S", &Order::new(Side::Sell, 3, 3, 90, 10));
    book.add("S", &Order::new(Side::Sell, 3, 4, 91, 10));
    assert_eq!(
        logs(&book, "S"),
        vec![
            ack(1, 1),
            tob(Side::Sell, 100, 10),
            ack(2, 2),
            tob(Side::Buy, 90, 10),
            reject(3, 3),
            ack(3, 4),
            tob(Side::Sell, 91, 10),
        ]
    );
}

#[test]
fn first_order_of_a_side_is_never_checked() {
    let mut book = OrderBook::new();
    book.add("XYZ", &Order::new(Side::Sell, 1, 1, 100, 10));
    book.add("XYZ", &Order::new(Side::Buy, 2, 2, 100, 10));
    assert_eq!(
        logs(&book, "XYZ"),
        vec![ack(1, 1), tob(Side::Sell, 100, 10), ack(2, 2), tob(Side::Buy, 100, 10)]
    );
    book.add("XYZ", &Order::new(Side::Buy, 3, 3, 100, 10));
    assert_eq!(logs(&book, "XYZ").last(), Some(&reject(3, 3)));
}

#[test]
fn equal_price_is_rejected_once_both_sides_rest() {
    let mut book = OrderBook::new();
    book.add("XYZ", &Order::new(Side::Sell, 1, 1, 100, 10));
    book.add("XYZ", &Order::new(Side::Buy, 3, 3, 50, 1));
    book.add("XYZ", &Order::new(Side::Buy, 2, 2, 100, 10));
    assert_eq!(
        logs(&book, "XYZ"),
        vec![ack(1, 1), tob(Side::Sell, 100, 10), ack(3, 3), tob(Side::Buy, 50, 1), reject(2, 2)]
    );
}

#[test]
fn top_sums_one_users_orders_at_one_price() {
    let mut book = OrderBook::new();
    book.add("S", &Order::new(Side::Buy, 1, 10, 50, 5));
    book.add("S", &Order::new(Side::Buy, 1, 11, 50, 7));
    book.add("S", &Order::new(Side::Buy, 1, 12, 50, 3));
    assert_eq!(book.top(Side::Buy, "S"), Some(Order::new(Side::Buy, 1, 10, 50, 15)));
    assert_eq!(
        logs(&book, "S"),
        vec![
            ack(1, 10),
            tob(Side::Buy, 50, 5),
            ack(1, 11),
            tob(Side::Buy, 50, 12),
            ack(1, 12),
            tob(Side::Buy, 50, 15),
        ]
    );
}

#[test]
fn top_stops_summing_at_another_user() {
    let mut book = OrderBook::new();
    book.add("S", &Order::new(Side::Sell, 1, 1, 50, 5));
    book.add("S", &Order::new(Side::Sell, 2, 2, 50, 6));
    book.add("S", &Order::new(Side::Sell, 1, 3, 50, 7));
    assert_eq!(book.top(Side::Sell, "S"), Some(Order::new(Side::Sell, 1, 1, 50, 5)));
    book.cancel(2, 2);
    assert_eq!(book.top(Side::Sell, "S"), Some(Order::new(Side::Sell, 1, 1, 50, 12)));
}

#[test]
fn top_volume_wraps_like_machine_arithmetic() {
    let mut book = OrderBook::new();
    book.add("S", &Order::new(Side::Sell, 1, 1, 50, usize::MAX));
    book.add("S", &Order::new(Side::Sell, 1, 2, 50, 3));
    assert_eq!(book.top(Side::Sell, "S"), Some(Order::new(Side::Sell, 1, 1, 50, 2)));
}

#[test]
fn new_best_bid_is_logged_once() {
    let mut book = OrderBook::new();
    book.add("S", &Order::new(Side::Buy, 1, 1, 50, 5));
    let before = logs(&book, "S").len();
    book.add("S", &Order::new(Side::Buy, 2, 2, 60, 8));
    let after = logs(&book, "S");
    assert_eq!(after.len(), before + 2);
    assert_eq!(after[before], ack(2, 2));
    assert_eq!(after[before + 1], tob(Side::Buy, 60, 8));
}

#[test]
fn worse_bid_is_not_logged_as_top() {
    let mut book = OrderBook::new();
    book.add("S", &Order::new(Side::Buy, 1, 1, 50, 5));
    let before = logs(&book, "S").len();
    book.add("S", &Order::new(Side::Buy, 2, 2, 40, 8));
    let after = logs(&book, "S");
    assert_eq!(after.len(), before + 1);
    assert_eq!(after[before], ack(2, 2));
    assert_eq!(book.top(Side::Buy, "S"), Some(Order::new(Side::Buy, 1, 1, 50, 5)));
}

#[test]
fn top_of_the_other_side_is_not_logged() {
    let mut book = OrderBook::new();
    book.add("S", &Order::new(Side::Sell, 1, 1, 100, 5));
    book.add("S", &Order::new(Side::Buy, 2, 2, 40, 8));
    book.add("S", &Order::new(Side::Buy, 2, 3, 30, 8));
    book.cancel(2, 3);
    assert_eq!(
        logs(&book, "S"),
        vec![ack(1, 1), tob(Side::Sell, 100, 5), ack(2, 2), tob(Side::Buy, 40, 8), ack(2, 3), ack(2, 3)]
    );
}

#[test]
fn cancelling_the_last_order_of_a_side_logs_no_top() {
    let mut book = OrderBook::new();
    book.add("S", &Order::new(Side::Sell, 1, 1, 100, 5));
    book.add("S", &Order::new(Side::Buy, 2, 2, 40, 8));
    book.cancel(2, 2);
    assert_eq!(
        logs(&book, "S"),
        vec![ack(1, 1), tob(Side::Sell, 100, 5), ack(2, 2), tob(Side::Buy, 40, 8), ack(2, 2), no_top()]
    );
    assert_eq!(book.top(Side::Buy, "S"), None);
    assert_eq!(book.top(Side::Sell, "S"), Some(Order::new(Side::Sell, 1, 1, 100, 5)));
    book.cancel(1, 1);
    assert_eq!(logs(&book, "S").last(), Some(&no_top()));
    assert_eq!(book.top(Side::Sell, "S"), None);
    assert_eq!(logs(&book, "S").len(), 8);
}

#[test]
fn cancel_reveals_the_next_top() {
    let mut book = OrderBook::new();
    book.add("S", &Order::new(Side::Sell, 1, 1, 100, 5));
    book.add("S", &Order::new(Side::Sell, 2, 2, 101, 6));
    book.cancel(1, 1);
    assert_eq!(
        logs(&book, "S"),
        vec![ack(1, 1), tob(Side::Sell, 100, 5), ack(2, 2), ack(1, 1), tob(Side::Sell, 101, 6)]
    );
}

#[test]
fn entry_keeps_orders_sorted_and_unique() {
    let mut entry = OrderBookEntry::new();
    assert!(entry.insert(Order::new(Side::Buy, 1, 1, 10, 1)));
    assert!(entry.insert(Order::new(Side::Sell, 1, 2, 30, 1)));
    assert!(entry.insert(Order::new(Side::Buy, 1, 3, 12, 1)));
    assert!(entry.insert(Order::new(Side::Sell, 1, 4, 20, 1)));
    assert!(!entry.insert(Order::new(Side::Sell, 9, 4, 20, 1)));
    assert_eq!(
        entry.orders,
        vec![
            Order::new(Side::Sell, 1, 4, 20, 1),
            Order::new(Side::Sell, 1, 2, 30, 1),
            Order::new(Side::Buy, 1, 1, 10, 1),
            Order::new(Side::Buy, 1, 3, 12, 1),
        ]
    );
    assert!(entry.remove(&Order::new(Side::Sell, 1, 2, 30, 1)));
    assert!(!entry.remove(&Order::new(Side::Sell, 1, 2, 30, 1)));
    assert_eq!(entry.orders.len(), 3);
    assert!(entry.log.is_empty());
}

#[test]
fn entry_total_volume_walks_from_the_top() {
    let mut entry = OrderBookEntry::new();
    entry.insert(Order::new(Side::Sell, 1, 4, 20, 2));
    entry.insert(Order::new(Side::Sell, 1, 2, 20, 3));
    entry.insert(Order::new(Side::Sell, 2, 5, 20, 4));
    entry.insert(Order::new(Side::Buy, 3, 6, 10, 9));
    assert_eq!(entry.total_volume(Side::Sell, 1, 20), (5, 2));
    assert_eq!(entry.total_volume(Side::Buy, 3, 10), (9, 6));
    assert_eq!(entry.total_volume(Side::Buy, 1, 20), (0, usize::MAX));
}

#[test]
fn entry_offer_and_withdraw_write_the_log() {
    let mut entry = OrderBookEntry::new();
    assert!(entry.offer(&Order::new(Side::Sell, 1, 1, 100, 5)));
    assert!(entry.offer(&Order::new(Side::Buy, 2, 2, 90, 5)));
    assert!(!entry.offer(&Order::new(Side::Sell, 3, 3, 90, 5)));
    entry.withdraw(&Order::new(Side::Buy, 2, 2, 90, 5));
    assert_eq!(
        entry.log,
        vec![
            ack(1, 1),
            tob(Side::Sell, 100, 5),
            ack(2, 2),
            tob(Side::Buy, 90, 5),
            reject(3, 3),
            ack(2, 2),
            no_top(),
        ]
    );
}

#[test]
fn log_top_of_book_reports_changes_only() {
    let mut entry = OrderBookEntry::new();
    let a = Order::new(Side::Buy, 1, 1, 10, 5);
    let b = Order::new(Side::Buy, 1, 1, 10, 6);
    entry.log_top_of_book(None, Some(a));
    entry.log_top_of_book(Some(a), Some(a));
    entry.log_top_of_book(Some(a), Some(b));
    entry.log_top_of_book(Some(b), None);
    entry.log_top_of_book(None, None);
    assert_eq!(entry.log, vec![tob(Side::Buy, 10, 5), tob(Side::Buy, 10, 6), no_top(), no_top()]);
}

#[test]
fn keys_with_large_ids_are_kept_apart() {
    let m = usize::MAX;
    let mut book = OrderBook::new();
    book.add("S", &Order::new(Side::Buy, m, 0, 10, 1));
    book.add("S", &Order::new(Side::Buy, 0, m, 11, 2));
    book.add("S", &Order::new(Side::Buy, m, m, 12, 3));
    book.add("S", &Order::new(Side::Buy, 0, 0, 13, 4));
    book.add("S", &Order::new(Side::Buy, 1, 0, 14, 5));
    book.add("S", &Order::new(Side::Buy, 0, 1, 15, 6));
    assert_eq!(book.top(Side::Buy, "S"), Some(Order::new(Side::Buy, 0, 1, 15, 6)));
    book.cancel(0, 1);
    assert_eq!(book.top(Side::Buy, "S"), Some(Order::new(Side::Buy, 1, 0, 14, 5)));
    book.cancel(1, 0);
    assert_eq!(book.top(Side::Buy, "S"), Some(Order::new(Side::Buy, 0, 0, 13, 4)));
    book.cancel(0, 0);
    assert_eq!(book.top(Side::Buy, "S"), Some(Order::new(Side::Buy, m, m, 12, 3)));
    book.cancel(m, m);
    assert_eq!(book.top(Side::Buy, "S"), Some(Order::new(Side::Buy, 0, m, 11, 2)));
    book.cancel(0, m);
    assert_eq!(book.top(Side::Buy, "S"), Some(Order::new(Side::Buy, m, 0, 10, 1)));
    book.cancel(m, 0);
    assert_eq!(book.top(Side::Buy, "S"), None);
}

#[test]
fn cancel_finds_its_symbol_through_the_index() {
    let mut book = OrderBook::new();
    book.add("AAA", &Order::new(Side::Sell, 1, 1, 10, 5));
    book.add("BBB", &Order::new(Side::Sell, 1, 2, 10, 5));
    book.add("CCC", &Order::new(Side::Sell, 1, 3, 10, 5));
    book.cancel(1, 2);
    assert_eq!(book.top(Side::Sell, "AAA"), Some(Order::new(Side::Sell, 1, 1, 10, 5)));
    assert_eq!(book.top(Side::Sell, "BBB"), None);
    assert_eq!(book.top(Side::Sell, "CCC"), Some(Order::new(Side::Sell, 1, 3, 10, 5)));
    assert_eq!(logs(&book, "AAA").len(), 2);
    assert_eq!(logs(&book, "BBB").len(), 4);
    assert_eq!(logs(&book, "CCC").len(), 2);
}

#[test]
fn a_repeated_key_is_indexed_anew() {
    let mut book = OrderBook::new();
    book.add("S", &Order::new(Side::Buy, 1, 1, 10, 5));
    book.add("S", &Order::new(Side::Buy, 1, 1, 11, 6));
    assert_eq!(book.top(Side::Buy, "S"), Some(Order::new(Side::Buy, 1, 1, 11, 6)));
    book.cancel(1, 1);
    assert_eq!(book.top(Side::Buy, "S"), Some(Order::new(Side::Buy, 1, 1, 10, 5)));
    book.cancel(1, 1);
    assert_eq!(book.top(Side::Buy, "S"), Some(Order::new(Side::Buy, 1, 1, 10, 5)));
    assert_eq!(
        logs(&book, "S"),
        vec![
            ack(1, 1),
            tob(Side::Buy, 10, 5),
            ack(1, 1),
            tob(Side::Buy, 11, 6),
            ack(1, 1),
            tob(Side::Buy, 10, 5),
        ]
    );
}

#[test]
fn an_order_in_a_taken_place_is_not_inserted() {
    let mut book = OrderBook::new();
    book.add("S", &Order::new(Side::Sell, 1, 7, 10, 5));
    book.add("S", &Order::new(Side::Sell, 2, 7, 10, 5));
    assert_eq!(book.top(Side::Sell, "S"), Some(Order::new(Side::Sell, 1, 7, 10, 5)));
    assert_eq!(logs(&book, "S"), vec![ack(1, 7), tob(Side::Sell, 10, 5), ack(2, 7)]);
}

#[test]
fn top_sums_across_sides_for_one_user_at_one_price() {
    let mut book = OrderBook::new();
    book.add("S", &Order::new(Side::Sell, 1, 1, 100, 10));
    book.add("S", &Order::new(Side::Buy, 1, 2, 100, 4));
    assert_eq!(book.top(Side::Sell, "S"), Some(Order::new(Side::Sell, 1, 1, 100, 14)));
    assert_eq!(book.top(Side::Buy, "S"), Some(Order::new(Side::Buy, 1, 1, 100, 14)));
}
