use orderbook::{Order, Side};
use std::cmp::Ordering;

#[test]
fn test_side() {
    assert_eq!(Side::new('B'), Some(Side::Buy));
    assert_eq!(Side::new('S'), Some(Side::Sell));
    assert_eq!(Side::new('T'), None);

    assert_eq!(Side::from('B'), Side::Buy);
    assert_eq!(Side::from('S'), Side::Sell);

    assert_eq!(Side::Buy.to_string(), "B".to_owned());
    assert_eq!(Side::Sell.to_string(), "S".to_owned());
}

#[test]
fn test_order_compare() {
    assert!(Order::new(Side::Sell, 0, 0, 0, 0) < Order::new(Side::Buy, 0, 0, 0, 0));
    assert!(Order::new(Side::Buy, 0, 0, 0, 0) > Order::new(Side::Sell, 0, 0, 0, 0));

    assert!(Order::new(Side::Buy, 0, 0, 100, 20) > Order::new(Side::Buy, 0, 1, 100, 20));
    assert!(Order::new(Side::Sell, 0, 0, 100, 20) < Order::new(Side::Sell, 0, 1, 100, 20));

    assert!(Order::new(Side::Buy, 0, 0, 100, 10) < Order::new(Side::Buy, 0, 0, 200, 5));
    assert!(Order::new(Side::Buy, 0, 0, 200, 5) > Order::new(Side::Buy, 0, 0, 100, 10));
}

#[test]
fn side_rejects_other_characters() {
    for c in ['b', 's', ' ', 'X', '0', '\n'] {
        assert_eq!(Side::new(c), None);
    }
}

#[test]
fn side_complement_is_an_involution() {
    assert_eq!(!Side::Buy, Side::Sell);
    assert_eq!(!Side::Sell, Side::Buy);
    assert_eq!(!!Side::Buy, Side::Buy);
    assert_eq!(Side::Buy.opposite(), Side::Sell);
    assert_eq!(Side::Sell.opposite().opposite(), Side::Sell);
}

#[test]
fn side_renders_as_its_token() {
    assert_eq!(Side::Buy.to_char(), 'B');
    assert_eq!(Side::Sell.to_char(), 'S');
    assert_eq!(Side::new(Side::Buy.to_char()), Some(Side::Buy));
    assert_eq!(Side::new(Side::Sell.to_char()), Some(Side::Sell));
}

#[test]
fn order_new_keeps_its_fields() {
    let o = Order::new(Side::Sell, 7, 8, 9, 10);
    assert_eq!(o.side, Side::Sell);
    assert_eq!(o.user_id, 7);
    assert_eq!(o.order_id, 8);
    assert_eq!(o.price, 9);
    assert_eq!(o.volume, 10);
}

#[test]
fn order_compares_by_price_then_volume_then_id() {
    let a = Order::new(Side::Sell, 1, 5, 100, 10);
    assert_eq!(a.prices_cmp(&Order::new(Side::Sell, 2, 1, 101, 1)), Some(Ordering::Less));
    assert_eq!(a.prices_cmp(&Order::new(Side::Sell, 2, 1, 99, 50)), Some(Ordering::Greater));
    assert_eq!(a.prices_cmp(&Order::new(Side::Sell, 2, 1, 100, 11)), Some(Ordering::Less));
    assert_eq!(a.prices_cmp(&Order::new(Side::Sell, 2, 1, 100, 9)), Some(Ordering::Greater));
    assert_eq!(a.prices_cmp(&Order::new(Side::Sell, 2, 6, 100, 10)), Some(Ordering::Less));
    assert_eq!(a.prices_cmp(&Order::new(Side::Sell, 2, 4, 100, 10)), Some(Ordering::Greater));
    assert_eq!(a.prices_cmp(&Order::new(Side::Sell, 2, 5, 100, 10)), Some(Ordering::Equal));

    let b = Order::new(Side::Buy, 1, 5, 100, 10);
    assert_eq!(b.prices_cmp(&Order::new(Side::Buy, 2, 6, 100, 10)), Some(Ordering::Greater));
    assert_eq!(b.prices_cmp(&Order::new(Side::Buy, 2, 4, 100, 10)), Some(Ordering::Less));
}

#[test]
fn order_comparison_is_total_across_sides() {
    let sell = Order::new(Side::Sell, 1, 1, 1000, 1000);
    let buy = Order::new(Side::Buy, 1, 1, 1, 1);
    assert_eq!(sell.partial_cmp(&buy), Some(Ordering::Less));
    assert_eq!(buy.partial_cmp(&sell), Some(Ordering::Greater));
    assert_eq!(buy.partial_cmp(&buy), Some(Ordering::Equal));
    assert!(sell.sorts_before(&buy));
    assert!(!buy.sorts_before(&sell));
    assert!(buy.same_place_as(&Order::new(Side::Buy, 9, 1, 1, 1)));
    assert!(!buy.same_place_as(&sell));
}
