use matching_engine::decimal::Decimal;
use matching_engine::orders::{highest_order_id, Order, Side, TypeOp};
use matching_engine::trading_engine::matching_engine::MatchingEngine;
use std::str::FromStr;

fn dec(s: &str) -> Decimal {
    let d = rust_decimal::Decimal::from_str(s).unwrap();
    Decimal::new(d.mantissa(), d.scale()).unwrap()
}

fn create(id: u64, account: u64, pair: &str, side: Side, amount: &str, price: &str) -> Order {
    Order {
        type_op: TypeOp::Create,
        account_id: account,
        amount: dec(amount),
        order_id: id,
        pair: pair.to_string(),
        limit_price: dec(price),
        side,
    }
}

fn delete(id: u64) -> Order {
    Order { type_op: TypeOp::Delete, order_id: id, ..Default::default() }
}

fn ids(orders: &Vec<Order>) -> Vec<u64> {
    orders.iter().map(|o| o.order_id).collect()
}

#[test]
fn default_order_is_a_zero_buy_create() {
    let o = Order::default();
    assert_eq!(o.type_op, TypeOp::Create);
    assert_eq!(o.side, Side::Buy);
    assert!(o.amount.is_zero());
    assert!(o.limit_price.is_zero());
    assert_eq!(o.pair, "");
    assert_eq!(o.order_id, 0);
    assert_eq!(o.account_id, 0);
    assert_eq!(Side::default(), Side::Buy);
    assert_eq!(TypeOp::default(), TypeOp::Create);
}

#[test]
fn one_book_per_pair() {
    let mut e = MatchingEngine::new();
    let mut trades = Vec::new();
    e.process(create(1, 1, "BTC/USDC", Side::Buy, "1", "100"), &mut trades);
    e.process(create(2, 1, "ETH/USDC", Side::Sell, "1", "50"), &mut trades);
    e.process(create(3, 2, "BTC/USDC", Side::Sell, "1", "101"), &mut trades);
    assert!(trades.is_empty());
    let pairs: Vec<String> = e.books().iter().map(|(p, _)| p.clone()).collect();
    assert_eq!(pairs, vec!["BTC/USDC".to_string(), "ETH/USDC".to_string()]);
    assert_eq!(e.order_index().len(), 3);
}

#[test]
fn orders_of_pairs_do_not_meet() {
    let mut e = MatchingEngine::new();
    let mut trades = Vec::new();
    e.process(create(1, 1, "BTC/USDC", Side::Sell, "1", "100"), &mut trades);
    e.process(create(2, 2, "ETH/USDC", Side::Buy, "1", "200"), &mut trades);
    assert!(trades.is_empty());
    e.process(create(3, 2, "BTC/USDC", Side::Buy, "1", "200"), &mut trades);
    assert_eq!(trades.len(), 1);
    assert_eq!(trades[0].pair, "BTC/USDC");
    assert_eq!((trades[0].buy_order_id, trades[0].sell_order_id), (3, 1));
    assert_eq!(trades[0].price, dec("100"));
}

#[test]
fn delete_cancels_a_resting_order() {
    let mut e = MatchingEngine::new();
    let mut trades = Vec::new();
    e.process(create(1, 1, "BTC/USDC", Side::Buy, "1", "100"), &mut trades);
    e.process(create(2, 1, "BTC/USDC", Side::Buy, "1", "100"), &mut trades);
    e.process(delete(1), &mut trades);
    assert!(trades.is_empty());
    assert_eq!(ids(&e.gte_orders_by_account(1)), vec![2]);
    assert!(e.order_index().get(&1).is_none());
    assert!(e.order_index().get(&2).is_some());
}

#[test]
fn delete_of_an_unknown_id_changes_nothing() {
    let mut e = MatchingEngine::new();
    let mut trades = Vec::new();
    e.process(create(1, 1, "BTC/USDC", Side::Buy, "1", "100"), &mut trades);
    e.process(delete(9), &mut trades);
    assert_eq!(ids(&e.gte_orders_by_account(1)), vec![1]);
    assert_eq!(e.order_index().len(), 1);
}

#[test]
fn delete_then_create_restores_the_engine() {
    let mut e = MatchingEngine::new();
    let mut trades = Vec::new();
    e.process(create(1, 1, "BTC/USDC", Side::Sell, "1", "100"), &mut trades);
    let before = e.gte_orders_by_account(1);
    e.process(create(2, 1, "BTC/USDC", Side::Buy, "1", "99"), &mut trades);
    e.process(delete(2), &mut trades);
    assert!(trades.is_empty());
    assert_eq!(e.gte_orders_by_account(1), before);
    assert_eq!(e.order_index().len(), 1);
    assert_eq!(e.books()[0].1.buys().len(), 0);
}

#[test]
fn index_keeps_the_order_as_created() {
    let mut e = MatchingEngine::new();
    let mut trades = Vec::new();
    e.process(create(1, 1, "BTC/USDC", Side::Sell, "2", "100"), &mut trades);
    e.process(create(2, 2, "BTC/USDC", Side::Buy, "2", "100"), &mut trades);
    assert_eq!(trades.len(), 1);
    assert_eq!(e.order_index().get(&1).unwrap().amount, dec("2"));
    assert!(e.gte_orders_by_account(1).is_empty());
    // Deleting a filled order only takes it out of the index.
    e.process(delete(1), &mut trades);
    assert!(e.order_index().get(&1).is_none());
    assert_eq!(trades.len(), 1);
}

#[test]
fn orders_by_account_book_by_book_bids_then_asks() {
    let mut e = MatchingEngine::new();
    let mut trades = Vec::new();
    e.process(create(1, 7, "BTC/USDC", Side::Sell, "1", "101"), &mut trades);
    e.process(create(2, 8, "BTC/USDC", Side::Buy, "1", "99"), &mut trades);
    e.process(create(3, 7, "BTC/USDC", Side::Buy, "1", "98"), &mut trades);
    e.process(create(4, 7, "ETH/USDC", Side::Buy, "1", "10"), &mut trades);
    e.process(create(5, 7, "BTC/USDC", Side::Buy, "0.5", "99"), &mut trades);
    assert_eq!(ids(&e.gte_orders_by_account(7)), vec![3, 5, 1, 4]);
    assert_eq!(ids(&e.gte_orders_by_account(8)), vec![2]);
    assert!(e.gte_orders_by_account(9).is_empty());
}

#[test]
fn partially_filled_order_is_listed_with_what_is_left() {
    let mut e = MatchingEngine::new();
    let mut trades = Vec::new();
    e.process(create(1, 7, "BTC/USDC", Side::Sell, "1.5", "100"), &mut trades);
    e.process(create(2, 8, "BTC/USDC", Side::Buy, "1", "100"), &mut trades);
    let left = e.gte_orders_by_account(7);
    assert_eq!(left.len(), 1);
    assert_eq!(left[0].amount, dec("0.5"));
    assert_eq!(trades[0].amount, dec("1"));
}

#[test]
fn highest_order_id_of_the_log() {
    assert_eq!(highest_order_id(&Vec::new()), 0);
    let orders = vec![
        create(3, 1, "BTC/USDC", Side::Buy, "1", "1"),
        create(17, 1, "BTC/USDC", Side::Buy, "1", "1"),
        delete(5),
    ];
    assert_eq!(highest_order_id(&orders), 17);
}
