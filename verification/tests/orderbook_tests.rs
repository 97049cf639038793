use matching_engine::decimal::Decimal;
use matching_engine::orders::{Order, Side, TypeOp};
use matching_engine::trading_engine::matching_engine::Trade;
use matching_engine::trading_engine::orderbook::{OrderBook, PriceLevel};
use std::str::FromStr;

fn dec(s: &str) -> Decimal {
    let d = rust_decimal::Decimal::from_str(s).unwrap();
    Decimal::new(d.mantissa(), d.scale()).unwrap()
}

fn order(id: u64, account: u64, side: Side, amount: &str, price: &str) -> Order {
    Order {
        type_op: TypeOp::Create,
        account_id: account,
        amount: dec(amount),
        order_id: id,
        pair: "BTC/USDC".to_string(),
        limit_price: dec(price),
        side,
    }
}

/// (price, [(id, amount)]) of each level.
fn levels(ls: &Vec<PriceLevel>) -> Vec<(Decimal, Vec<(u64, Decimal)>)> {
    ls.iter()
        .map(|l| (l.price, l.orders.iter().map(|o| (o.order_id, o.amount)).collect()))
        .collect()
}

fn trade(buy: u64, sell: u64, amount: &str, price: &str) -> (u64, u64, Decimal, Decimal, String) {
    (buy, sell, dec(amount), dec(price), "BTC/USDC".to_string())
}

fn trades_of(ts: &Vec<Trade>) -> Vec<(u64, u64, Decimal, Decimal, String)> {
    ts.iter()
        .map(|t| (t.buy_order_id, t.sell_order_id, t.amount, t.price, t.pair.clone()))
        .collect()
}

#[test]
fn new_book_is_empty() {
    let b = OrderBook::new();
    assert!(b.buys().is_empty());
    assert!(b.sells().is_empty());
}

#[test]
fn buy_rests_on_empty_book() {
    let mut b = OrderBook::new();
    let mut trades = Vec::new();
    b.process_create(order(1, 42, Side::Buy, "0.25000", "60500.00"), &mut trades);
    assert!(trades.is_empty());
    assert_eq!(levels(b.buys()), vec![(dec("60500"), vec![(1, dec("0.25"))])]);
    assert!(b.sells().is_empty());
}

#[test]
fn buy_takes_lowest_ask_first_at_maker_price() {
    let mut b = OrderBook::new();
    let mut trades = Vec::new();
    b.process_create(order(1, 1, Side::Sell, "1", "101"), &mut trades);
    b.process_create(order(2, 1, Side::Sell, "1", "100"), &mut trades);
    assert!(trades.is_empty());
    b.process_create(order(3, 2, Side::Buy, "1.5", "102"), &mut trades);
    assert_eq!(trades_of(&trades), vec![trade(3, 2, "1", "100"), trade(3, 1, "0.5", "101")]);
    assert_eq!(levels(b.sells()), vec![(dec("101"), vec![(1, dec("0.5"))])]);
    assert!(b.buys().is_empty());
}

#[test]
fn oldest_order_at_a_price_trades_first() {
    let mut b = OrderBook::new();
    let mut trades = Vec::new();
    b.process_create(order(1, 1, Side::Sell, "2", "100"), &mut trades);
    b.process_create(order(2, 1, Side::Sell, "2", "100.0"), &mut trades);
    b.process_create(order(3, 2, Side::Buy, "3", "100"), &mut trades);
    assert_eq!(trades_of(&trades), vec![trade(3, 1, "2", "100"), trade(3, 2, "1", "100")]);
    assert_eq!(levels(b.sells()), vec![(dec("100"), vec![(2, dec("1"))])]);
    assert!(b.buys().is_empty());
}

#[test]
fn sell_takes_highest_bid_first() {
    let mut b = OrderBook::new();
    let mut trades = Vec::new();
    b.process_create(order(1, 1, Side::Buy, "1", "99"), &mut trades);
    b.process_create(order(2, 1, Side::Buy, "1", "100"), &mut trades);
    b.process_create(order(3, 1, Side::Buy, "1", "98"), &mut trades);
    b.process_create(order(4, 2, Side::Sell, "2.5", "99"), &mut trades);
    assert_eq!(trades_of(&trades), vec![trade(2, 4, "1", "100"), trade(1, 4, "1", "99")]);
    assert_eq!(levels(b.buys()), vec![(dec("98"), vec![(3, dec("1"))])]);
    assert_eq!(levels(b.sells()), vec![(dec("99"), vec![(4, dec("0.5"))])]);
}

#[test]
fn order_outside_limit_rests_and_book_stays_uncrossed() {
    let mut b = OrderBook::new();
    let mut trades = Vec::new();
    b.process_create(order(1, 1, Side::Sell, "1", "100"), &mut trades);
    b.process_create(order(2, 1, Side::Buy, "1", "99.99"), &mut trades);
    b.process_create(order(3, 1, Side::Buy, "1", "99.5"), &mut trades);
    b.process_create(order(4, 1, Side::Sell, "1", "100.5"), &mut trades);
    assert!(trades.is_empty());
    assert_eq!(
        levels(b.buys()),
        vec![(dec("99.5"), vec![(3, dec("1"))]), (dec("99.99"), vec![(2, dec("1"))])]
    );
    assert_eq!(
        levels(b.sells()),
        vec![(dec("100"), vec![(1, dec("1"))]), (dec("100.5"), vec![(4, dec("1"))])]
    );
}

#[test]
fn remainder_rests_at_limit_after_sweeping() {
    let mut b = OrderBook::new();
    let mut trades = Vec::new();
    b.process_create(order(1, 1, Side::Sell, "1", "100"), &mut trades);
    b.process_create(order(2, 1, Side::Sell, "1", "105"), &mut trades);
    b.process_create(order(3, 2, Side::Buy, "3", "101"), &mut trades);
    assert_eq!(trades_of(&trades), vec![trade(3, 1, "1", "100")]);
    assert_eq!(levels(b.buys()), vec![(dec("101"), vec![(3, dec("2"))])]);
    assert_eq!(levels(b.sells()), vec![(dec("105"), vec![(2, dec("1"))])]);
}

#[test]
fn zero_and_negative_amounts_do_nothing() {
    let mut b = OrderBook::new();
    let mut trades = Vec::new();
    b.process_create(order(1, 1, Side::Sell, "1", "100"), &mut trades);
    b.process_create(order(2, 1, Side::Buy, "0", "100"), &mut trades);
    b.process_create(order(3, 1, Side::Buy, "-1", "100"), &mut trades);
    b.process_create(order(4, 1, Side::Sell, "-1", "1"), &mut trades);
    assert!(trades.is_empty());
    assert!(b.buys().is_empty());
    assert_eq!(levels(b.sells()), vec![(dec("100"), vec![(1, dec("1"))])]);
}

#[test]
fn exact_fill_empties_the_level() {
    let mut b = OrderBook::new();
    let mut trades = Vec::new();
    b.process_create(order(1, 1, Side::Buy, "0.30", "10"), &mut trades);
    b.process_create(order(2, 1, Side::Sell, "0.3", "10"), &mut trades);
    assert_eq!(trades_of(&trades), vec![trade(1, 2, "0.3", "10")]);
    assert!(b.buys().is_empty());
    assert!(b.sells().is_empty());
}

#[test]
fn remove_order_takes_the_order_and_drops_an_empty_level() {
    let mut b = OrderBook::new();
    let mut trades = Vec::new();
    b.process_create(order(1, 1, Side::Buy, "1", "99"), &mut trades);
    b.process_create(order(2, 1, Side::Buy, "1", "99"), &mut trades);
    b.process_create(order(3, 1, Side::Buy, "1", "98"), &mut trades);
    b.remove_order(1, Side::Buy, dec("99.0"));
    assert_eq!(
        levels(b.buys()),
        vec![(dec("98"), vec![(3, dec("1"))]), (dec("99"), vec![(2, dec("1"))])]
    );
    b.remove_order(3, Side::Buy, dec("98"));
    assert_eq!(levels(b.buys()), vec![(dec("99"), vec![(2, dec("1"))])]);
}

#[test]
fn remove_order_looks_only_at_the_given_side_and_price() {
    let mut b = OrderBook::new();
    let mut trades = Vec::new();
    b.process_create(order(1, 1, Side::Buy, "1", "99"), &mut trades);
    b.remove_order(1, Side::Buy, dec("98"));
    b.remove_order(1, Side::Sell, dec("99"));
    b.remove_order(7, Side::Buy, dec("99"));
    assert_eq!(levels(b.buys()), vec![(dec("99"), vec![(1, dec("1"))])]);
}

#[test]
fn cancel_undoes_a_resting_create() {
    let mut b = OrderBook::new();
    let mut trades = Vec::new();
    b.process_create(order(1, 1, Side::Sell, "1", "100"), &mut trades);
    b.process_create(order(2, 1, Side::Buy, "1", "98"), &mut trades);
    let before = (levels(b.buys()), levels(b.sells()));
    b.process_create(order(3, 1, Side::Buy, "2", "98"), &mut trades);
    assert!(trades.is_empty());
    b.remove_order(3, Side::Buy, dec("98"));
    assert_eq!((levels(b.buys()), levels(b.sells())), before);
}

#[test]
fn trades_stay_within_the_taker_limit() {
    let mut b = OrderBook::new();
    let mut trades = Vec::new();
    b.process_create(order(1, 1, Side::Sell, "1", "100"), &mut trades);
    b.process_create(order(2, 1, Side::Sell, "1", "101"), &mut trades);
    b.process_create(order(3, 1, Side::Sell, "1", "102"), &mut trades);
    b.process_create(order(4, 2, Side::Buy, "5", "101"), &mut trades);
    assert_eq!(trades.len(), 2);
    for t in &trades {
        assert!(!t.price.greater_than(&dec("101")));
        assert!(t.amount.greater_than(&Decimal::zero()));
        assert_eq!(t.buy_order_id, 4);
    }
}

#[test]
fn subtraction_rounds_as_rust_decimal_does() {
    let big = "79228162514264337593543950335";
    let mut b = OrderBook::new();
    let mut trades = Vec::new();
    b.process_create(order(1, 1, Side::Sell, big, "1"), &mut trades);
    b.process_create(order(2, 2, Side::Buy, "0.5", "1"), &mut trades);
    let expected = rust_decimal::Decimal::from_str(big).unwrap() - rust_decimal::Decimal::from_str("0.5").unwrap();
    let left = b.sells()[0].orders[0].amount;
    assert_eq!(left.mantissa(), expected.mantissa());
    assert_eq!(left.scale(), expected.scale());
    assert_eq!(trades_of(&trades), vec![trade(2, 1, "0.5", "1")]);
}

#[test]
fn sweeping_keeps_amounts() {
    let mut b = OrderBook::new();
    let mut trades = Vec::new();
    b.process_create(order(1, 1, Side::Sell, "0.75", "100"), &mut trades);
    b.process_create(order(2, 1, Side::Sell, "1.125", "100.5"), &mut trades);
    b.process_create(order(3, 1, Side::Sell, "2", "101"), &mut trades);
    b.process_create(order(4, 2, Side::Buy, "2.5", "101"), &mut trades);
    let mut total = rust_decimal::Decimal::ZERO;
    for t in &trades {
        total += rust_decimal::Decimal::from_i128_with_scale(t.amount.mantissa(), t.amount.scale());
    }
    assert_eq!(total, rust_decimal::Decimal::from_str("2.5").unwrap());
    assert_eq!(levels(b.sells()), vec![(dec("101"), vec![(3, dec("1.375"))])]);
    assert!(b.buys().is_empty());
}

fn all_ids(b: &OrderBook) -> Vec<u64> {
    let mut ids = Vec::new();
    for l in b.buys().iter().chain(b.sells().iter()) {
        for o in l.orders.iter() {
            ids.push(o.order_id);
        }
    }
    ids
}

#[test]
fn removing_twice_is_removing_once() {
    let mut b = OrderBook::new();
    let mut trades = Vec::new();
    b.process_create(order(1, 1, Side::Buy, "1", "99"), &mut trades);
    b.process_create(order(2, 1, Side::Buy, "1", "99"), &mut trades);
    b.process_create(order(3, 1, Side::Sell, "1", "101"), &mut trades);
    b.remove_order(2, Side::Buy, dec("99"));
    let once = (levels(b.buys()), levels(b.sells()));
    b.remove_order(2, Side::Buy, dec("99"));
    assert_eq!((levels(b.buys()), levels(b.sells())), once);
    b.remove_order(3, Side::Sell, dec("101"));
    let once = (levels(b.buys()), levels(b.sells()));
    b.remove_order(3, Side::Sell, dec("101"));
    assert_eq!((levels(b.buys()), levels(b.sells())), once);
    assert!(b.sells().is_empty());
}

#[test]
fn fresh_ids_stay_distinct() {
    let mut b = OrderBook::new();
    let mut trades = Vec::new();
    b.process_create(order(1, 1, Side::Sell, "1", "100"), &mut trades);
    b.process_create(order(2, 1, Side::Sell, "2", "101"), &mut trades);
    b.process_create(order(3, 1, Side::Buy, "1", "98"), &mut trades);
    b.process_create(order(4, 2, Side::Buy, "2", "100.5"), &mut trades);
    b.process_create(order(5, 2, Side::Sell, "0.5", "98"), &mut trades);
    let mut ids = all_ids(&b);
    ids.sort();
    assert_eq!(ids, vec![2, 3, 4]);
}

#[test]
fn match_buy_leaves_asks_above_its_limit() {
    let mut b = OrderBook::new();
    let mut trades = Vec::new();
    b.process_create(order(1, 1, Side::Sell, "1", "100"), &mut trades);
    b.process_create(order(2, 1, Side::Sell, "1", "102"), &mut trades);
    b.process_create(order(3, 1, Side::Sell, "1", "103"), &mut trades);
    b.match_buy(order(4, 2, Side::Buy, "5", "101"), &mut trades);
    assert_eq!(trades_of(&trades), vec![trade(4, 1, "1", "100")]);
    assert_eq!(
        levels(b.sells()),
        vec![(dec("102"), vec![(2, dec("1"))]), (dec("103"), vec![(3, dec("1"))])]
    );
    assert_eq!(levels(b.buys()), vec![(dec("101"), vec![(4, dec("4"))])]);
}

#[test]
fn match_sell_leaves_bids_below_its_limit() {
    let mut b = OrderBook::new();
    let mut trades = Vec::new();
    b.process_create(order(1, 1, Side::Buy, "1", "97"), &mut trades);
    b.process_create(order(2, 1, Side::Buy, "1", "99"), &mut trades);
    b.process_create(order(3, 1, Side::Buy, "2", "100"), &mut trades);
    b.match_sell(order(4, 2, Side::Sell, "1", "99.5"), &mut trades);
    assert_eq!(trades_of(&trades), vec![trade(3, 4, "1", "100")]);
    assert_eq!(
        levels(b.buys()),
        vec![
            (dec("97"), vec![(1, dec("1"))]),
            (dec("99"), vec![(2, dec("1"))]),
            (dec("100"), vec![(3, dec("1"))])
        ]
    );
    assert!(b.sells().is_empty());
}

#[test]
fn trade_prices_are_prices_of_resting_levels() {
    let mut b = OrderBook::new();
    let mut trades = Vec::new();
    b.process_create(order(1, 1, Side::Buy, "1", "97.5"), &mut trades);
    b.process_create(order(2, 1, Side::Buy, "1", "99.25"), &mut trades);
    b.process_create(order(3, 2, Side::Sell, "3", "90"), &mut trades);
    assert_eq!(trades_of(&trades), vec![trade(2, 3, "1", "99.25"), trade(1, 3, "1", "97.5")]);
    assert_eq!(levels(b.sells()), vec![(dec("90"), vec![(3, dec("1"))])]);
}

#[test]
fn rounded_remainder_stays_positive() {
    let big = "79228162514264337593543950335";
    let mut b = OrderBook::new();
    let mut trades = Vec::new();
    b.process_create(order(1, 1, Side::Sell, big, "1"), &mut trades);
    b.process_create(order(2, 2, Side::Buy, "0.4", "1"), &mut trades);
    let expected = rust_decimal::Decimal::from_str(big).unwrap() - rust_decimal::Decimal::from_str("0.4").unwrap();
    let left = b.sells()[0].orders[0].amount;
    assert!(left.greater_than(&Decimal::zero()));
    assert_eq!((left.mantissa(), left.scale()), (expected.mantissa(), expected.scale()));
}

#[test]
fn create_moves_no_resting_order() {
    let mut b = OrderBook::new();
    let mut trades = Vec::new();
    b.process_create(order(1, 1, Side::Sell, "1", "100"), &mut trades);
    b.process_create(order(2, 1, Side::Sell, "1", "100"), &mut trades);
    b.process_create(order(3, 1, Side::Sell, "1", "100"), &mut trades);
    b.process_create(order(4, 1, Side::Sell, "1", "105"), &mut trades);
    b.process_create(order(5, 2, Side::Buy, "1", "99"), &mut trades);
    b.process_create(order(6, 2, Side::Buy, "1", "98"), &mut trades);
    b.process_create(order(7, 3, Side::Buy, "1.5", "100"), &mut trades);
    assert_eq!(
        levels(b.sells()),
        vec![(dec("100"), vec![(2, dec("0.5")), (3, dec("1"))]), (dec("105"), vec![(4, dec("1"))])]
    );
    assert_eq!(
        levels(b.buys()),
        vec![(dec("98"), vec![(6, dec("1"))]), (dec("99"), vec![(5, dec("1"))])]
    );
    b.process_create(order(8, 3, Side::Buy, "2", "99"), &mut trades);
    assert_eq!(levels(b.sells()), vec![(dec("100"), vec![(2, dec("0.5")), (3, dec("1"))]), (dec("105"), vec![(4, dec("1"))])]);
    assert_eq!(
        levels(b.buys()),
        vec![(dec("98"), vec![(6, dec("1"))]), (dec("99"), vec![(5, dec("1")), (8, dec("2"))])]
    );
}
