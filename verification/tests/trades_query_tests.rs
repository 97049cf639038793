use matching_engine::decimal::Decimal;
use matching_engine::trades_query::{default_order, default_sort, query_trades, sort_trades, TradesQuery};
use matching_engine::trading_engine::matching_engine::Trade;
use std::str::FromStr;

fn dec(s: &str) -> Decimal {
    let d = rust_decimal::Decimal::from_str(s).unwrap();
    Decimal::new(d.mantissa(), d.scale()).unwrap()
}

fn t(buy: u64, pair: &str, amount: &str, price: &str) -> Trade {
    Trade { buy_order_id: buy, sell_order_id: 100 + buy, amount: dec(amount), price: dec(price), pair: pair.to_string() }
}

fn sample() -> Vec<Trade> {
    vec![
        t(1, "BTC/USDC", "2", "100"),
        t(2, "ETH/USDC", "5", "10"),
        t(3, "BTC/USDC", "1", "102"),
        t(4, "BTC/USDC", "3", "100.0"),
        t(5, "BTC/USDC", "1.0", "99"),
    ]
}

fn q(pair: Option<&str>, sort: &str, order: &str, skip: usize, limit: usize) -> TradesQuery {
    TradesQuery { pair: pair.map(|p| p.to_string()), sort: sort.to_string(), order: order.to_string(), skip, limit }
}

fn ids(ts: &Vec<Trade>) -> Vec<u64> {
    ts.iter().map(|x| x.buy_order_id).collect()
}

#[test]
fn defaults_are_price_and_asc() {
    assert_eq!(default_sort(), "price");
    assert_eq!(default_order(), "asc");
    let d = TradesQuery::default();
    assert!(d.pair.is_none());
    assert_eq!(d.sort, "");
    assert_eq!(d.order, "");
    assert_eq!((d.skip, d.limit), (0, 0));
}

#[test]
fn by_price_ascending_keeps_ties_in_order() {
    let r = query_trades(sample(), &q(None, "price", "asc", 0, 0));
    assert_eq!(ids(&r), vec![2, 5, 1, 4, 3]);
}

#[test]
fn filter_by_pair() {
    let r = query_trades(sample(), &q(Some("BTC/USDC"), "price", "asc", 0, 0));
    assert_eq!(ids(&r), vec![5, 1, 4, 3]);
    let r = query_trades(sample(), &q(Some("XRP/USDC"), "price", "asc", 0, 0));
    assert!(r.is_empty());
}

#[test]
fn by_amount_descending_in_any_case() {
    let r = query_trades(sample(), &q(Some("BTC/USDC"), "amount", "DeSc", 0, 0));
    assert_eq!(ids(&r), vec![4, 1, 3, 5]);
}

#[test]
fn descending_keeps_ties_in_order() {
    let r = query_trades(sample(), &q(None, "price", "desc", 0, 0));
    assert_eq!(ids(&r), vec![3, 1, 4, 5, 2]);
}

#[test]
fn unknown_keys_mean_price_ascending() {
    let r = query_trades(sample(), &q(None, "Amount", "descending", 0, 0));
    assert_eq!(ids(&r), vec![2, 5, 1, 4, 3]);
}

#[test]
fn skip_and_limit() {
    let r = query_trades(sample(), &q(None, "price", "asc", 1, 2));
    assert_eq!(ids(&r), vec![5, 1]);
    let r = query_trades(sample(), &q(None, "price", "asc", 3, 0));
    assert_eq!(ids(&r), vec![4, 3]);
    let r = query_trades(sample(), &q(None, "price", "asc", 4, 10));
    assert_eq!(ids(&r), vec![3]);
    let r = query_trades(sample(), &q(None, "price", "asc", 9, 1));
    assert!(r.is_empty());
    let r = query_trades(sample(), &q(None, "price", "asc", usize::MAX, usize::MAX));
    assert!(r.is_empty());
    let r = query_trades(sample(), &q(None, "price", "asc", 0, usize::MAX));
    assert_eq!(r.len(), 5);
}

#[test]
fn sort_trades_is_stable() {
    let r = sort_trades(sample(), true, false);
    assert_eq!(ids(&r), vec![3, 5, 1, 4, 2]);
    let r = sort_trades(Vec::new(), false, true);
    assert!(r.is_empty());
}

#[test]
fn pages_are_slices_of_the_full_result() {
    for pair in [None, Some("BTC/USDC")] {
        for (sort, order) in [("price", "asc"), ("amount", "desc")] {
            let full = ids(&query_trades(sample(), &q(pair, sort, order, 0, 0)));
            let n = full.len();
            for skip in 0..7usize {
                for limit in 1..7usize {
                    let page = ids(&query_trades(sample(), &q(pair, sort, order, skip, limit)));
                    let lo = skip.min(n);
                    let hi = (skip + limit).min(n);
                    assert_eq!(page, full[lo..hi].to_vec());
                }
            }
        }
    }
}
