//! The order book of one pair: price levels of resting orders on each side,
//! matched by price-time priority.
use vstd::prelude::*;
use std::collections::VecDeque;
use crate::decimal::{
    Decimal, units, min_of, decimal_difference, subtract,
    lemma_units_sign, fits_at, lemma_difference_fits, lemma_self_difference_fits,
};
use crate::orders::{Order, Side};
use crate::trading_engine::matching_engine::Trade;

verus! {

// ---------------------------------------------------------------------------
// The model
// ---------------------------------------------------------------------------

/// A price level as the contracts see it: its price and its queue, oldest first.
pub struct LevelView {
    pub price: Decimal,
    pub orders: Seq<Order>,
}

/// Both sides of a book, each as its price levels in ascending price order.
pub struct BookView {
    pub buys: Seq<LevelView>,
    pub sells: Seq<LevelView>,
}

/// The price of a level, in units of 10^-28.
pub open spec fn price_of(l: LevelView) -> int {
    units(l.price@)
}

/// An order may rest at a level of the given price and side: its limit is that
/// price, its amount is positive and it belongs to that side.
pub open spec fn rests_at(o: Order, price: Decimal, side: Side) -> bool {
    &&& units(o.limit_price@) == units(price@)
    &&& units(o.amount@) > 0
    &&& o.side == side
}

pub open spec fn level_wf(l: LevelView, side: Side) -> bool {
    &&& l.orders.len() > 0
    &&& forall|k: int| 0 <= k < l.orders.len() ==> #[trigger] rests_at(l.orders[k], l.price, side)
}

/// Levels in strictly ascending price order, none empty.
pub open spec fn side_wf(levels: Seq<LevelView>, side: Side) -> bool {
    &&& forall|i: int, j: int|
        0 <= i < j < levels.len() ==> price_of(#[trigger] levels[i]) < price_of(#[trigger] levels[j])
    &&& forall|i: int| 0 <= i < levels.len() ==> level_wf(#[trigger] levels[i], side)
}

/// Every bid is below every ask.
pub open spec fn uncrossed(b: BookView) -> bool {
    forall|i: int, j: int|
        0 <= i < b.buys.len() && 0 <= j < b.sells.len() ==> price_of(#[trigger] b.buys[i])
            < price_of(#[trigger] b.sells[j])
}

/// What every book keeps: both sides ordered, no empty level, every resting
/// order positive and at its level's price, and the book not crossed.
pub open spec fn book_wf(b: BookView) -> bool {
    &&& side_wf(b.buys, Side::Buy)
    &&& side_wf(b.sells, Side::Sell)
    &&& uncrossed(b)
}

/// The order with another amount.
pub open spec fn with_amount(o: Order, amount: Decimal) -> Order {
    Order { amount: amount, ..o }
}

/// `a - b` as `rust_decimal` computes it.
pub open spec fn difference(a: Decimal, b: Decimal) -> Decimal {
    Decimal::from_view(decimal_difference(a@, b@))
}

/// The trade of `qty` between a taker and a maker, at the maker's price.
pub open spec fn trade_of(taker: Order, maker: Order, qty: Decimal, taker_buys: bool) -> Trade {
    Trade {
        buy_order_id: if taker_buys { taker.order_id } else { maker.order_id },
        sell_order_id: if taker_buys { maker.order_id } else { taker.order_id },
        amount: qty,
        price: maker.limit_price,
        pair: taker.pair,
    }
}

/// Matching a taker against one queue, oldest maker first. Each step trades
/// the smaller of the two amounts and takes it off both; a maker that reaches
/// zero leaves the queue. Returns the taker, the queue and the trades.
pub open spec fn fill(taker: Order, queue: Seq<Order>, taker_buys: bool) -> (Order, Seq<Order>, Seq<Trade>)
    decreases queue.len(),
{
    if queue.len() == 0 || units(taker.amount@) <= 0 {
        (taker, queue, Seq::empty())
    } else {
        let maker = queue[0];
        let qty = min_of(taker.amount, maker.amount);
        let taker2 = with_amount(taker, difference(taker.amount, qty));
        let maker2 = with_amount(maker, difference(maker.amount, qty));
        let trade = trade_of(taker, maker, qty, taker_buys);
        if maker2.amount@.0 == 0 {
            let r = fill(taker2, queue.drop_first(), taker_buys);
            (r.0, r.1, seq![trade] + r.2)
        } else {
            (taker2, queue.update(0, maker2), seq![trade])
        }
    }
}


/// A buy taker against the asks, lowest price first: each level whose price is
/// within the taker's limit is filled, while the taker has an amount left.
/// Emptied levels leave the book. Returns the taker, the asks and the trades.
pub open spec fn sweep_asks(taker: Order, asks: Seq<LevelView>) -> (Order, Seq<LevelView>, Seq<Trade>)
    decreases asks.len(),
{
    if asks.len() == 0 || taker.amount@.0 == 0 || price_of(asks[0]) > units(taker.limit_price@) {
        (taker, asks, Seq::empty())
    } else {
        let f = fill(taker, asks[0].orders, true);
        let r = sweep_asks(f.0, asks.drop_first());
        let kept = if f.1.len() == 0 {
            r.1
        } else {
            seq![LevelView { price: asks[0].price, orders: f.1 }] + r.1
        };
        (r.0, kept, f.2 + r.2)
    }
}

/// A sell taker against the bids, highest price first, in the same way.
pub open spec fn sweep_bids(taker: Order, bids: Seq<LevelView>) -> (Order, Seq<LevelView>, Seq<Trade>)
    decreases bids.len(),
{
    if bids.len() == 0 || taker.amount@.0 == 0 || price_of(bids.last()) < units(taker.limit_price@) {
        (taker, bids, Seq::empty())
    } else {
        let f = fill(taker, bids.last().orders, false);
        let r = sweep_bids(f.0, bids.drop_last());
        let kept = if f.1.len() == 0 {
            r.1
        } else {
            r.1.push(LevelView { price: bids.last().price, orders: f.1 })
        };
        (r.0, kept, f.2 + r.2)
    }
}

/// `k` is the position of the first level whose price is not below `v`.
pub open spec fn is_lower_bound(levels: Seq<LevelView>, v: int, k: int) -> bool {
    &&& 0 <= k <= levels.len()
    &&& forall|i: int| 0 <= i < k ==> price_of(#[trigger] levels[i]) < v
    &&& k < levels.len() ==> price_of(levels[k]) >= v
}

/// The position of the first level whose price is not below `v`.
pub open spec fn lower_bound(levels: Seq<LevelView>, v: int) -> int {
    choose|k: int| is_lower_bound(levels, v, k)
}

pub proof fn lemma_lower_bound(levels: Seq<LevelView>, v: int, k: int)
    requires
        is_lower_bound(levels, v, k),
    ensures
        lower_bound(levels, v) == k,
{
    let c = lower_bound(levels, v);
    assert(is_lower_bound(levels, v, c));
    if c < k {
        assert(price_of(levels[c]) < v);
    }
    if k < c {
        assert(price_of(levels[k]) < v);
    }
}

proof fn lemma_lower_bound_from(levels: Seq<LevelView>, v: int, i: int)
    requires
        0 <= i <= levels.len(),
        forall|j: int| 0 <= j < i ==> price_of(#[trigger] levels[j]) < v,
    ensures
        is_lower_bound(levels, v, lower_bound(levels, v)),
    decreases levels.len() - i,
{
    if i == levels.len() || price_of(levels[i]) >= v {
        lemma_lower_bound(levels, v, i);
    } else {
        lemma_lower_bound_from(levels, v, i + 1);
    }
}

/// Every side has a lower bound for every price.
pub proof fn lemma_lower_bound_exists(levels: Seq<LevelView>, v: int)
    ensures
        is_lower_bound(levels, v, lower_bound(levels, v)),
{
    lemma_lower_bound_from(levels, v, 0);
}

/// The levels of one side after an order comes to rest there: appended to the
/// queue of the level at its price, or alone in a new level at that price.
pub open spec fn rest(levels: Seq<LevelView>, o: Order) -> Seq<LevelView> {
    let v = units(o.limit_price@);
    let k = lower_bound(levels, v);
    if k < levels.len() && price_of(levels[k]) == v {
        levels.update(k, LevelView { price: levels[k].price, orders: levels[k].orders.push(o) })
    } else {
        levels.insert(k, LevelView { price: o.limit_price, orders: seq![o] })
    }
}

/// What `OrderBook::process_create` makes of a book and an order: the book
/// after matching (and resting what is left of the order), and the trades.
pub open spec fn create_result(book: BookView, order: Order) -> (BookView, Seq<Trade>) {
    if order.side == Side::Buy {
        let r = sweep_asks(order, book.sells);
        let buys = if units(r.0.amount@) > 0 { rest(book.buys, r.0) } else { book.buys };
        (BookView { buys: buys, sells: r.1 }, r.2)
    } else {
        let r = sweep_bids(order, book.buys);
        let sells = if units(r.0.amount@) > 0 { rest(book.sells, r.0) } else { book.sells };
        (BookView { buys: r.1, sells: sells }, r.2)
    }
}

/// The side of the book that an order trades against.
pub open spec fn opposite_side(book: BookView, order: Order) -> Seq<LevelView> {
    if order.side == Side::Buy { book.sells } else { book.buys }
}

/// Matching `order` against the other side: what is left of the order, the
/// other side, and the trades.
pub open spec fn match_outcome(book: BookView, order: Order) -> (Order, Seq<LevelView>, Seq<Trade>) {
    if order.side == Side::Buy {
        sweep_asks(order, book.sells)
    } else {
        sweep_bids(order, book.buys)
    }
}

/// The order's amount and every amount resting on the other side fit at
/// scale `s`: then no subtraction of the match rounds.
pub open spec fn amounts_fit_at(book: BookView, order: Order, s: nat) -> bool {
    fits_at(order.amount, s) && side_fits_at(opposite_side(book, order), s)
}

/// Matching neither makes nor loses an amount: what the order had is what it
/// traded plus what is left of it, and the other side holds what it held
/// less what was traded.
pub open spec fn amounts_conserved(book: BookView, order: Order) -> bool {
    let r = match_outcome(book, order);
    &&& units(order.amount@) == units(r.0.amount@) + traded(r.2)
    &&& side_total(opposite_side(book, order)) == side_total(r.1) + traded(r.2)
}

/// `rust_decimal` computes `a - b` exactly.
pub open spec fn exact_difference(a: Decimal, b: Decimal) -> bool {
    units(decimal_difference(a@, b@)) == units(a@) - units(b@)
}

/// Every subtraction that matching `taker` against `queue` makes is exact.
pub open spec fn fill_exact(taker: Order, queue: Seq<Order>) -> bool
    decreases queue.len(),
{
    if queue.len() == 0 || units(taker.amount@) <= 0 {
        true
    } else {
        let maker = queue[0];
        let qty = min_of(taker.amount, maker.amount);
        let taker2 = with_amount(taker, difference(taker.amount, qty));
        let maker2 = with_amount(maker, difference(maker.amount, qty));
        &&& exact_difference(taker.amount, qty)
        &&& exact_difference(maker.amount, qty)
        &&& (maker2.amount@.0 == 0 ==> fill_exact(taker2, queue.drop_first()))
    }
}

/// Every subtraction that a buy taker's sweep of the asks makes is exact.
pub open spec fn sweep_asks_exact(taker: Order, asks: Seq<LevelView>) -> bool
    decreases asks.len(),
{
    if asks.len() == 0 || taker.amount@.0 == 0 || price_of(asks[0]) > units(taker.limit_price@) {
        true
    } else {
        &&& fill_exact(taker, asks[0].orders)
        &&& sweep_asks_exact(fill(taker, asks[0].orders, true).0, asks.drop_first())
    }
}

/// Every subtraction that a sell taker's sweep of the bids makes is exact.
pub open spec fn sweep_bids_exact(taker: Order, bids: Seq<LevelView>) -> bool
    decreases bids.len(),
{
    if bids.len() == 0 || taker.amount@.0 == 0 || price_of(bids.last()) < units(taker.limit_price@) {
        true
    } else {
        &&& fill_exact(taker, bids.last().orders)
        &&& sweep_bids_exact(fill(taker, bids.last().orders, false).0, bids.drop_last())
    }
}

/// Every subtraction that matching `order` against the book makes is exact.
pub open spec fn match_exact(book: BookView, order: Order) -> bool {
    if order.side == Side::Buy {
        sweep_asks_exact(order, book.sells)
    } else {
        sweep_bids_exact(order, book.buys)
    }
}

/// `p` is the position of the first order in `q` with id `id`.
pub open spec fn is_first_with_id(q: Seq<Order>, id: u64, p: int) -> bool {
    &&& 0 <= p < q.len()
    &&& q[p].order_id == id
    &&& forall|j: int| 0 <= j < p ==> (#[trigger] q[j]).order_id != id
}

/// The queue without the first order with id `id`, if there is one.
pub open spec fn without_order(q: Seq<Order>, id: u64) -> Seq<Order> {
    if exists|p: int| is_first_with_id(q, id, p) {
        q.remove(choose|p: int| is_first_with_id(q, id, p))
    } else {
        q
    }
}

pub proof fn lemma_first_with_id(q: Seq<Order>, id: u64, p: int)
    requires
        is_first_with_id(q, id, p),
    ensures
        without_order(q, id) == q.remove(p),
{
    let c = choose|c: int| is_first_with_id(q, id, c);
    assert(is_first_with_id(q, id, c));
    if c < p {
        assert(q[c].order_id != id);
    }
    if p < c {
        assert(q[p].order_id != id);
    }
}

/// The levels of one side after cancelling order `id` at `price`: only the
/// level at that price is searched; a level left empty is dropped.
pub open spec fn remove_from_side(levels: Seq<LevelView>, id: u64, price: Decimal) -> Seq<LevelView> {
    let v = units(price@);
    let k = lower_bound(levels, v);
    if k < levels.len() && price_of(levels[k]) == v {
        let q = without_order(levels[k].orders, id);
        if q.len() == 0 {
            levels.remove(k)
        } else {
            levels.update(k, LevelView { price: levels[k].price, orders: q })
        }
    } else {
        levels
    }
}

/// What `OrderBook::remove_order` makes of a book.
pub open spec fn remove_result(book: BookView, id: u64, side: Side, price: Decimal) -> BookView {
    if side == Side::Buy {
        BookView { buys: remove_from_side(book.buys, id, price), sells: book.sells }
    } else {
        BookView { buys: book.buys, sells: remove_from_side(book.sells, id, price) }
    }
}

/// The side whose orders a taker meets.
pub open spec fn maker_side(taker_buys: bool) -> Side {
    if taker_buys { Side::Sell } else { Side::Buy }
}

/// The total amount of a sequence of trades.
pub open spec fn traded(ts: Seq<Trade>) -> int
    decreases ts.len(),
{
    if ts.len() == 0 {
        0
    } else {
        traded(ts.drop_last()) + units(ts.last().amount@)
    }
}

/// The total amount resting in a queue.
pub open spec fn queue_total(q: Seq<Order>) -> int
    decreases q.len(),
{
    if q.len() == 0 {
        0
    } else {
        units(q[0].amount@) + queue_total(q.drop_first())
    }
}

/// The total amount resting on a side.
pub open spec fn side_total(levels: Seq<LevelView>) -> int
    decreases levels.len(),
{
    if levels.len() == 0 {
        0
    } else {
        queue_total(levels[0].orders) + side_total(levels.drop_first())
    }
}

/// Every amount in the queue fits at scale `s`.
pub open spec fn queue_fits_at(q: Seq<Order>, s: nat) -> bool {
    forall|k: int| 0 <= k < q.len() ==> fits_at(#[trigger] q[k].amount, s)
}

/// Every amount resting on the side fits at scale `s`.
pub open spec fn side_fits_at(levels: Seq<LevelView>, s: nat) -> bool {
    forall|i: int| 0 <= i < levels.len() ==> queue_fits_at(#[trigger] levels[i].orders, s)
}

pub proof fn lemma_traded_add(a: Seq<Trade>, b: Seq<Trade>)
    ensures
        traded(a + b) == traded(a) + traded(b),
    decreases b.len(),
{
    if b.len() > 0 {
        assert((a + b).drop_last() =~= a + b.drop_last());
        lemma_traded_add(a, b.drop_last());
    } else {
        assert(a + b =~= a);
    }
}

pub proof fn lemma_side_total_add(a: Seq<LevelView>, b: Seq<LevelView>)
    ensures
        side_total(a + b) == side_total(a) + side_total(b),
    decreases a.len(),
{
    if a.len() > 0 {
        assert((a + b).drop_first() =~= a.drop_first() + b);
        lemma_side_total_add(a.drop_first(), b);
    } else {
        assert(a + b =~= b);
    }
}

// ---------------------------------------------------------------------------
// Matching
// ---------------------------------------------------------------------------

/// Matches `taker` against `queue`, oldest maker first, appending the trades.
fn fill_queue(
    taker: &mut Order,
    queue: &mut VecDeque<Order>,
    taker_buys: bool,
    price: &Decimal,
    trades: &mut Vec<Trade>,
)
    requires
        forall|k: int| 0 <= k < old(queue)@.len() ==> #[trigger] rests_at(old(queue)@[k], *price, maker_side(taker_buys)),
    ensures
        fill(*old(taker), old(queue)@, taker_buys).0 == *final(taker),
        fill(*old(taker), old(queue)@, taker_buys).1 == final(queue)@,
        final(trades)@ == old(trades)@ + fill(*old(taker), old(queue)@, taker_buys).2,
        forall|k: int| 0 <= k < final(queue)@.len() ==> #[trigger] rests_at(final(queue)@[k], *price, maker_side(taker_buys)),
        *final(taker) == with_amount(*old(taker), final(taker).amount),
        units(old(taker).amount@) > 0 ==> 0 <= units(final(taker).amount@) <= units(old(taker).amount@),
        units(old(taker).amount@) > 0 && final(queue)@.len() > 0 ==> units(final(taker).amount@) == 0,
        forall|s: nat|
            #![trigger fits_at(old(taker).amount, s)]
            fits_at(old(taker).amount, s) && queue_fits_at(old(queue)@, s) ==> {
                &&& fits_at(final(taker).amount, s)
                &&& queue_fits_at(final(queue)@, s)
                &&& units(old(taker).amount@) == units(final(taker).amount@) + traded(
                    fill(*old(taker), old(queue)@, taker_buys).2,
                )
                &&& queue_total(old(queue)@) == queue_total(final(queue)@) + traded(
                    fill(*old(taker), old(queue)@, taker_buys).2,
                )
            },
        fill_exact(*old(taker), old(queue)@) ==> {
            &&& units(old(taker).amount@) == units(final(taker).amount@) + traded(
                fill(*old(taker), old(queue)@, taker_buys).2,
            )
            &&& queue_total(old(queue)@) == queue_total(final(queue)@) + traded(
                fill(*old(taker), old(queue)@, taker_buys).2,
            )
        },
{
    let ghost t0 = *taker;
    let ghost q0 = queue@;
    let ghost tr0 = trades@;
    let ghost side = maker_side(taker_buys);
    let zero = Decimal::zero();
    proof {
        lemma_units_sign(zero@);
    }
    while taker.amount.greater_than(&zero) && queue.len() > 0
        invariant
            fill(t0, q0, taker_buys).0 == fill(*taker, queue@, taker_buys).0,
            fill(t0, q0, taker_buys).1 == fill(*taker, queue@, taker_buys).1,
            trades@.len() >= tr0.len(),
            trades@.subrange(0, tr0.len() as int) == tr0,
            fill(t0, q0, taker_buys).2 == trades@.subrange(tr0.len() as int, trades@.len() as int)
                + fill(*taker, queue@, taker_buys).2,
            forall|k: int| 0 <= k < queue@.len() ==> #[trigger] rests_at(queue@[k], *price, side),
            side == maker_side(taker_buys),
            *taker == with_amount(t0, taker.amount),
            units(zero@) == 0,
            units(t0.amount@) > 0 ==> 0 <= units(taker.amount@) <= units(t0.amount@),
            units(t0.amount@) <= 0 ==> *taker == t0 && queue@ == q0 && trades@ == tr0,
            forall|s: nat|
                #![trigger fits_at(t0.amount, s)]
                fits_at(t0.amount, s) && queue_fits_at(q0, s) ==> {
                    &&& fits_at(taker.amount, s)
                    &&& queue_fits_at(queue@, s)
                    &&& units(t0.amount@) == units(taker.amount@) + traded(
                        trades@.subrange(tr0.len() as int, trades@.len() as int),
                    )
                    &&& queue_total(q0) == queue_total(queue@) + traded(
                        trades@.subrange(tr0.len() as int, trades@.len() as int),
                    )
                },
            fill_exact(t0, q0) ==> {
                &&& fill_exact(*taker, queue@)
                &&& units(t0.amount@) == units(taker.amount@) + traded(
                    trades@.subrange(tr0.len() as int, trades@.len() as int),
                )
                &&& queue_total(q0) == queue_total(queue@) + traded(
                    trades@.subrange(tr0.len() as int, trades@.len() as int),
                )
            },
        decreases queue@.len() + (if units(taker.amount@) > 0 { 1int } else { 0int }),
    {
        let ghost taker_before = *taker;
        let ghost queue_before = queue@;
        let ghost trades_before = trades@;
        let maker = queue.pop_front().unwrap();
        assert(rests_at(queue_before[0], *price, side));
        let qty = taker.amount.min(maker.amount);
        trades.push(Trade {
            buy_order_id: if taker_buys { taker.order_id } else { maker.order_id },
            sell_order_id: if taker_buys { maker.order_id } else { taker.order_id },
            amount: qty,
            price: maker.limit_price,
            pair: taker.pair.clone(),
        });
        let taker_left = subtract(&taker.amount, &qty);
        let maker_left = subtract(&maker.amount, &qty);
        proof {
            Decimal::lemma_view_determines(taker_left, decimal_difference(taker_before.amount@, qty@));
            Decimal::lemma_view_determines(maker_left, decimal_difference(maker.amount@, qty@));
            lemma_units_sign(maker_left@);
            lemma_units_sign(taker_left@);
            lemma_self_difference_fits(maker.amount);
            lemma_self_difference_fits(taker_before.amount);
        }
        taker.amount = taker_left;
        let maker2 = Order {
            type_op: maker.type_op,
            account_id: maker.account_id,
            amount: maker_left,
            order_id: maker.order_id,
            pair: maker.pair,
            limit_price: maker.limit_price,
            side: maker.side,
        };
        let ghost trade = trade_of(taker_before, queue_before[0], qty, taker_buys);
        assert(trades@ == trades_before.push(trade));
        if !maker2.amount.is_zero() {
            assert(units(taker.amount@) == 0);
            queue.push_front(maker2);
            assert(queue@ =~= queue_before.update(0, maker2));
        } else {
            assert(queue@ =~= queue_before.drop_first());
        }
        assert(trades@.subrange(0, tr0.len() as int) =~= tr0);
        assert(trades@.subrange(tr0.len() as int, trades@.len() as int) =~= trades_before.subrange(
            tr0.len() as int,
            trades_before.len() as int,
        ).push(trade));
        assert(fill(taker_before, queue_before, taker_buys).2 =~= seq![trade] + fill(*taker, queue@, taker_buys).2);
        proof {
            let done0 = trades_before.subrange(tr0.len() as int, trades_before.len() as int);
            let done1 = trades@.subrange(tr0.len() as int, trades@.len() as int);
            assert(done1.drop_last() =~= done0);
            assert(traded(done1) == traded(done0) + units(qty@));
            assert(queue_total(queue_before) == units(queue_before[0].amount@) + queue_total(queue_before.drop_first()));
            if maker2.amount@.0 != 0 {
                assert(queue@.drop_first() =~= queue_before.drop_first());
            }
            if fill_exact(t0, q0) {
                assert(fill_exact(taker_before, queue_before));
                assert(exact_difference(taker_before.amount, qty));
                assert(exact_difference(maker.amount, qty));
                if maker2.amount@.0 == 0 {
                    assert(fill_exact(*taker, queue@));
                } else {
                    assert(units(taker.amount@) == 0);
                    assert(fill_exact(*taker, queue@));
                }
            }
            assert forall|s: nat|
                #![trigger fits_at(t0.amount, s)]
                fits_at(t0.amount, s) && queue_fits_at(q0, s) implies {
                    &&& fits_at(taker.amount, s)
                    &&& queue_fits_at(queue@, s)
                    &&& units(t0.amount@) == units(taker.amount@) + traded(done1)
                    &&& queue_total(q0) == queue_total(queue@) + traded(done1)
                } by {
                assert(fits_at(taker_before.amount, s) && queue_fits_at(queue_before, s));
                assert(fits_at(queue_before[0].amount, s));
                lemma_difference_fits(taker_before.amount, qty, s);
                lemma_difference_fits(maker.amount, qty, s);
                assert forall|k: int| 0 <= k < queue@.len() implies fits_at(#[trigger] queue@[k].amount, s) by {
                    if maker2.amount@.0 != 0 && k == 0 {
                    } else if maker2.amount@.0 != 0 {
                        assert(queue@[k] == queue_before[k]);
                    } else {
                        assert(queue@[k] == queue_before[k + 1]);
                    }
                }
            }
        }
    }
}


// ---------------------------------------------------------------------------
// The book
// ---------------------------------------------------------------------------

/// A price level: its price and the orders resting there, oldest first.
#[derive(Debug)]
pub struct PriceLevel {
    pub price: Decimal,
    pub orders: VecDeque<Order>,
}

impl View for PriceLevel {
    type V = LevelView;

    open spec fn view(&self) -> LevelView {
        LevelView { price: self.price, orders: self.orders@ }
    }
}

pub open spec fn levels_view(levels: Seq<PriceLevel>) -> Seq<LevelView> {
    levels.map_values(|l: PriceLevel| l@)
}

/// The position of the first level whose price is not below `price`.
fn find_level(levels: &Vec<PriceLevel>, price: &Decimal) -> (k: usize)
    ensures
        is_lower_bound(levels_view(levels@), units(price@), k as int),
        k == lower_bound(levels_view(levels@), units(price@)),
{
    let ghost v = levels_view(levels@);
    let mut i: usize = 0;
    while i < levels.len() && levels[i].price.less_than(price)
        invariant
            0 <= i <= levels@.len(),
            v == levels_view(levels@),
            forall|j: int| 0 <= j < i ==> price_of(#[trigger] v[j]) < units(price@),
        decreases levels@.len() - i,
    {
        i = i + 1;
    }
    proof {
        lemma_lower_bound(v, units(price@), i as int);
    }
    i
}

/// Every price of `rest(levels, o)` is below `hi` when those of `levels` and
/// the order's limit are.
proof fn lemma_rest_below(levels: Seq<LevelView>, o: Order, hi: int)
    requires
        forall|j: int| 0 <= j < levels.len() ==> price_of(#[trigger] levels[j]) < hi,
        units(o.limit_price@) < hi,
    ensures
        forall|k: int| 0 <= k < rest(levels, o).len() ==> price_of(#[trigger] rest(levels, o)[k]) < hi,
{
    let r = rest(levels, o);
    let v = units(o.limit_price@);
    let k = lower_bound(levels, v);
    lemma_lower_bound_exists(levels, v);
    assert forall|i: int| 0 <= i < r.len() implies price_of(#[trigger] r[i]) < hi by {
        if k < levels.len() && price_of(levels[k]) == v {
            assert(price_of(r[i]) == price_of(levels[i]));
        } else if i < k {
            assert(r[i] == levels[i]);
        } else if i > k {
            assert(r[i] == levels[i - 1]);
        }
    }
}

/// Every price of `rest(levels, o)` is above `lo` when those of `levels` and
/// the order's limit are.
proof fn lemma_rest_above(levels: Seq<LevelView>, o: Order, lo: int)
    requires
        forall|j: int| 0 <= j < levels.len() ==> price_of(#[trigger] levels[j]) > lo,
        units(o.limit_price@) > lo,
    ensures
        forall|k: int| 0 <= k < rest(levels, o).len() ==> price_of(#[trigger] rest(levels, o)[k]) > lo,
{
    let r = rest(levels, o);
    let v = units(o.limit_price@);
    let k = lower_bound(levels, v);
    lemma_lower_bound_exists(levels, v);
    assert forall|i: int| 0 <= i < r.len() implies price_of(#[trigger] r[i]) > lo by {
        if k < levels.len() && price_of(levels[k]) == v {
            assert(price_of(r[i]) == price_of(levels[i]));
        } else if i < k {
            assert(r[i] == levels[i]);
        } else if i > k {
            assert(r[i] == levels[i - 1]);
        }
    }
}

/// Puts `order` at the back of the queue at its price, opening that level if
/// there is none.
fn rest_order(levels: &mut Vec<PriceLevel>, order: Order)
    requires
        side_wf(levels_view(old(levels)@), order.side),
        units(order.amount@) > 0,
    ensures
        levels_view(final(levels)@) == rest(levels_view(old(levels)@), order),
        side_wf(levels_view(final(levels)@), order.side),
{
    let ghost v0 = levels_view(levels@);
    let ghost side = order.side;
    let k = find_level(levels, &order.limit_price);
    if k < levels.len() && levels[k].price == order.limit_price {
        let mut level = levels.remove(k);
        assert(level@ == v0[k as int]);
        level.orders.push_back(order);
        levels.insert(k, level);
        let ghost nl = LevelView { price: v0[k as int].price, orders: v0[k as int].orders.push(order) };
        assert(levels_view(levels@) =~= v0.update(k as int, nl));
        assert(level_wf(nl, side)) by {
            assert forall|q: int| 0 <= q < nl.orders.len() implies #[trigger] rests_at(nl.orders[q], nl.price, side) by {
                if q < v0[k as int].orders.len() {
                    assert(rests_at(v0[k as int].orders[q], v0[k as int].price, side));
                }
            }
        }
    } else {
        let price = order.limit_price;
        let mut orders = VecDeque::new();
        orders.push_back(order);
        levels.insert(k, PriceLevel { price, orders });
        let ghost nl = LevelView { price: price, orders: seq![order] };
        assert(levels_view(levels@) =~= v0.insert(k as int, nl));
        let ghost v1 = levels_view(levels@);
        assert(k < v0.len() ==> price_of(v0[k as int]) > units(price@));
        assert forall|i: int, j: int| 0 <= i < j < v1.len() implies price_of(#[trigger] v1[i]) < price_of(#[trigger] v1[j]) by {
            if j < k {
            } else if j == k {
            } else if i < k {
                assert(price_of(v0[k as int]) <= price_of(v0[j - 1]));
            } else if i == k {
                assert(price_of(v0[k as int]) <= price_of(v0[j - 1]));
            } else {
                assert(v1[i] == v0[i - 1] && v1[j] == v0[j - 1]);
            }
        }
        assert(level_wf(nl, side));
        assert forall|i: int| 0 <= i < v1.len() implies level_wf(#[trigger] v1[i], side) by {
            if i < k {
                assert(v1[i] == v0[i]);
            } else if i > k {
                assert(v1[i] == v0[i - 1]);
            }
        }
    }
}


/// The book formed by two vectors of levels.
pub open spec fn book_of(buys: Seq<PriceLevel>, sells: Seq<PriceLevel>) -> BookView {
    BookView { buys: levels_view(buys), sells: levels_view(sells) }
}

/// Some level of `levels` has price `p`.
pub open spec fn price_among(levels: Seq<LevelView>, p: int) -> bool {
    exists|m: int| 0 <= m < levels.len() && price_of(#[trigger] levels[m]) == p
}

/// Cancels order `order_id` in the level at `price`, dropping the level if it
/// is left empty.
fn remove_from_levels(levels: &mut Vec<PriceLevel>, order_id: u64, price: &Decimal, side: Ghost<Side>)
    requires
        side_wf(levels_view(old(levels)@), side@),
    ensures
        levels_view(final(levels)@) == remove_from_side(levels_view(old(levels)@), order_id, *price),
        side_wf(levels_view(final(levels)@), side@),
        forall|k: int| 0 <= k < final(levels)@.len() ==> #[trigger] price_among(
            levels_view(old(levels)@),
            price_of(levels_view(final(levels)@)[k]),
        ),
{
    let ghost v0 = levels_view(levels@);
    let k = find_level(levels, price);
    if k < levels.len() && levels[k].price == *price {
        let mut level = levels.remove(k);
        assert(level@ == v0[k as int]);
        let ghost q0 = level.orders@;
        let mut p: usize = 0;
        while p < level.orders.len() && level.orders[p].order_id != order_id
            invariant
                0 <= p <= level.orders@.len(),
                level.orders@ == q0,
                forall|j: int| 0 <= j < p ==> (#[trigger] q0[j]).order_id != order_id,
            decreases level.orders@.len() - p,
        {
            p = p + 1;
        }
        if p < level.orders.len() {
            proof {
                lemma_first_with_id(q0, order_id, p as int);
            }
            level.orders.remove(p);
        } else {
            assert(!exists|c: int| is_first_with_id(q0, order_id, c));
        }
        let ghost q1 = level.orders@;
        assert(q1 == without_order(q0, order_id));
        assert forall|i: int| 0 <= i < q1.len() implies #[trigger] rests_at(q1[i], level.price, side@) by {
            if p < q0.len() && i >= p {
                assert(q1[i] == q0[i + 1]);
                assert(rests_at(q0[i + 1], v0[k as int].price, side@));
            } else {
                assert(q1[i] == q0[i]);
                assert(rests_at(q0[i], v0[k as int].price, side@));
            }
        }
        if level.orders.len() > 0 {
            let ghost nl = level@;
            levels.insert(k, level);
            assert(levels_view(levels@) =~= v0.update(k as int, nl));
            assert forall|i: int| 0 <= i < levels@.len() implies #[trigger] price_among(
                v0,
                price_of(levels_view(levels@)[i]),
            ) by {
                assert(price_of(levels_view(levels@)[i]) == price_of(v0[i]));
            }
        } else {
            assert(levels_view(levels@) =~= v0.remove(k as int));
            assert forall|i: int| 0 <= i < levels@.len() implies #[trigger] price_among(
                v0,
                price_of(levels_view(levels@)[i]),
            ) by {
                if i < k {
                    assert(levels_view(levels@)[i] == v0[i]);
                } else {
                    assert(levels_view(levels@)[i] == v0[i + 1]);
                }
            }
        }
    } else {
        assert forall|i: int| 0 <= i < levels@.len() implies #[trigger] price_among(
            v0,
            price_of(levels_view(levels@)[i]),
        ) by {
            assert(levels_view(levels@)[i] == v0[i]);
        }
    }
}

/// The order book of one pair. Bids and asks are kept as price levels in
/// ascending price order, each a queue of resting orders, oldest first.
#[derive(Debug)]
pub struct OrderBook {
    buys: Vec<PriceLevel>,
    sells: Vec<PriceLevel>,
}

impl View for OrderBook {
    type V = BookView;

    closed spec fn view(&self) -> BookView {
        book_of(self.buys@, self.sells@)
    }
}

impl OrderBook {
    #[verifier::type_invariant]
    spec fn well_formed(self) -> bool {
        book_wf(self@)
    }

    /// An empty book.
    pub fn new() -> (r: OrderBook)
        ensures
            r@.buys == Seq::<LevelView>::empty(),
            r@.sells == Seq::<LevelView>::empty(),
    {
        let r = OrderBook { buys: Vec::new(), sells: Vec::new() };
        assert(r@.buys =~= Seq::<LevelView>::empty());
        assert(r@.sells =~= Seq::<LevelView>::empty());
        r
    }

    /// The bid levels, in ascending price order.
    pub fn buys(&self) -> (r: &Vec<PriceLevel>)
        ensures
            levels_view(r@) == self@.buys,
    {
        &self.buys
    }

    /// The ask levels, in ascending price order.
    pub fn sells(&self) -> (r: &Vec<PriceLevel>)
        ensures
            levels_view(r@) == self@.sells,
    {
        &self.sells
    }

    /// Matches `order` against the other side of the book by price-time
    /// priority, appending the trades; what is left of it rests in the book.
    pub fn process_create(&mut self, order: Order, trades: &mut Vec<Trade>)
        ensures
            final(self)@ == create_result(old(self)@, order).0,
            final(trades)@ == old(trades)@ + create_result(old(self)@, order).1,
            book_wf(final(self)@),
            match_exact(old(self)@, order) ==> amounts_conserved(old(self)@, order),
            forall|s: nat|
                #![trigger amounts_fit_at(old(self)@, order, s)]
                amounts_fit_at(old(self)@, order, s) ==> amounts_conserved(old(self)@, order),
    {
        match order.side {
            Side::Buy => self.match_buy(order, trades),
            Side::Sell => self.match_sell(order, trades),
        }
    }

    /// Cancels order `order_id`, looked for only in the level at `price` on the
    /// given side; a level left empty leaves the book.
    pub fn remove_order(&mut self, order_id: u64, side: Side, price: Decimal)
        ensures
            final(self)@ == remove_result(old(self)@, order_id, side, price),
            book_wf(final(self)@),
    {
        proof {
            use_type_invariant(&*self);
        }
        let ghost b0 = self@;
        let mut buys: Vec<PriceLevel> = Vec::new();
        let mut sells: Vec<PriceLevel> = Vec::new();
        assert(levels_view(buys@) =~= Seq::<LevelView>::empty());
        std::mem::swap(&mut buys, &mut self.buys);
        std::mem::swap(&mut sells, &mut self.sells);
        if side == Side::Buy {
            remove_from_levels(&mut buys, order_id, &price, Ghost(Side::Buy));
        } else {
            remove_from_levels(&mut sells, order_id, &price, Ghost(Side::Sell));
        }
        assert(uncrossed(book_of(buys@, sells@))) by {
            assert forall|i: int, j: int|
                0 <= i < buys@.len() && 0 <= j < sells@.len() implies price_of(
                #[trigger] levels_view(buys@)[i],
            ) < price_of(#[trigger] levels_view(sells@)[j]) by {
                if side == Side::Buy {
                    assert(price_among(b0.buys, price_of(levels_view(buys@)[i])));
                    let m = choose|m: int|
                        0 <= m < b0.buys.len() && price_of(b0.buys[m]) == price_of(levels_view(buys@)[i]);
                    assert(price_of(b0.buys[m]) < price_of(b0.sells[j]));
                } else {
                    assert(price_among(b0.sells, price_of(levels_view(sells@)[j])));
                    let m = choose|m: int|
                        0 <= m < b0.sells.len() && price_of(b0.sells[m]) == price_of(levels_view(sells@)[j]);
                    assert(price_of(b0.buys[i]) < price_of(b0.sells[m]));
                }
            }
        }
        self.buys = buys;
        self.sells = sells;
        proof {
            use_type_invariant(&*self);
        }
    }

    /// A buy taker against the asks, lowest price first, within its limit;
    /// what is left of it rests among the bids.
    pub fn match_buy(&mut self, taker: Order, trades: &mut Vec<Trade>)
        requires
            taker.side == Side::Buy,
        ensures
            final(self)@ == create_result(old(self)@, taker).0,
            final(trades)@ == old(trades)@ + create_result(old(self)@, taker).1,
            book_wf(final(self)@),
            final(self)@.sells.filter(priced_above(units(taker.limit_price@)))
                == old(self)@.sells.filter(priced_above(units(taker.limit_price@))),
            sweep_asks_exact(taker, old(self)@.sells) ==> amounts_conserved(old(self)@, taker),
            forall|s: nat|
                #![trigger amounts_fit_at(old(self)@, taker, s)]
                amounts_fit_at(old(self)@, taker, s) ==> amounts_conserved(old(self)@, taker),
    {
        proof {
            use_type_invariant(&*self);
        }
        let ghost book0 = self@;
        let mut buys: Vec<PriceLevel> = Vec::new();
        let mut sells: Vec<PriceLevel> = Vec::new();
        assert(levels_view(buys@) =~= Seq::<LevelView>::empty());
        std::mem::swap(&mut buys, &mut self.buys);
        std::mem::swap(&mut sells, &mut self.sells);
        let ghost t0 = taker;
        let ghost a0 = levels_view(sells@);
        let ghost b0 = levels_view(buys@);
        let ghost tr0 = trades@;
        let mut taker = taker;
        let mut i: usize = 0;
        assert(a0.skip(0) =~= a0);
        assert(a0.take(0) + a0 =~= a0);
        assert(trades@.subrange(0, tr0.len() as int) =~= tr0);
        assert(trades@.subrange(tr0.len() as int, trades@.len() as int) =~= Seq::<Trade>::empty());
        loop
            invariant
                0 <= i <= sells@.len(),
                sweep_asks(t0, a0).0 == sweep_asks(taker, levels_view(sells@).skip(i as int)).0,
                sweep_asks(t0, a0).1 == levels_view(sells@).take(i as int) + sweep_asks(
                    taker,
                    levels_view(sells@).skip(i as int),
                ).1,
                trades@.len() >= tr0.len(),
                trades@.subrange(0, tr0.len() as int) == tr0,
                sweep_asks(t0, a0).2 == trades@.subrange(tr0.len() as int, trades@.len() as int)
                    + sweep_asks(taker, levels_view(sells@).skip(i as int)).2,
                side_wf(levels_view(sells@), Side::Sell),
                a0.len() > 0 ==> forall|k: int|
                    0 <= k < sells@.len() ==> price_of(#[trigger] levels_view(sells@)[k]) >= price_of(a0[0]),
                a0.len() == 0 ==> sells@.len() == 0,
                taker == with_amount(t0, taker.amount),
                units(t0.amount@) > 0 ==> 0 <= units(taker.amount@) <= units(t0.amount@),
                units(t0.amount@) > 0 && i > 0 ==> units(taker.amount@) == 0,
                units(t0.amount@) <= 0 ==> taker == t0,
                levels_view(buys@) == b0,
                book_wf(BookView { buys: b0, sells: a0 }),
                t0.side == Side::Buy,
                forall|s: nat|
                    #![trigger fits_at(t0.amount, s)]
                    fits_at(t0.amount, s) && side_fits_at(a0, s) ==> {
                        &&& fits_at(taker.amount, s)
                        &&& side_fits_at(levels_view(sells@), s)
                        &&& units(t0.amount@) == units(taker.amount@) + traded(
                            trades@.subrange(tr0.len() as int, trades@.len() as int),
                        )
                        &&& side_total(a0) == side_total(levels_view(sells@)) + traded(
                            trades@.subrange(tr0.len() as int, trades@.len() as int),
                        )
                    },
                sweep_asks_exact(t0, a0) ==> {
                    &&& sweep_asks_exact(taker, levels_view(sells@).skip(i as int))
                    &&& units(t0.amount@) == units(taker.amount@) + traded(
                        trades@.subrange(tr0.len() as int, trades@.len() as int),
                    )
                    &&& side_total(a0) == side_total(levels_view(sells@)) + traded(
                        trades@.subrange(tr0.len() as int, trades@.len() as int),
                    )
                },
            ensures
                0 <= i <= sells@.len(),
                i == sells@.len() || taker.amount@.0 == 0 || price_of(levels_view(sells@)[i as int])
                    > units(taker.limit_price@),
            decreases sells@.len() - i,
        {
            if i >= sells.len() {
                break;
            }
            if taker.amount.is_zero() || sells[i].price.greater_than(&taker.limit_price) {
                break;
            }
            let ghost v = levels_view(sells@);
            let ghost i0 = i as int;
            let ghost taker_before = taker;
            let ghost trades_before = trades@;
            proof {
                lemma_units_sign(taker.amount@);
                assert(v.skip(i as int)[0] == v[i as int]);
                assert(v.skip(i as int).drop_first() =~= v.skip(i + 1));
                assert(level_wf(v[i as int], Side::Sell));
            }
            let level = sells.remove(i);
            assert(level@ == v[i as int]);
            let price = level.price;
            let mut orders = level.orders;
            fill_queue(&mut taker, &mut orders, true, &price, trades);
            let ghost f = fill(taker_before, v[i as int].orders, true);
            let ghost r = sweep_asks(taker, v.skip(i + 1));
            assert(sweep_asks(taker_before, v.skip(i as int)).0 == r.0);
            assert(sweep_asks(taker_before, v.skip(i as int)).2 == f.2 + r.2);
            if orders.len() > 0 {
                let ghost nl = LevelView { price: price, orders: orders@ };
                sells.insert(i, PriceLevel { price, orders });
                assert(levels_view(sells@) =~= v.update(i as int, nl));
                assert(levels_view(sells@).take(i + 1) =~= v.take(i as int).push(nl));
                assert(levels_view(sells@).skip(i + 1) =~= v.skip(i + 1));
                assert(sweep_asks(taker_before, v.skip(i as int)).1 == seq![nl] + r.1);
                assert(v.take(i as int) + (seq![nl] + r.1) =~= v.take(i as int).push(nl) + r.1);
                i = i + 1;
            } else {
                assert(levels_view(sells@) =~= v.remove(i as int));
                assert(levels_view(sells@).take(i as int) =~= v.take(i as int));
                assert(levels_view(sells@).skip(i as int) =~= v.skip(i + 1));
                assert(sweep_asks(taker_before, v.skip(i as int)).1 == r.1);
            }
            assert(trades@.subrange(0, tr0.len() as int) =~= tr0);
            assert(trades@.subrange(tr0.len() as int, trades@.len() as int) =~= trades_before.subrange(
                tr0.len() as int,
                trades_before.len() as int,
            ) + f.2);
            proof {
                let done0 = trades_before.subrange(tr0.len() as int, trades_before.len() as int);
                let done1 = trades@.subrange(tr0.len() as int, trades@.len() as int);
                lemma_traded_add(done0, f.2);
                let v1 = levels_view(sells@);
                let mid = seq![v[i0]] + v.skip(i0 + 1);
                assert(v =~= v.take(i0) + mid);
                lemma_side_total_add(v.take(i0), mid);
                assert(mid.drop_first() =~= v.skip(i0 + 1));
                if f.1.len() > 0 {
                    let nl = LevelView { price: v[i0].price, orders: f.1 };
                    let mid1 = seq![nl] + v.skip(i0 + 1);
                    assert(v1 =~= v.take(i0) + mid1);
                    lemma_side_total_add(v.take(i0), mid1);
                    assert(mid1.drop_first() =~= v.skip(i0 + 1));
                } else {
                    assert(v1 =~= v.take(i0) + v.skip(i0 + 1));
                    lemma_side_total_add(v.take(i0), v.skip(i0 + 1));
                }
                if sweep_asks_exact(t0, a0) {
                    assert(sweep_asks_exact(taker_before, v.skip(i0)));
                    assert(fill_exact(taker_before, v[i0].orders));
                }
                assert forall|s: nat|
                    #![trigger fits_at(t0.amount, s)]
                    fits_at(t0.amount, s) && side_fits_at(a0, s) implies {
                        &&& fits_at(taker.amount, s)
                        &&& side_fits_at(v1, s)
                        &&& units(t0.amount@) == units(taker.amount@) + traded(done1)
                        &&& side_total(a0) == side_total(v1) + traded(done1)
                    } by {
                    assert(fits_at(taker_before.amount, s) && side_fits_at(v, s));
                    assert(queue_fits_at(v[i0].orders, s));
                    assert(fits_at(taker_before.amount, s));
                    assert forall|k: int| 0 <= k < v1.len() implies queue_fits_at(#[trigger] v1[k].orders, s) by {
                        if k < i0 {
                            assert(v1[k] == v[k]);
                        } else if f.1.len() > 0 && k == i0 {
                        } else if f.1.len() > 0 {
                            assert(v1[k] == v[k]);
                        } else {
                            assert(v1[k] == v[k + 1]);
                        }
                    }
                }
            }
        }
        let ghost v = levels_view(sells@);
        assert(v.take(i as int) + v.skip(i as int) =~= v);
        proof {
            if i < v.len() {
                assert(v.skip(i as int)[0] == v[i as int]);
            }
            assert(sweep_asks(taker, v.skip(i as int)) == (taker, v.skip(i as int), Seq::<Trade>::empty()));
            assert(trades@ =~= tr0 + trades@.subrange(tr0.len() as int, trades@.len() as int));
        }
        let zero = Decimal::zero();
        proof {
            lemma_units_sign(zero@);
        }
        if taker.amount.greater_than(&zero) {
            proof {
                if v.len() > 0 {
                    assert(price_of(v[0]) > units(taker.limit_price@));
                    lemma_rest_below(b0, taker, price_of(v[0]));
                }
            }
            rest_order(&mut buys, taker);
        }
        assert forall|s: nat|
            #![trigger amounts_fit_at(book0, t0, s)]
            amounts_fit_at(book0, t0, s) implies amounts_conserved(book0, t0) by {
            assert(fits_at(t0.amount, s));
        }
        self.buys = buys;
        self.sells = sells;
        proof {
            lemma_levels_beyond_limit_untouched(book0, t0);
            use_type_invariant(&*self);
        }
    }

    /// A sell taker against the bids, highest price first, within its limit;
    /// what is left of it rests among the asks.
    pub fn match_sell(&mut self, taker: Order, trades: &mut Vec<Trade>)
        requires
            taker.side == Side::Sell,
        ensures
            final(self)@ == create_result(old(self)@, taker).0,
            final(trades)@ == old(trades)@ + create_result(old(self)@, taker).1,
            book_wf(final(self)@),
            final(self)@.buys.filter(priced_below(units(taker.limit_price@)))
                == old(self)@.buys.filter(priced_below(units(taker.limit_price@))),
            sweep_bids_exact(taker, old(self)@.buys) ==> amounts_conserved(old(self)@, taker),
            forall|s: nat|
                #![trigger amounts_fit_at(old(self)@, taker, s)]
                amounts_fit_at(old(self)@, taker, s) ==> amounts_conserved(old(self)@, taker),
    {
        proof {
            use_type_invariant(&*self);
        }
        let ghost book0 = self@;
        let mut buys: Vec<PriceLevel> = Vec::new();
        let mut sells: Vec<PriceLevel> = Vec::new();
        assert(levels_view(buys@) =~= Seq::<LevelView>::empty());
        std::mem::swap(&mut buys, &mut self.buys);
        std::mem::swap(&mut sells, &mut self.sells);
        let ghost t0 = taker;
        let ghost a0 = levels_view(sells@);
        let ghost b0 = levels_view(buys@);
        let ghost tr0 = trades@;
        let mut taker = taker;
        let mut j: usize = buys.len();
        assert(b0.take(b0.len() as int) =~= b0);
        assert(b0.skip(b0.len() as int) =~= Seq::<LevelView>::empty());
        assert(b0 + Seq::<LevelView>::empty() =~= b0);
        assert(trades@.subrange(0, tr0.len() as int) =~= tr0);
        assert(trades@.subrange(tr0.len() as int, trades@.len() as int) =~= Seq::<Trade>::empty());
        loop
            invariant
                0 <= j <= buys@.len(),
                sweep_bids(t0, b0).0 == sweep_bids(taker, levels_view(buys@).take(j as int)).0,
                sweep_bids(t0, b0).1 == sweep_bids(taker, levels_view(buys@).take(j as int)).1
                    + levels_view(buys@).skip(j as int),
                trades@.len() >= tr0.len(),
                trades@.subrange(0, tr0.len() as int) == tr0,
                sweep_bids(t0, b0).2 == trades@.subrange(tr0.len() as int, trades@.len() as int)
                    + sweep_bids(taker, levels_view(buys@).take(j as int)).2,
                side_wf(levels_view(buys@), Side::Buy),
                b0.len() > 0 ==> forall|k: int|
                    0 <= k < buys@.len() ==> price_of(#[trigger] levels_view(buys@)[k]) <= price_of(b0.last()),
                b0.len() == 0 ==> buys@.len() == 0,
                taker == with_amount(t0, taker.amount),
                units(t0.amount@) > 0 ==> 0 <= units(taker.amount@) <= units(t0.amount@),
                units(t0.amount@) > 0 && j < buys@.len() ==> units(taker.amount@) == 0,
                units(t0.amount@) <= 0 ==> taker == t0,
                levels_view(sells@) == a0,
                book_wf(BookView { buys: b0, sells: a0 }),
                t0.side == Side::Sell,
                forall|s: nat|
                    #![trigger fits_at(t0.amount, s)]
                    fits_at(t0.amount, s) && side_fits_at(b0, s) ==> {
                        &&& fits_at(taker.amount, s)
                        &&& side_fits_at(levels_view(buys@), s)
                        &&& units(t0.amount@) == units(taker.amount@) + traded(
                            trades@.subrange(tr0.len() as int, trades@.len() as int),
                        )
                        &&& side_total(b0) == side_total(levels_view(buys@)) + traded(
                            trades@.subrange(tr0.len() as int, trades@.len() as int),
                        )
                    },
                sweep_bids_exact(t0, b0) ==> {
                    &&& sweep_bids_exact(taker, levels_view(buys@).take(j as int))
                    &&& units(t0.amount@) == units(taker.amount@) + traded(
                        trades@.subrange(tr0.len() as int, trades@.len() as int),
                    )
                    &&& side_total(b0) == side_total(levels_view(buys@)) + traded(
                        trades@.subrange(tr0.len() as int, trades@.len() as int),
                    )
                },
            ensures
                0 <= j <= buys@.len(),
                j == 0 || taker.amount@.0 == 0 || price_of(levels_view(buys@)[j - 1])
                    < units(taker.limit_price@),
            decreases j,
        {
            if j == 0 {
                break;
            }
            if taker.amount.is_zero() || buys[j - 1].price.less_than(&taker.limit_price) {
                break;
            }
            let ghost v = levels_view(buys@);
            let ghost j0 = j as int;
            let ghost taker_before = taker;
            let ghost trades_before = trades@;
            proof {
                lemma_units_sign(taker.amount@);
                assert(v.take(j as int).last() == v[j - 1]);
                assert(v.take(j as int).drop_last() =~= v.take(j - 1));
                assert(level_wf(v[j - 1], Side::Buy));
            }
            let level = buys.remove(j - 1);
            assert(level@ == v[j - 1]);
            let price = level.price;
            let mut orders = level.orders;
            fill_queue(&mut taker, &mut orders, false, &price, trades);
            let ghost f = fill(taker_before, v[j - 1].orders, false);
            let ghost r = sweep_bids(taker, v.take(j - 1));
            assert(sweep_bids(taker_before, v.take(j as int)).0 == r.0);
            assert(sweep_bids(taker_before, v.take(j as int)).2 == f.2 + r.2);
            if orders.len() > 0 {
                let ghost nl = LevelView { price: price, orders: orders@ };
                buys.insert(j - 1, PriceLevel { price, orders });
                assert(levels_view(buys@) =~= v.update(j - 1, nl));
                assert(levels_view(buys@).take(j - 1) =~= v.take(j - 1));
                assert(levels_view(buys@).skip(j - 1) =~= seq![nl] + v.skip(j as int));
                assert(sweep_bids(taker_before, v.take(j as int)).1 == r.1.push(nl));
                assert(r.1.push(nl) + v.skip(j as int) =~= r.1 + (seq![nl] + v.skip(j as int)));
            } else {
                assert(levels_view(buys@) =~= v.remove(j - 1));
                assert(levels_view(buys@).take(j - 1) =~= v.take(j - 1));
                assert(levels_view(buys@).skip(j - 1) =~= v.skip(j as int));
                assert(sweep_bids(taker_before, v.take(j as int)).1 == r.1);
            }
            assert(trades@.subrange(0, tr0.len() as int) =~= tr0);
            assert(trades@.subrange(tr0.len() as int, trades@.len() as int) =~= trades_before.subrange(
                tr0.len() as int,
                trades_before.len() as int,
            ) + f.2);
            proof {
                let done0 = trades_before.subrange(tr0.len() as int, trades_before.len() as int);
                let done1 = trades@.subrange(tr0.len() as int, trades@.len() as int);
                lemma_traded_add(done0, f.2);
                let v1 = levels_view(buys@);
                let l = j0 - 1;
                let mid = seq![v[l]] + v.skip(j0);
                assert(v =~= v.take(l) + mid);
                lemma_side_total_add(v.take(l), mid);
                assert(mid.drop_first() =~= v.skip(j0));
                if f.1.len() > 0 {
                    let nl = LevelView { price: v[l].price, orders: f.1 };
                    let mid1 = seq![nl] + v.skip(j0);
                    assert(v1 =~= v.take(l) + mid1);
                    lemma_side_total_add(v.take(l), mid1);
                    assert(mid1.drop_first() =~= v.skip(j0));
                } else {
                    assert(v1 =~= v.take(l) + v.skip(j0));
                    lemma_side_total_add(v.take(l), v.skip(j0));
                }
                if sweep_bids_exact(t0, b0) {
                    assert(sweep_bids_exact(taker_before, v.take(j0)));
                    assert(fill_exact(taker_before, v[j0 - 1].orders));
                }
                assert forall|s: nat|
                    #![trigger fits_at(t0.amount, s)]
                    fits_at(t0.amount, s) && side_fits_at(b0, s) implies {
                        &&& fits_at(taker.amount, s)
                        &&& side_fits_at(v1, s)
                        &&& units(t0.amount@) == units(taker.amount@) + traded(done1)
                        &&& side_total(b0) == side_total(v1) + traded(done1)
                    } by {
                    assert(fits_at(taker_before.amount, s) && side_fits_at(v, s));
                    assert(queue_fits_at(v[l].orders, s));
                    assert(fits_at(taker_before.amount, s));
                    assert forall|k: int| 0 <= k < v1.len() implies queue_fits_at(#[trigger] v1[k].orders, s) by {
                        if k < l {
                            assert(v1[k] == v[k]);
                        } else if f.1.len() > 0 && k == l {
                        } else if f.1.len() > 0 {
                            assert(v1[k] == v[k]);
                        } else {
                            assert(v1[k] == v[k + 1]);
                        }
                    }
                }
            }
            j = j - 1;
        }
        let ghost v = levels_view(buys@);
        assert(v.take(j as int) + v.skip(j as int) =~= v);
        proof {
            if j > 0 {
                assert(v.take(j as int).last() == v[j - 1]);
            }
            assert(sweep_bids(taker, v.take(j as int)) == (taker, v.take(j as int), Seq::<Trade>::empty()));
            assert(trades@ =~= tr0 + trades@.subrange(tr0.len() as int, trades@.len() as int));
        }
        let zero = Decimal::zero();
        proof {
            lemma_units_sign(zero@);
        }
        if taker.amount.greater_than(&zero) {
            proof {
                if v.len() > 0 {
                    assert(price_of(v[j - 1]) < units(taker.limit_price@));
                    lemma_rest_above(a0, taker, price_of(v[j - 1]));
                }
            }
            rest_order(&mut sells, taker);
        }
        assert forall|s: nat|
            #![trigger amounts_fit_at(book0, t0, s)]
            amounts_fit_at(book0, t0, s) implies amounts_conserved(book0, t0) by {
            assert(fits_at(t0.amount, s));
        }
        self.buys = buys;
        self.sells = sells;
        proof {
            lemma_levels_beyond_limit_untouched(book0, t0);
            use_type_invariant(&*self);
        }
    }
}

// ---------------------------------------------------------------------------
// Laws
// ---------------------------------------------------------------------------

/// A trade that `order` made as taker: a positive amount of its pair, the
/// order on its own side of the trade, and a price within its limit.
pub open spec fn trade_respects(t: Trade, order: Order) -> bool {
    &&& units(t.amount@) > 0
    &&& t.pair == order.pair
    &&& if order.side == Side::Buy {
        t.buy_order_id == order.order_id && units(t.price@) <= units(order.limit_price@)
    } else {
        t.sell_order_id == order.order_id && units(t.price@) >= units(order.limit_price@)
    }
}

proof fn lemma_fill_trades(taker: Order, q: Seq<Order>, taker_buys: bool, price: Decimal)
    requires
        forall|k: int| 0 <= k < q.len() ==> #[trigger] rests_at(q[k], price, maker_side(taker_buys)),
    ensures
        fill(taker, q, taker_buys).0 == with_amount(taker, fill(taker, q, taker_buys).0.amount),
        forall|i: int| 0 <= i < fill(taker, q, taker_buys).2.len() ==> {
            let t = #[trigger] fill(taker, q, taker_buys).2[i];
            &&& units(t.amount@) > 0
            &&& t.pair == taker.pair
            &&& units(t.price@) == units(price@)
            &&& (taker_buys ==> t.buy_order_id == taker.order_id)
            &&& (!taker_buys ==> t.sell_order_id == taker.order_id)
        },
    decreases q.len(),
{
    if q.len() == 0 || units(taker.amount@) <= 0 {
    } else {
        let maker = q[0];
        assert(rests_at(q[0], price, maker_side(taker_buys)));
        let qty = min_of(taker.amount, maker.amount);
        let taker2 = with_amount(taker, difference(taker.amount, qty));
        let maker2 = with_amount(maker, difference(maker.amount, qty));
        if maker2.amount@.0 == 0 {
            assert forall|k: int| 0 <= k < q.drop_first().len() implies #[trigger] rests_at(
                q.drop_first()[k],
                price,
                maker_side(taker_buys),
            ) by {
                assert(rests_at(q[k + 1], price, maker_side(taker_buys)));
            }
            lemma_fill_trades(taker2, q.drop_first(), taker_buys, price);
        }
    }
}

proof fn lemma_sweep_asks_trades(taker: Order, asks: Seq<LevelView>)
    requires
        side_wf(asks, Side::Sell),
    ensures
        sweep_asks(taker, asks).0 == with_amount(taker, sweep_asks(taker, asks).0.amount),
        forall|i: int| 0 <= i < sweep_asks(taker, asks).2.len() ==> {
            let t = #[trigger] sweep_asks(taker, asks).2[i];
            &&& units(t.amount@) > 0
            &&& t.pair == taker.pair
            &&& t.buy_order_id == taker.order_id
            &&& units(t.price@) <= units(taker.limit_price@)
            &&& price_among(asks, units(t.price@))
        },
    decreases asks.len(),
{
    if asks.len() == 0 || taker.amount@.0 == 0 || price_of(asks[0]) > units(taker.limit_price@) {
    } else {
        assert(level_wf(asks[0], Side::Sell));
        lemma_fill_trades(taker, asks[0].orders, true, asks[0].price);
        let f = fill(taker, asks[0].orders, true);
        assert(side_wf(asks.drop_first(), Side::Sell)) by {
            assert forall|i: int| 0 <= i < asks.drop_first().len() implies level_wf(#[trigger] asks.drop_first()[i], Side::Sell) by {
                assert(asks.drop_first()[i] == asks[i + 1]);
            }
            assert forall|i: int, j: int| 0 <= i < j < asks.drop_first().len() implies price_of(#[trigger] asks.drop_first()[i]) < price_of(#[trigger] asks.drop_first()[j]) by {
                assert(asks.drop_first()[i] == asks[i + 1] && asks.drop_first()[j] == asks[j + 1]);
            }
        }
        lemma_sweep_asks_trades(f.0, asks.drop_first());
        let r = sweep_asks(f.0, asks.drop_first());
        assert forall|i: int| 0 <= i < (f.2 + r.2).len() implies {
            let t = #[trigger] (f.2 + r.2)[i];
            &&& units(t.amount@) > 0
            &&& t.pair == taker.pair
            &&& t.buy_order_id == taker.order_id
            &&& units(t.price@) <= units(taker.limit_price@)
            &&& price_among(asks, units(t.price@))
        } by {
            if i < f.2.len() {
                assert((f.2 + r.2)[i] == f.2[i]);
                assert(price_of(asks[0]) == units(f.2[i].price@));
            } else {
                let t = r.2[i - f.2.len()];
                assert((f.2 + r.2)[i] == t);
                let rest = asks.drop_first();
                let m = choose|m: int| 0 <= m < rest.len() && price_of(#[trigger] rest[m]) == units(t.price@);
                assert(rest[m] == asks[m + 1]);
                assert(price_of(asks[m + 1]) == units(t.price@));
            }
        }
    }
}

proof fn lemma_sweep_bids_trades(taker: Order, bids: Seq<LevelView>)
    requires
        side_wf(bids, Side::Buy),
    ensures
        sweep_bids(taker, bids).0 == with_amount(taker, sweep_bids(taker, bids).0.amount),
        forall|i: int| 0 <= i < sweep_bids(taker, bids).2.len() ==> {
            let t = #[trigger] sweep_bids(taker, bids).2[i];
            &&& units(t.amount@) > 0
            &&& t.pair == taker.pair
            &&& t.sell_order_id == taker.order_id
            &&& units(t.price@) >= units(taker.limit_price@)
            &&& price_among(bids, units(t.price@))
        },
    decreases bids.len(),
{
    if bids.len() == 0 || taker.amount@.0 == 0 || price_of(bids.last()) < units(taker.limit_price@) {
    } else {
        assert(level_wf(bids[bids.len() - 1], Side::Buy));
        lemma_fill_trades(taker, bids.last().orders, false, bids.last().price);
        let f = fill(taker, bids.last().orders, false);
        assert(side_wf(bids.drop_last(), Side::Buy)) by {
            assert forall|i: int| 0 <= i < bids.drop_last().len() implies level_wf(#[trigger] bids.drop_last()[i], Side::Buy) by {
                assert(bids.drop_last()[i] == bids[i]);
            }
            assert forall|i: int, j: int| 0 <= i < j < bids.drop_last().len() implies price_of(#[trigger] bids.drop_last()[i]) < price_of(#[trigger] bids.drop_last()[j]) by {
                assert(bids.drop_last()[i] == bids[i] && bids.drop_last()[j] == bids[j]);
            }
        }
        lemma_sweep_bids_trades(f.0, bids.drop_last());
        let r = sweep_bids(f.0, bids.drop_last());
        assert forall|i: int| 0 <= i < (f.2 + r.2).len() implies {
            let t = #[trigger] (f.2 + r.2)[i];
            &&& units(t.amount@) > 0
            &&& t.pair == taker.pair
            &&& t.sell_order_id == taker.order_id
            &&& units(t.price@) >= units(taker.limit_price@)
            &&& price_among(bids, units(t.price@))
        } by {
            if i < f.2.len() {
                assert((f.2 + r.2)[i] == f.2[i]);
                assert(price_of(bids[bids.len() - 1]) == units(f.2[i].price@));
            } else {
                let t = r.2[i - f.2.len()];
                assert((f.2 + r.2)[i] == t);
                let rest = bids.drop_last();
                let m = choose|m: int| 0 <= m < rest.len() && price_of(#[trigger] rest[m]) == units(t.price@);
                assert(rest[m] == bids[m]);
                assert(price_of(bids[m]) == units(t.price@));
            }
        }
    }
}

/// Every trade that an order makes on a well-formed book is of a positive
/// amount of its pair, names the order on its own side, and is priced within
/// its limit: at most the limit for a buy, at least the limit for a sell. Its
/// price is that of a level on the other side of the book before the order.
pub proof fn lemma_trades_respect_limit(book: BookView, order: Order)
    requires
        book_wf(book),
    ensures
        forall|i: int| 0 <= i < create_result(book, order).1.len() ==> trade_respects(
            #[trigger] create_result(book, order).1[i],
            order,
        ),
        forall|i: int| 0 <= i < create_result(book, order).1.len() ==> price_among(
            opposite_side(book, order),
            units((#[trigger] create_result(book, order).1[i]).price@),
        ),
{
    if order.side == Side::Buy {
        lemma_sweep_asks_trades(order, book.sells);
    } else {
        lemma_sweep_bids_trades(order, book.buys);
    }
}


/// No order with id `id` rests at a level of price `v`.
pub open spec fn id_absent_at(levels: Seq<LevelView>, id: u64, v: int) -> bool {
    forall|i: int, j: int|
        0 <= i < levels.len() && price_of(levels[i]) == v && 0 <= j < levels[i].orders.len()
            ==> (#[trigger] levels[i].orders[j]).order_id != id
}

/// Cancelling an order right after it came to rest on a side gives the side
/// back as it was, when no other order with its id rests at its price.
pub proof fn lemma_remove_undoes_rest(levels: Seq<LevelView>, o: Order)
    requires
        side_wf(levels, o.side),
        id_absent_at(levels, o.order_id, units(o.limit_price@)),
    ensures
        remove_from_side(rest(levels, o), o.order_id, o.limit_price) == levels,
{
    let v = units(o.limit_price@);
    lemma_lower_bound_exists(levels, v);
    let k = lower_bound(levels, v);
    let r = rest(levels, o);
    if k < levels.len() && price_of(levels[k]) == v {
        let q = levels[k].orders;
        let q1 = q.push(o);
        assert(is_lower_bound(r, v, k)) by {
            assert forall|i: int| 0 <= i < k implies price_of(#[trigger] r[i]) < v by {
                assert(r[i] == levels[i]);
            }
        }
        lemma_lower_bound(r, v, k);
        assert(is_first_with_id(q1, o.order_id, q.len() as int)) by {
            assert forall|j: int| 0 <= j < q.len() implies (#[trigger] q1[j]).order_id != o.order_id by {
                assert(q1[j] == levels[k].orders[j]);
            }
        }
        lemma_first_with_id(q1, o.order_id, q.len() as int);
        assert(q1.remove(q.len() as int) =~= q);
        assert(level_wf(levels[k], o.side));
        assert(r.update(k, LevelView { price: levels[k].price, orders: q }) =~= levels);
    } else {
        let nl = LevelView { price: o.limit_price, orders: seq![o] };
        assert(is_lower_bound(r, v, k)) by {
            assert forall|i: int| 0 <= i < k implies price_of(#[trigger] r[i]) < v by {
                assert(r[i] == levels[i]);
            }
            assert(r[k] == nl);
        }
        lemma_lower_bound(r, v, k);
        assert(is_first_with_id(seq![o], o.order_id, 0));
        lemma_first_with_id(seq![o], o.order_id, 0);
        assert(seq![o].remove(0) =~= Seq::<Order>::empty());
        assert(r.remove(k) =~= levels);
    }
}

/// An order does not cross the book: a buy is below every ask, a sell above
/// every bid.
pub open spec fn does_not_cross(book: BookView, o: Order) -> bool {
    if o.side == Side::Buy {
        book.sells.len() == 0 || units(o.limit_price@) < price_of(book.sells[0])
    } else {
        book.buys.len() == 0 || units(o.limit_price@) > price_of(book.buys.last())
    }
}

/// Cancelling undoes creating: an order of positive amount that does not
/// cross the book makes no trade and rests; cancelling it by its id, side and
/// price gives the book back as it was (when no other order with its id
/// rests at its price on its side).
pub proof fn lemma_cancel_undoes_create(book: BookView, o: Order)
    requires
        book_wf(book),
        units(o.amount@) > 0,
        does_not_cross(book, o),
        id_absent_at(if o.side == Side::Buy { book.buys } else { book.sells }, o.order_id, units(o.limit_price@)),
    ensures
        create_result(book, o).1 == Seq::<Trade>::empty(),
        remove_result(create_result(book, o).0, o.order_id, o.side, o.limit_price) == book,
{
    lemma_units_sign(o.amount@);
    if o.side == Side::Buy {
        lemma_remove_undoes_rest(book.buys, o);
    } else {
        lemma_remove_undoes_rest(book.sells, o);
    }
}


/// Matching changes only the amount of the taker.
proof fn lemma_fill_taker(taker: Order, q: Seq<Order>, taker_buys: bool)
    ensures
        fill(taker, q, taker_buys).0 == with_amount(taker, fill(taker, q, taker_buys).0.amount),
    decreases q.len(),
{
    if q.len() == 0 || units(taker.amount@) <= 0 {
    } else {
        let maker = q[0];
        let qty = min_of(taker.amount, maker.amount);
        let taker2 = with_amount(taker, difference(taker.amount, qty));
        let maker2 = with_amount(maker, difference(maker.amount, qty));
        if maker2.amount@.0 == 0 {
            lemma_fill_taker(taker2, q.drop_first(), taker_buys);
        }
    }
}

proof fn lemma_sweep_asks_taker(taker: Order, asks: Seq<LevelView>)
    ensures
        sweep_asks(taker, asks).0 == with_amount(taker, sweep_asks(taker, asks).0.amount),
    decreases asks.len(),
{
    if asks.len() == 0 || taker.amount@.0 == 0 || price_of(asks[0]) > units(taker.limit_price@) {
    } else {
        lemma_fill_taker(taker, asks[0].orders, true);
        lemma_sweep_asks_taker(fill(taker, asks[0].orders, true).0, asks.drop_first());
    }
}

proof fn lemma_sweep_bids_taker(taker: Order, bids: Seq<LevelView>)
    ensures
        sweep_bids(taker, bids).0 == with_amount(taker, sweep_bids(taker, bids).0.amount),
    decreases bids.len(),
{
    if bids.len() == 0 || taker.amount@.0 == 0 || price_of(bids.last()) < units(taker.limit_price@) {
    } else {
        lemma_fill_taker(taker, bids.last().orders, false);
        lemma_sweep_bids_taker(fill(taker, bids.last().orders, false).0, bids.drop_last());
    }
}

/// The level is priced above `v`.
pub open spec fn priced_above(v: int) -> spec_fn(LevelView) -> bool {
    |l: LevelView| price_of(l) > v
}

/// The level is priced below `v`.
pub open spec fn priced_below(v: int) -> spec_fn(LevelView) -> bool {
    |l: LevelView| price_of(l) < v
}

proof fn lemma_sweep_asks_keeps_above(taker: Order, asks: Seq<LevelView>)
    ensures
        sweep_asks(taker, asks).1.filter(priced_above(units(taker.limit_price@)))
            == asks.filter(priced_above(units(taker.limit_price@))),
    decreases asks.len(),
{
    let v = units(taker.limit_price@);
    if asks.len() == 0 || taker.amount@.0 == 0 || price_of(asks[0]) > v {
    } else {
        let f = fill(taker, asks[0].orders, true);
        lemma_fill_taker(taker, asks[0].orders, true);
        lemma_sweep_asks_keeps_above(f.0, asks.drop_first());
        let r = sweep_asks(f.0, asks.drop_first());
        let head = seq![asks[0]];
        assert(head.filter(priced_above(v)) =~= Seq::<LevelView>::empty()) by {
            reveal(Seq::filter);
            assert(head.drop_last() =~= Seq::<LevelView>::empty());
            assert(Seq::<LevelView>::empty().filter(priced_above(v)) =~= Seq::<LevelView>::empty());
            assert(head.last() == asks[0]);
            assert(!(priced_above(v))(asks[0]));
        }
        assert(asks =~= head + asks.drop_first());
        Seq::filter_distributes_over_add(head, asks.drop_first(), priced_above(v));
        assert(Seq::<LevelView>::empty() + asks.drop_first().filter(priced_above(v)) =~= asks.drop_first().filter(priced_above(v)));
        if f.1.len() > 0 {
            let kept = seq![LevelView { price: asks[0].price, orders: f.1 }];
            assert(kept.filter(priced_above(v)) =~= Seq::<LevelView>::empty()) by {
                reveal(Seq::filter);
                assert(kept.drop_last() =~= Seq::<LevelView>::empty());
                assert(Seq::<LevelView>::empty().filter(priced_above(v)) =~= Seq::<LevelView>::empty());
                assert(kept.last() == kept[0]);
                assert(!(priced_above(v))(kept[0]));
            }
            Seq::filter_distributes_over_add(kept, r.1, priced_above(v));
            assert(Seq::<LevelView>::empty() + r.1.filter(priced_above(v)) =~= r.1.filter(priced_above(v)));
        }
    }
}

proof fn lemma_sweep_bids_keeps_below(taker: Order, bids: Seq<LevelView>)
    ensures
        sweep_bids(taker, bids).1.filter(priced_below(units(taker.limit_price@)))
            == bids.filter(priced_below(units(taker.limit_price@))),
    decreases bids.len(),
{
    let v = units(taker.limit_price@);
    if bids.len() == 0 || taker.amount@.0 == 0 || price_of(bids.last()) < v {
    } else {
        let f = fill(taker, bids.last().orders, false);
        lemma_fill_taker(taker, bids.last().orders, false);
        lemma_sweep_bids_keeps_below(f.0, bids.drop_last());
        let r = sweep_bids(f.0, bids.drop_last());
        assert(bids.filter(priced_below(v)) == bids.drop_last().filter(priced_below(v))) by {
            reveal(Seq::filter);
        }
        if f.1.len() > 0 {
            let nl = LevelView { price: bids.last().price, orders: f.1 };
            assert(r.1.push(nl).drop_last() =~= r.1);
            assert(r.1.push(nl).filter(priced_below(v)) == r.1.filter(priced_below(v))) by {
                reveal(Seq::filter);
            }
        }
    }
}

/// Matching leaves the other side alone beyond the order's limit: after a buy,
/// the ask levels priced above its limit are the same levels, in the same
/// order, with the same queues; after a sell, likewise the bid levels priced
/// below its limit.
pub proof fn lemma_levels_beyond_limit_untouched(book: BookView, order: Order)
    ensures
        order.side == Side::Buy ==> create_result(book, order).0.sells.filter(
            priced_above(units(order.limit_price@)),
        ) == book.sells.filter(priced_above(units(order.limit_price@))),
        order.side == Side::Sell ==> create_result(book, order).0.buys.filter(
            priced_below(units(order.limit_price@)),
        ) == book.buys.filter(priced_below(units(order.limit_price@))),
{
    if order.side == Side::Buy {
        lemma_sweep_asks_keeps_above(order, book.sells);
    } else {
        lemma_sweep_bids_keeps_below(order, book.buys);
    }
}


/// The ids of a queue, oldest first.
pub open spec fn queue_ids(q: Seq<Order>) -> Seq<u64> {
    q.map_values(|o: Order| o.order_id)
}

/// The ids resting on a side, level by level.
pub open spec fn side_ids(levels: Seq<LevelView>) -> Seq<u64>
    decreases levels.len(),
{
    if levels.len() == 0 {
        Seq::empty()
    } else {
        side_ids(levels.drop_last()) + queue_ids(levels.last().orders)
    }
}

/// The ids resting in a book: bids, then asks.
pub open spec fn book_ids(b: BookView) -> Seq<u64> {
    side_ids(b.buys) + side_ids(b.sells)
}

/// How often `x` occurs in `ids`.
pub open spec fn id_count(ids: Seq<u64>, x: u64) -> nat
    decreases ids.len(),
{
    if ids.len() == 0 {
        0
    } else {
        id_count(ids.drop_last(), x) + (if ids.last() == x { 1nat } else { 0nat })
    }
}

/// No two resting orders of the book share an id.
pub open spec fn ids_distinct(b: BookView) -> bool {
    forall|x: u64| #[trigger] id_count(book_ids(b), x) <= 1
}

pub proof fn lemma_id_count_add(a: Seq<u64>, b: Seq<u64>, x: u64)
    ensures
        id_count(a + b, x) == id_count(a, x) + id_count(b, x),
    decreases b.len(),
{
    if b.len() == 0 {
        assert(a + b =~= a);
    } else {
        assert((a + b).drop_last() =~= a + b.drop_last());
        lemma_id_count_add(a, b.drop_last(), x);
    }
}

proof fn lemma_id_count_single(x: u64, y: u64)
    ensures
        id_count(seq![y], x) == (if y == x { 1nat } else { 0nat }),
{
    assert(seq![y].drop_last() =~= Seq::<u64>::empty());
    assert(id_count(Seq::<u64>::empty(), x) == 0);
    assert(seq![y].last() == y);
}

/// An id that occurs is counted.
proof fn lemma_id_count_pos(ids: Seq<u64>, j: int)
    requires
        0 <= j < ids.len(),
    ensures
        id_count(ids, ids[j]) >= 1,
    decreases ids.len(),
{
    if j < ids.len() - 1 {
        lemma_id_count_pos(ids.drop_last(), j);
    }
}

pub proof fn lemma_side_ids_add(a: Seq<LevelView>, b: Seq<LevelView>)
    ensures
        side_ids(a + b) == side_ids(a) + side_ids(b),
    decreases b.len(),
{
    if b.len() == 0 {
        assert(a + b =~= a);
        assert(side_ids(a) + Seq::<u64>::empty() =~= side_ids(a));
    } else {
        assert((a + b).drop_last() =~= a + b.drop_last());
        lemma_side_ids_add(a, b.drop_last());
        assert(side_ids(a) + side_ids(b.drop_last()) + queue_ids(b.last().orders) =~= side_ids(a) + (
        side_ids(b.drop_last()) + queue_ids(b.last().orders)));
    }
}

proof fn lemma_side_ids_single(l: LevelView)
    ensures
        side_ids(seq![l]) == queue_ids(l.orders),
{
    assert(seq![l].drop_last() =~= Seq::<LevelView>::empty());
    assert(side_ids(Seq::<LevelView>::empty()) == Seq::<u64>::empty());
    assert(seq![l].last() == l);
    assert(Seq::<u64>::empty() + queue_ids(l.orders) =~= queue_ids(l.orders));
}

/// Matching against a queue only takes orders away (and changes amounts).
proof fn lemma_fill_ids(taker: Order, q: Seq<Order>, taker_buys: bool, x: u64)
    ensures
        id_count(queue_ids(fill(taker, q, taker_buys).1), x) <= id_count(queue_ids(q), x),
    decreases q.len(),
{
    if q.len() == 0 || units(taker.amount@) <= 0 {
    } else {
        let maker = q[0];
        let qty = min_of(taker.amount, maker.amount);
        let taker2 = with_amount(taker, difference(taker.amount, qty));
        let maker2 = with_amount(maker, difference(maker.amount, qty));
        if maker2.amount@.0 == 0 {
            lemma_fill_ids(taker2, q.drop_first(), taker_buys, x);
            assert(queue_ids(q) =~= seq![maker.order_id] + queue_ids(q.drop_first()));
            lemma_id_count_add(seq![maker.order_id], queue_ids(q.drop_first()), x);
        } else {
            assert(queue_ids(q.update(0, maker2)) =~= queue_ids(q));
        }
    }
}

proof fn lemma_sweep_asks_ids(taker: Order, asks: Seq<LevelView>, x: u64)
    ensures
        id_count(side_ids(sweep_asks(taker, asks).1), x) <= id_count(side_ids(asks), x),
    decreases asks.len(),
{
    if asks.len() == 0 || taker.amount@.0 == 0 || price_of(asks[0]) > units(taker.limit_price@) {
    } else {
        let f = fill(taker, asks[0].orders, true);
        lemma_fill_ids(taker, asks[0].orders, true, x);
        lemma_sweep_asks_ids(f.0, asks.drop_first(), x);
        let r = sweep_asks(f.0, asks.drop_first());
        assert(asks =~= seq![asks[0]] + asks.drop_first());
        lemma_side_ids_add(seq![asks[0]], asks.drop_first());
        lemma_side_ids_single(asks[0]);
        lemma_id_count_add(queue_ids(asks[0].orders), side_ids(asks.drop_first()), x);
        if f.1.len() > 0 {
            let nl = LevelView { price: asks[0].price, orders: f.1 };
            lemma_side_ids_add(seq![nl], r.1);
            lemma_side_ids_single(nl);
            lemma_id_count_add(queue_ids(f.1), side_ids(r.1), x);
        }
    }
}

proof fn lemma_sweep_bids_ids(taker: Order, bids: Seq<LevelView>, x: u64)
    ensures
        id_count(side_ids(sweep_bids(taker, bids).1), x) <= id_count(side_ids(bids), x),
    decreases bids.len(),
{
    if bids.len() == 0 || taker.amount@.0 == 0 || price_of(bids.last()) < units(taker.limit_price@) {
    } else {
        let f = fill(taker, bids.last().orders, false);
        lemma_fill_ids(taker, bids.last().orders, false, x);
        lemma_sweep_bids_ids(f.0, bids.drop_last(), x);
        let r = sweep_bids(f.0, bids.drop_last());
        lemma_id_count_add(side_ids(bids.drop_last()), queue_ids(bids.last().orders), x);
        if f.1.len() > 0 {
            let nl = LevelView { price: bids.last().price, orders: f.1 };
            assert(r.1.push(nl).drop_last() =~= r.1);
            lemma_id_count_add(side_ids(r.1), queue_ids(f.1), x);
        }
    }
}

/// Resting an order adds its id once.
proof fn lemma_rest_ids(levels: Seq<LevelView>, o: Order, x: u64)
    ensures
        id_count(side_ids(rest(levels, o)), x) == id_count(side_ids(levels), x) + (if o.order_id == x {
            1nat
        } else {
            0nat
        }),
{
    let v = units(o.limit_price@);
    lemma_lower_bound_exists(levels, v);
    let k = lower_bound(levels, v);
    let r = rest(levels, o);
    let one: nat = if o.order_id == x { 1nat } else { 0nat };
    if k < levels.len() && price_of(levels[k]) == v {
        let lk = levels[k];
        let nl = LevelView { price: lk.price, orders: lk.orders.push(o) };
        let pre = levels.take(k);
        let post = levels.skip(k + 1);
        assert(levels =~= pre + (seq![lk] + post));
        assert(r =~= pre + (seq![nl] + post));
        lemma_side_ids_add(pre, seq![lk] + post);
        lemma_side_ids_add(seq![lk], post);
        lemma_side_ids_add(pre, seq![nl] + post);
        lemma_side_ids_add(seq![nl], post);
        lemma_side_ids_single(lk);
        lemma_side_ids_single(nl);
        assert(queue_ids(nl.orders) =~= queue_ids(lk.orders).push(o.order_id));
        assert(queue_ids(nl.orders).drop_last() =~= queue_ids(lk.orders));
        lemma_id_count_add(side_ids(pre), queue_ids(lk.orders) + side_ids(post), x);
        lemma_id_count_add(queue_ids(lk.orders), side_ids(post), x);
        lemma_id_count_add(side_ids(pre), queue_ids(nl.orders) + side_ids(post), x);
        lemma_id_count_add(queue_ids(nl.orders), side_ids(post), x);
    } else {
        let nl = LevelView { price: o.limit_price, orders: seq![o] };
        let pre = levels.take(k);
        let post = levels.skip(k);
        assert(levels =~= pre + post);
        assert(r =~= pre + (seq![nl] + post));
        lemma_side_ids_add(pre, post);
        lemma_side_ids_add(pre, seq![nl] + post);
        lemma_side_ids_add(seq![nl], post);
        lemma_side_ids_single(nl);
        assert(queue_ids(seq![o]) =~= seq![o.order_id]);
        lemma_id_count_single(x, o.order_id);
        lemma_id_count_add(side_ids(pre), side_ids(post), x);
        lemma_id_count_add(side_ids(pre), queue_ids(nl.orders) + side_ids(post), x);
        lemma_id_count_add(queue_ids(nl.orders), side_ids(post), x);
    }
}


/// Creating an order adds at most its own id to the ids resting in the book:
/// no other id appears and none appears more often. So when the resting ids
/// are distinct and the order's id is new to the book, they stay distinct.
pub proof fn lemma_create_keeps_ids(book: BookView, order: Order)
    ensures
        forall|x: u64|
            #[trigger] id_count(book_ids(create_result(book, order).0), x) <= id_count(book_ids(book), x)
                + (if x == order.order_id { 1nat } else { 0nat }),
        ids_distinct(book) && id_count(book_ids(book), order.order_id) == 0 ==> ids_distinct(
            create_result(book, order).0,
        ),
{
    let nb = create_result(book, order).0;
    assert forall|x: u64|
        #[trigger] id_count(book_ids(nb), x) <= id_count(book_ids(book), x) + (if x == order.order_id {
            1nat
        } else {
            0nat
        }) by {
        lemma_id_count_add(side_ids(book.buys), side_ids(book.sells), x);
        lemma_id_count_add(side_ids(nb.buys), side_ids(nb.sells), x);
        if order.side == Side::Buy {
            let r = sweep_asks(order, book.sells);
            lemma_sweep_asks_taker(order, book.sells);
            lemma_sweep_asks_ids(order, book.sells, x);
            lemma_rest_ids(book.buys, r.0, x);
        } else {
            let r = sweep_bids(order, book.buys);
            lemma_sweep_bids_taker(order, book.buys);
            lemma_sweep_bids_ids(order, book.buys, x);
            lemma_rest_ids(book.sells, r.0, x);
        }
    }
    if ids_distinct(book) && id_count(book_ids(book), order.order_id) == 0 {
        assert forall|x: u64| #[trigger] id_count(book_ids(nb), x) <= 1 by {
            assert(id_count(book_ids(book), x) <= 1);
        }
    }
}


/// `a` is a suffix of `b`.
pub open spec fn is_suffix(a: Seq<u64>, b: Seq<u64>) -> bool {
    a.len() <= b.len() && a == b.skip(b.len() - a.len())
}

/// Prices strictly ascend along the levels.
pub open spec fn ascending(levels: Seq<LevelView>) -> bool {
    forall|i: int, j: int|
        0 <= i < j < levels.len() ==> price_of(#[trigger] levels[i]) < price_of(#[trigger] levels[j])
}

/// Each level of `new` stands at the price of a level of `old` and holds, by
/// ids, what is left of that level's queue once some of its oldest orders are
/// gone.
pub open spec fn levels_trimmed(old: Seq<LevelView>, new: Seq<LevelView>) -> bool {
    &&& forall|i: int| 0 <= i < new.len() ==> #[trigger] price_among(old, price_of(new[i]))
    &&& forall|i: int, j: int|
        0 <= i < new.len() && 0 <= j < old.len() && price_of(#[trigger] new[i]) == price_of(
            #[trigger] old[j],
        ) ==> is_suffix(queue_ids(new[i].orders), queue_ids(old[j].orders))
}

/// Each level of `new` holds, by ids, the queue of the level of `old` at its
/// price, or that queue with `id` added at the back; a level at a price that
/// `old` lacks holds `id` alone.
pub open spec fn levels_joined(old: Seq<LevelView>, new: Seq<LevelView>, id: u64) -> bool {
    &&& forall|i: int|
        0 <= i < new.len() ==> #[trigger] price_among(old, price_of(new[i])) || queue_ids(new[i].orders)
            == seq![id]
    &&& forall|i: int, j: int|
        0 <= i < new.len() && 0 <= j < old.len() && price_of(#[trigger] new[i]) == price_of(
            #[trigger] old[j],
        ) ==> queue_ids(new[i].orders) == queue_ids(old[j].orders) || queue_ids(new[i].orders)
            == queue_ids(old[j].orders).push(id)
}

proof fn lemma_fill_suffix(taker: Order, q: Seq<Order>, taker_buys: bool)
    ensures
        is_suffix(queue_ids(fill(taker, q, taker_buys).1), queue_ids(q)),
    decreases q.len(),
{
    let ids = queue_ids(q);
    if q.len() == 0 || units(taker.amount@) <= 0 {
        assert(ids.skip(0) =~= ids);
    } else {
        let maker = q[0];
        let qty = min_of(taker.amount, maker.amount);
        let taker2 = with_amount(taker, difference(taker.amount, qty));
        let maker2 = with_amount(maker, difference(maker.amount, qty));
        if maker2.amount@.0 == 0 {
            lemma_fill_suffix(taker2, q.drop_first(), taker_buys);
            let a = queue_ids(fill(taker2, q.drop_first(), taker_buys).1);
            let b = queue_ids(q.drop_first());
            assert(b =~= ids.drop_first());
            assert(a =~= ids.skip(ids.len() - a.len()));
        } else {
            assert(queue_ids(q.update(0, maker2)) =~= ids);
            assert(ids.skip(0) =~= ids);
        }
    }
}

proof fn lemma_trimmed_self(levels: Seq<LevelView>)
    requires
        ascending(levels),
    ensures
        levels_trimmed(levels, levels),
{
    assert forall|i: int| 0 <= i < levels.len() implies #[trigger] price_among(levels, price_of(levels[i])) by {
        assert(price_of(levels[i]) == price_of(levels[i]));
    }
    assert forall|i: int, j: int|
        0 <= i < levels.len() && 0 <= j < levels.len() && price_of(#[trigger] levels[i]) == price_of(
            #[trigger] levels[j],
        ) implies is_suffix(queue_ids(levels[i].orders), queue_ids(levels[j].orders)) by {
        assert(i == j);
        assert(queue_ids(levels[i].orders).skip(0) =~= queue_ids(levels[i].orders));
    }
}

proof fn lemma_sweep_asks_trimmed(taker: Order, asks: Seq<LevelView>)
    requires
        ascending(asks),
    ensures
        levels_trimmed(asks, sweep_asks(taker, asks).1),
    decreases asks.len(),
{
    if asks.len() == 0 || taker.amount@.0 == 0 || price_of(asks[0]) > units(taker.limit_price@) {
        lemma_trimmed_self(asks);
    } else {
        let rest = asks.drop_first();
        assert forall|i: int, j: int| 0 <= i < j < rest.len() implies price_of(#[trigger] rest[i]) < price_of(
            #[trigger] rest[j],
        ) by {
            assert(rest[i] == asks[i + 1] && rest[j] == asks[j + 1]);
        }
        let f = fill(taker, asks[0].orders, true);
        lemma_fill_suffix(taker, asks[0].orders, true);
        lemma_sweep_asks_trimmed(f.0, rest);
        let r = sweep_asks(f.0, rest);
        let new = sweep_asks(taker, asks).1;
        let head: int = if f.1.len() == 0 { 0 } else { 1 };
        assert forall|i: int| head <= i < new.len() implies new[i] == r.1[i - head] by {}
        assert forall|i: int| 0 <= i < new.len() implies #[trigger] price_among(asks, price_of(new[i])) by {
            if i < head {
                assert(price_of(asks[0]) == price_of(new[i]));
            } else {
                assert(price_among(rest, price_of(r.1[i - head])));
                let m = choose|m: int| 0 <= m < rest.len() && price_of(#[trigger] rest[m]) == price_of(r.1[i - head]);
                assert(rest[m] == asks[m + 1]);
                assert(price_of(asks[m + 1]) == price_of(new[i]));
            }
        }
        assert forall|i: int, j: int|
            0 <= i < new.len() && 0 <= j < asks.len() && price_of(#[trigger] new[i]) == price_of(
                #[trigger] asks[j],
            ) implies is_suffix(queue_ids(new[i].orders), queue_ids(asks[j].orders)) by {
            if i < head {
                if j > 0 {
                    assert(price_of(asks[0]) < price_of(asks[j]));
                }
            } else {
                assert(price_among(rest, price_of(r.1[i - head])));
                let m = choose|m: int| 0 <= m < rest.len() && price_of(#[trigger] rest[m]) == price_of(r.1[i - head]);
                assert(rest[m] == asks[m + 1]);
                if j < m + 1 {
                    assert(price_of(asks[j]) < price_of(asks[m + 1]));
                } else if j > m + 1 {
                    assert(price_of(asks[m + 1]) < price_of(asks[j]));
                }
                assert(price_of(r.1[i - head]) == price_of(rest[m]));
            }
        }
    }
}

proof fn lemma_sweep_bids_trimmed(taker: Order, bids: Seq<LevelView>)
    requires
        ascending(bids),
    ensures
        levels_trimmed(bids, sweep_bids(taker, bids).1),
    decreases bids.len(),
{
    if bids.len() == 0 || taker.amount@.0 == 0 || price_of(bids.last()) < units(taker.limit_price@) {
        lemma_trimmed_self(bids);
    } else {
        let last = bids.len() - 1;
        let rest = bids.drop_last();
        assert forall|i: int, j: int| 0 <= i < j < rest.len() implies price_of(#[trigger] rest[i]) < price_of(
            #[trigger] rest[j],
        ) by {
            assert(rest[i] == bids[i] && rest[j] == bids[j]);
        }
        let f = fill(taker, bids.last().orders, false);
        lemma_fill_suffix(taker, bids.last().orders, false);
        lemma_sweep_bids_trimmed(f.0, rest);
        let r = sweep_bids(f.0, rest);
        let new = sweep_bids(taker, bids).1;
        assert forall|i: int| 0 <= i < r.1.len() implies new[i] == r.1[i] by {}
        assert forall|i: int| 0 <= i < new.len() implies #[trigger] price_among(bids, price_of(new[i])) by {
            if i >= r.1.len() {
                assert(price_of(bids[last]) == price_of(new[i]));
            } else {
                assert(price_among(rest, price_of(r.1[i])));
                let m = choose|m: int| 0 <= m < rest.len() && price_of(#[trigger] rest[m]) == price_of(r.1[i]);
                assert(rest[m] == bids[m]);
                assert(price_of(bids[m]) == price_of(new[i]));
            }
        }
        assert forall|i: int, j: int|
            0 <= i < new.len() && 0 <= j < bids.len() && price_of(#[trigger] new[i]) == price_of(
                #[trigger] bids[j],
            ) implies is_suffix(queue_ids(new[i].orders), queue_ids(bids[j].orders)) by {
            if i >= r.1.len() {
                if j < last {
                    assert(price_of(bids[j]) < price_of(bids[last]));
                }
            } else {
                assert(price_among(rest, price_of(r.1[i])));
                let m = choose|m: int| 0 <= m < rest.len() && price_of(#[trigger] rest[m]) == price_of(r.1[i]);
                assert(rest[m] == bids[m]);
                if j < m {
                    assert(price_of(bids[j]) < price_of(bids[m]));
                } else if j > m {
                    assert(price_of(bids[m]) < price_of(bids[j]));
                }
                assert(price_of(r.1[i]) == price_of(rest[m]));
            }
        }
    }
}

proof fn lemma_joined_self(levels: Seq<LevelView>, id: u64)
    requires
        ascending(levels),
    ensures
        levels_joined(levels, levels, id),
{
    assert forall|i: int| 0 <= i < levels.len() implies #[trigger] price_among(levels, price_of(levels[i]))
        || queue_ids(levels[i].orders) == seq![id] by {
        assert(price_of(levels[i]) == price_of(levels[i]));
    }
    assert forall|i: int, j: int|
        0 <= i < levels.len() && 0 <= j < levels.len() && price_of(#[trigger] levels[i]) == price_of(
            #[trigger] levels[j],
        ) implies queue_ids(levels[i].orders) == queue_ids(levels[j].orders) || queue_ids(levels[i].orders)
        == queue_ids(levels[j].orders).push(id) by {
        assert(i == j);
    }
}

proof fn lemma_rest_joined(levels: Seq<LevelView>, o: Order)
    requires
        ascending(levels),
    ensures
        levels_joined(levels, rest(levels, o), o.order_id),
{
    let v = units(o.limit_price@);
    lemma_lower_bound_exists(levels, v);
    let k = lower_bound(levels, v);
    let new = rest(levels, o);
    let id = o.order_id;
    if k < levels.len() && price_of(levels[k]) == v {
        assert(queue_ids(levels[k].orders.push(o)) =~= queue_ids(levels[k].orders).push(id));
        assert forall|i: int| 0 <= i < new.len() implies #[trigger] price_among(levels, price_of(new[i]))
            || queue_ids(new[i].orders) == seq![id] by {
            assert(price_of(levels[i]) == price_of(new[i]));
        }
        assert forall|i: int, j: int|
            0 <= i < new.len() && 0 <= j < levels.len() && price_of(#[trigger] new[i]) == price_of(
                #[trigger] levels[j],
            ) implies queue_ids(new[i].orders) == queue_ids(levels[j].orders) || queue_ids(new[i].orders)
            == queue_ids(levels[j].orders).push(id) by {
            assert(price_of(new[i]) == price_of(levels[i]));
            if j < i {
                assert(price_of(levels[j]) < price_of(levels[i]));
            } else if j > i {
                assert(price_of(levels[i]) < price_of(levels[j]));
            }
        }
    } else {
        let nl = LevelView { price: o.limit_price, orders: seq![o] };
        assert(queue_ids(seq![o]) =~= seq![id]);
        assert forall|j: int| 0 <= j < levels.len() implies price_of(#[trigger] levels[j]) != v by {
            if j >= k {
                if j > k {
                    assert(price_of(levels[k]) < price_of(levels[j]));
                }
            }
        }
        assert forall|i: int| 0 <= i < new.len() implies #[trigger] price_among(levels, price_of(new[i]))
            || queue_ids(new[i].orders) == seq![id] by {
            if i < k {
                assert(new[i] == levels[i]);
            } else if i > k {
                assert(new[i] == levels[i - 1]);
            } else {
                assert(new[i] == nl);
            }
        }
        assert forall|i: int, j: int|
            0 <= i < new.len() && 0 <= j < levels.len() && price_of(#[trigger] new[i]) == price_of(
                #[trigger] levels[j],
            ) implies queue_ids(new[i].orders) == queue_ids(levels[j].orders) || queue_ids(new[i].orders)
            == queue_ids(levels[j].orders).push(id) by {
            let i0: int = if i < k { i } else { i - 1 };
            if i == k {
                assert(new[i] == nl);
                assert(price_of(levels[j]) != v);
            } else {
                assert(new[i] == levels[i0]);
                if j < i0 {
                    assert(price_of(levels[j]) < price_of(levels[i0]));
                } else if j > i0 {
                    assert(price_of(levels[i0]) < price_of(levels[j]));
                }
            }
        }
    }
}

/// Creating an order moves no resting order. Each level of the other side
/// stands at the price of a level it had before and holds, by ids, what is
/// left of that level's queue once its oldest orders have traded away. Each
/// level of the order's own side holds the queue it had, or that queue with the
/// order added at the back; a new level holds the order alone.
pub proof fn lemma_create_keeps_queues(book: BookView, order: Order)
    requires
        book_wf(book),
    ensures
        order.side == Side::Buy ==> levels_trimmed(book.sells, create_result(book, order).0.sells)
            && levels_joined(book.buys, create_result(book, order).0.buys, order.order_id),
        order.side == Side::Sell ==> levels_trimmed(book.buys, create_result(book, order).0.buys)
            && levels_joined(book.sells, create_result(book, order).0.sells, order.order_id),
{
    if order.side == Side::Buy {
        let r = sweep_asks(order, book.sells);
        lemma_sweep_asks_taker(order, book.sells);
        lemma_sweep_asks_trimmed(order, book.sells);
        if units(r.0.amount@) > 0 {
            lemma_rest_joined(book.buys, r.0);
        } else {
            lemma_joined_self(book.buys, order.order_id);
        }
    } else {
        let r = sweep_bids(order, book.buys);
        lemma_sweep_bids_taker(order, book.buys);
        lemma_sweep_bids_trimmed(order, book.buys);
        if units(r.0.amount@) > 0 {
            lemma_rest_joined(book.sells, r.0);
        } else {
            lemma_joined_self(book.sells, order.order_id);
        }
    }
}


proof fn lemma_remove_from_side_twice(levels: Seq<LevelView>, id: u64, price: Decimal, side: Side)
    requires
        side_wf(levels, side),
        id_count(side_ids(levels), id) <= 1,
    ensures
        remove_from_side(remove_from_side(levels, id, price), id, price) == remove_from_side(levels, id, price),
{
    let v = units(price@);
    lemma_lower_bound_exists(levels, v);
    let k = lower_bound(levels, v);
    let l1 = remove_from_side(levels, id, price);
    if k < levels.len() && price_of(levels[k]) == v {
        let q = levels[k].orders;
        let pre = levels.take(k);
        let post = levels.skip(k + 1);
        assert(levels =~= pre + (seq![levels[k]] + post));
        lemma_side_ids_add(pre, seq![levels[k]] + post);
        lemma_side_ids_add(seq![levels[k]], post);
        lemma_side_ids_single(levels[k]);
        lemma_id_count_add(side_ids(pre), queue_ids(q) + side_ids(post), id);
        lemma_id_count_add(queue_ids(q), side_ids(post), id);
        assert(id_count(queue_ids(q), id) <= 1);
        assert(level_wf(levels[k], side));
        if exists|p: int| is_first_with_id(q, id, p) {
            let p = choose|p: int| is_first_with_id(q, id, p);
            lemma_first_with_id(q, id, p);
            let q1 = q.remove(p);
            assert(queue_ids(q) =~= queue_ids(q.take(p)) + (seq![id] + queue_ids(q.skip(p + 1))));
            assert(queue_ids(q1) =~= queue_ids(q.take(p)) + queue_ids(q.skip(p + 1)));
            lemma_id_count_add(queue_ids(q.take(p)), seq![id] + queue_ids(q.skip(p + 1)), id);
            lemma_id_count_add(seq![id], queue_ids(q.skip(p + 1)), id);
            lemma_id_count_single(id, id);
            lemma_id_count_add(queue_ids(q.take(p)), queue_ids(q.skip(p + 1)), id);
            assert(id_count(queue_ids(q1), id) == 0);
            assert(!exists|c: int| is_first_with_id(q1, id, c)) by {
                if exists|c: int| is_first_with_id(q1, id, c) {
                    let c = choose|c: int| is_first_with_id(q1, id, c);
                    lemma_id_count_pos(queue_ids(q1), c);
                }
            }
            assert(without_order(q1, id) == q1);
            if q1.len() == 0 {
                assert(l1 == levels.remove(k));
                assert(is_lower_bound(l1, v, k)) by {
                    assert forall|i: int| 0 <= i < k implies price_of(#[trigger] l1[i]) < v by {
                        assert(l1[i] == levels[i]);
                    }
                    if k < l1.len() {
                        assert(l1[k] == levels[k + 1]);
                        assert(price_of(levels[k]) < price_of(levels[k + 1]));
                    }
                }
                lemma_lower_bound(l1, v, k);
                if k < l1.len() {
                    assert(l1[k] == levels[k + 1]);
                    assert(price_of(levels[k]) < price_of(levels[k + 1]));
                }
            } else {
                let nl = LevelView { price: levels[k].price, orders: q1 };
                assert(l1 == levels.update(k, nl));
                assert(is_lower_bound(l1, v, k)) by {
                    assert forall|i: int| 0 <= i < k implies price_of(#[trigger] l1[i]) < v by {
                        assert(l1[i] == levels[i]);
                    }
                }
                lemma_lower_bound(l1, v, k);
                assert(l1.update(k, LevelView { price: l1[k].price, orders: q1 }) =~= l1);
            }
        } else {
            assert(without_order(q, id) == q);
            assert(l1 =~= levels);
        }
    }
}

/// Cancelling twice is cancelling once: when no two resting orders share an
/// id, a second cancel with the same id, side and price changes nothing.
pub proof fn lemma_remove_twice(book: BookView, id: u64, side: Side, price: Decimal)
    requires
        book_wf(book),
        ids_distinct(book),
    ensures
        remove_result(remove_result(book, id, side, price), id, side, price) == remove_result(
            book,
            id,
            side,
            price,
        ),
{
    lemma_id_count_add(side_ids(book.buys), side_ids(book.sells), id);
    assert(id_count(book_ids(book), id) <= 1);
    if side == Side::Buy {
        lemma_remove_from_side_twice(book.buys, id, price, Side::Buy);
    } else {
        lemma_remove_from_side_twice(book.sells, id, price, Side::Sell);
    }
}

/// There is an order with the given id in some position of the queue.
proof fn lemma_first_exists(q: Seq<Order>, id: u64, j: int)
    requires
        0 <= j < q.len(),
        q[j].order_id == id,
    ensures
        exists|p: int| is_first_with_id(q, id, p),
    decreases j,
{
    if exists|m: int| 0 <= m < j && (#[trigger] q[m]).order_id == id {
        let m = choose|m: int| 0 <= m < j && (#[trigger] q[m]).order_id == id;
        lemma_first_exists(q, id, m);
    } else {
        assert(is_first_with_id(q, id, j));
    }
}

/// Taking the order at position `p` out of a queue takes one occurrence of
/// its id away and leaves the count of every other id alone.
proof fn lemma_queue_remove_count(q: Seq<Order>, p: int, x: u64)
    requires
        0 <= p < q.len(),
    ensures
        id_count(queue_ids(q.remove(p)), x) + (if q[p].order_id == x { 1nat } else { 0nat })
            == id_count(queue_ids(q), x),
{
    let a = queue_ids(q.take(p));
    let b = queue_ids(q.skip(p + 1));
    assert(queue_ids(q) =~= a + (seq![q[p].order_id] + b));
    assert(queue_ids(q.remove(p)) =~= a + b);
    lemma_id_count_add(a, seq![q[p].order_id] + b, x);
    lemma_id_count_add(seq![q[p].order_id], b, x);
    lemma_id_count_add(a, b, x);
    lemma_id_count_single(x, q[p].order_id);
}

/// Cancelling order `id` at `price` on a side finds it wherever it stands in
/// the queue of the level at that price: when it rests there, one occurrence
/// of its id leaves the side and every other id stays as often as it was;
/// when it does not rest there, the side is unchanged.
pub proof fn lemma_remove_takes_the_order(levels: Seq<LevelView>, id: u64, price: Decimal, side: Side)
    requires
        side_wf(levels, side),
    ensures
        (exists|i: int, j: int|
            0 <= i < levels.len() && price_of(levels[i]) == units(price@) && 0 <= j < levels[i].orders.len()
                && (#[trigger] levels[i].orders[j]).order_id == id) ==> id_count(
            side_ids(remove_from_side(levels, id, price)),
            id,
        ) + 1 == id_count(side_ids(levels), id),
        forall|x: u64|
            x != id ==> #[trigger] id_count(side_ids(remove_from_side(levels, id, price)), x) == id_count(
                side_ids(levels),
                x,
            ),
        !(exists|i: int, j: int|
            0 <= i < levels.len() && price_of(levels[i]) == units(price@) && 0 <= j < levels[i].orders.len()
                && (#[trigger] levels[i].orders[j]).order_id == id) ==> remove_from_side(levels, id, price)
            == levels,
{
    let v = units(price@);
    lemma_lower_bound_exists(levels, v);
    let k = lower_bound(levels, v);
    let r = remove_from_side(levels, id, price);
    let present = exists|i: int, j: int|
        0 <= i < levels.len() && price_of(levels[i]) == v && 0 <= j < levels[i].orders.len()
            && (#[trigger] levels[i].orders[j]).order_id == id;
    if k < levels.len() && price_of(levels[k]) == v {
        let q = levels[k].orders;
        assert(level_wf(levels[k], side));
        let pre = levels.take(k);
        let post = levels.skip(k + 1);
        assert(levels =~= pre + (seq![levels[k]] + post));
        lemma_side_ids_add(pre, seq![levels[k]] + post);
        lemma_side_ids_add(seq![levels[k]], post);
        lemma_side_ids_single(levels[k]);
        if present {
            let (i, j) = choose|i: int, j: int|
                0 <= i < levels.len() && price_of(levels[i]) == v && 0 <= j < levels[i].orders.len()
                    && (#[trigger] levels[i].orders[j]).order_id == id;
            if i < k {
                assert(price_of(levels[i]) < v);
            } else if i > k {
                assert(price_of(levels[k]) < price_of(levels[i]));
            }
            lemma_first_exists(q, id, j);
            let p = choose|p: int| is_first_with_id(q, id, p);
            lemma_first_with_id(q, id, p);
            let q1 = q.remove(p);
            let nq = without_order(q, id);
            assert(nq == q1);
            if q1.len() == 0 {
                assert(r =~= pre + post);
                lemma_side_ids_add(pre, post);
            } else {
                let nl = LevelView { price: levels[k].price, orders: q1 };
                assert(r =~= pre + (seq![nl] + post));
                lemma_side_ids_add(pre, seq![nl] + post);
                lemma_side_ids_add(seq![nl], post);
                lemma_side_ids_single(nl);
            }
            assert forall|x: u64| true implies id_count(side_ids(r), x) + (if x == id { 1nat } else { 0nat })
                == id_count(side_ids(levels), x) by {
                lemma_queue_remove_count(q, p, x);
                lemma_id_count_add(side_ids(pre), queue_ids(q) + side_ids(post), x);
                lemma_id_count_add(queue_ids(q), side_ids(post), x);
                if q1.len() == 0 {
                    assert(queue_ids(q1) =~= Seq::<u64>::empty());
                    lemma_id_count_add(side_ids(pre), side_ids(post), x);
                } else {
                    lemma_id_count_add(side_ids(pre), queue_ids(q1) + side_ids(post), x);
                    lemma_id_count_add(queue_ids(q1), side_ids(post), x);
                }
            }
        } else {
            assert(!exists|p: int| is_first_with_id(q, id, p)) by {
                if exists|p: int| is_first_with_id(q, id, p) {
                    let p = choose|p: int| is_first_with_id(q, id, p);
                    assert(levels[k].orders[p].order_id == id);
                }
            }
            assert(without_order(q, id) == q);
            assert(r =~= levels.update(k, LevelView { price: levels[k].price, orders: q }));
            assert(r =~= levels);
        }
    } else {
        if present {
            let (i, j) = choose|i: int, j: int|
                0 <= i < levels.len() && price_of(levels[i]) == v && 0 <= j < levels[i].orders.len()
                    && (#[trigger] levels[i].orders[j]).order_id == id;
            if i < k {
                assert(price_of(levels[i]) < v);
            } else if i > k {
                assert(price_of(levels[k]) < price_of(levels[i]));
            }
        }
    }
}

/// Cancelling order `id` at `price` takes out exactly the first order with
/// that id in the queue of the level at that price, wherever it stands, and
/// keeps the other orders of that queue in their order; the level leaves the
/// side when that order was its last. The other levels stay as they were.
pub proof fn lemma_remove_takes_first_with_id(levels: Seq<LevelView>, id: u64, price: Decimal, side: Side, k: int, p: int)
    requires
        side_wf(levels, side),
        0 <= k < levels.len(),
        price_of(levels[k]) == units(price@),
        is_first_with_id(levels[k].orders, id, p),
    ensures
        levels[k].orders.len() == 1 ==> remove_from_side(levels, id, price) == levels.remove(k),
        levels[k].orders.len() > 1 ==> remove_from_side(levels, id, price) == levels.update(
            k,
            LevelView { price: levels[k].price, orders: levels[k].orders.take(p) + levels[k].orders.skip(p + 1) },
        ),
{
    let v = units(price@);
    lemma_lower_bound_exists(levels, v);
    let c = lower_bound(levels, v);
    if c < k {
        assert(price_of(levels[c]) < price_of(levels[k]));
    } else if c > k {
        assert(price_of(levels[k]) < v);
    }
    lemma_first_with_id(levels[k].orders, id, p);
    assert(levels[k].orders.remove(p) =~= levels[k].orders.take(p) + levels[k].orders.skip(p + 1));
}

} // verus!
