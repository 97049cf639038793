//! The engine: one order book per pair, and an index of the orders it has seen.
use vstd::prelude::*;
use std::collections::HashMap;
use std::collections::VecDeque;
use crate::decimal::{Decimal, units};
use crate::orders::{Order, Side, TypeOp};
use crate::trading_engine::orderbook::{
    BookView, LevelView, OrderBook, PriceLevel, book_wf, create_result, levels_view,
    remove_result, does_not_cross, id_absent_at, lemma_cancel_undoes_create,
};

verus! {

broadcast use vstd::std_specs::hash::group_hash_axioms;

/// An execution between a buy order and a sell order.
#[derive(Debug)]
pub struct Trade {
    pub buy_order_id: u64,
    pub sell_order_id: u64,
    pub amount: Decimal,
    pub price: Decimal,
    pub pair: String,
}

impl Clone for Trade {
    fn clone(&self) -> (r: Trade)
        ensures
            r == *self,
    {
        Trade {
            buy_order_id: self.buy_order_id,
            sell_order_id: self.sell_order_id,
            amount: self.amount,
            price: self.price,
            pair: self.pair.clone(),
        }
    }
}

/// The engine as the contracts see it: the books with their pairs, in the
/// order the pairs first appeared, and the index from order id to order.
pub struct EngineView {
    pub books: Seq<(Seq<char>, BookView)>,
    pub index: Map<u64, Order>,
}

pub open spec fn books_view(books: Seq<(String, OrderBook)>) -> Seq<(Seq<char>, BookView)> {
    books.map_values(|e: (String, OrderBook)| (e.0@, e.1@))
}

/// No pair has two books.
pub open spec fn pairs_distinct(books: Seq<(Seq<char>, BookView)>) -> bool {
    forall|i: int, j: int| 0 <= i < j < books.len() ==> (#[trigger] books[i]).0 != (#[trigger] books[j]).0
}

/// Every book of the engine is well formed, and no pair has two books.
pub open spec fn engine_wf(e: EngineView) -> bool {
    &&& pairs_distinct(e.books)
    &&& forall|i: int| 0 <= i < e.books.len() ==> book_wf(#[trigger] e.books[i].1)
}

/// The book at position `i` is that of `pair`.
pub open spec fn book_at(books: Seq<(Seq<char>, BookView)>, pair: Seq<char>, i: int) -> bool {
    0 <= i < books.len() && books[i].0 == pair
}

pub open spec fn empty_book() -> BookView {
    BookView { buys: Seq::empty(), sells: Seq::empty() }
}

/// The books after `order` is created in the book of its pair (a new book
/// for a pair not seen before), and the trades.
pub open spec fn create_in_books(books: Seq<(Seq<char>, BookView)>, order: Order) -> (Seq<(Seq<char>, BookView)>, Seq<Trade>) {
    if exists|i: int| book_at(books, order.pair@, i) {
        let i = choose|i: int| book_at(books, order.pair@, i);
        let r = create_result(books[i].1, order);
        (books.update(i, (order.pair@, r.0)), r.1)
    } else {
        let r = create_result(empty_book(), order);
        (books.push((order.pair@, r.0)), r.1)
    }
}

/// The books after the stored order `o` is cancelled in the book of its pair.
pub open spec fn delete_in_books(books: Seq<(Seq<char>, BookView)>, o: Order) -> Seq<(Seq<char>, BookView)> {
    if exists|i: int| book_at(books, o.pair@, i) {
        let i = choose|i: int| book_at(books, o.pair@, i);
        books.update(i, (o.pair@, remove_result(books[i].1, o.order_id, o.side, o.limit_price)))
    } else {
        books
    }
}

/// What `MatchingEngine::process` makes of the engine, and the trades. A
/// `Create` is matched in the book of its pair and recorded in the index; a
/// `Delete` of an indexed id takes that order out of the index and cancels it
/// in its book; a `Delete` of an id not in the index changes nothing.
pub open spec fn process_result(e: EngineView, order: Order) -> (EngineView, Seq<Trade>) {
    match order.type_op {
        TypeOp::Create => {
            let r = create_in_books(e.books, order);
            (EngineView { books: r.0, index: e.index.insert(order.order_id, order) }, r.1)
        },
        TypeOp::Delete => {
            if e.index.contains_key(order.order_id) {
                let o = e.index[order.order_id];
                (
                    EngineView {
                        books: delete_in_books(e.books, o),
                        index: e.index.remove(order.order_id),
                    },
                    Seq::empty(),
                )
            } else {
                (e, Seq::empty())
            }
        },
    }
}

/// The orders resting in a side, level by level, oldest first in each level.
pub open spec fn level_orders(levels: Seq<LevelView>) -> Seq<Order>
    decreases levels.len(),
{
    if levels.len() == 0 {
        Seq::empty()
    } else {
        level_orders(levels.drop_last()) + levels.last().orders
    }
}

/// The orders resting in a book: its bids, then its asks.
pub open spec fn book_orders(b: BookView) -> Seq<Order> {
    level_orders(b.buys) + level_orders(b.sells)
}

/// The orders resting in all books, book by book.
pub open spec fn engine_orders(books: Seq<(Seq<char>, BookView)>) -> Seq<Order>
    decreases books.len(),
{
    if books.len() == 0 {
        Seq::empty()
    } else {
        engine_orders(books.drop_last()) + book_orders(books.last().1)
    }
}

/// The order belongs to the account.
pub open spec fn of_account(account_id: u64) -> spec_fn(Order) -> bool {
    |o: Order| o.account_id == account_id
}

/// The matching engine: an order book per pair and the index of orders by id.
#[derive(Debug)]
pub struct MatchingEngine {
    books: Vec<(String, OrderBook)>,
    order_index: HashMap<u64, Order>,
}

impl View for MatchingEngine {
    type V = EngineView;

    closed spec fn view(&self) -> EngineView {
        EngineView { books: books_view(self.books@), index: self.order_index@ }
    }
}

fn collect_from_queue(queue: &VecDeque<Order>, account_id: u64, result: &mut Vec<Order>)
    ensures
        final(result)@ == old(result)@ + queue@.filter(of_account(account_id)),
{
    let ghost r0 = result@;
    let ghost q = queue@;
    let mut k: usize = 0;
    assert(q.take(0).filter(of_account(account_id)) =~= Seq::<Order>::empty()) by {
        reveal(Seq::filter);
    }
    assert(r0 + Seq::<Order>::empty() =~= r0);
    while k < queue.len()
        invariant
            0 <= k <= q.len(),
            queue@ == q,
            result@ == r0 + q.take(k as int).filter(of_account(account_id)),
        decreases q.len() - k,
    {
        let order = &queue[k];
        assert(q.take(k + 1).drop_last() =~= q.take(k as int));
        assert(q.take(k + 1).last() == q[k as int]);
        proof {
            reveal(Seq::filter);
        }
        if order.account_id == account_id {
            result.push(order.clone());
            assert(r0 + q.take(k + 1).filter(of_account(account_id)) =~= (r0 + q.take(k as int).filter(of_account(account_id))).push(*order));
        }
        k = k + 1;
    }
    assert(q.take(q.len() as int) =~= q);
}

fn collect_from_levels(levels: &Vec<PriceLevel>, account_id: u64, result: &mut Vec<Order>)
    ensures
        final(result)@ == old(result)@ + level_orders(levels_view(levels@)).filter(of_account(account_id)),
{
    let ghost r0 = result@;
    let ghost v = levels_view(levels@);
    let mut i: usize = 0;
    assert(level_orders(v.take(0)) =~= Seq::<Order>::empty());
    assert(Seq::<Order>::empty().filter(of_account(account_id)) =~= Seq::<Order>::empty()) by {
        reveal(Seq::filter);
    }
    assert(r0 + Seq::<Order>::empty() =~= r0);
    while i < levels.len()
        invariant
            0 <= i <= v.len(),
            v == levels_view(levels@),
            result@ == r0 + level_orders(v.take(i as int)).filter(of_account(account_id)),
        decreases v.len() - i,
    {
        let ghost before = result@;
        collect_from_queue(&levels[i].orders, account_id, result);
        proof {
            assert(v.take(i + 1).drop_last() =~= v.take(i as int));
            assert(v.take(i + 1).last() == v[i as int]);
            assert(v[i as int].orders == levels@[i as int].orders@);
            Seq::filter_distributes_over_add(level_orders(v.take(i as int)), v[i as int].orders, of_account(account_id));
            assert(result@ =~= r0 + level_orders(v.take(i + 1)).filter(of_account(account_id)));
        }
        i = i + 1;
    }
    assert(v.take(v.len() as int) =~= v);
}

/// The position of the book of `pair`, or the number of books if there is none.
fn find_book(books: &Vec<(String, OrderBook)>, pair: &String) -> (i: usize)
requires
    pairs_distinct(books_view(books@)),
    ensures
        i <= books_view(books@).len(),
        i < books_view(books@).len() ==> book_at(books_view(books@), pair@, i as int),
        i == books_view(books@).len() ==> !exists|j: int| book_at(books_view(books@), pair@, j),
        i < books_view(books@).len() ==> (choose|j: int| book_at(books_view(books@), pair@, j)) == i,
{
    let ghost b = books_view(books@);
    let mut i: usize = 0;
    while i < books.len() && !(books[i].0 == *pair)
        invariant
            0 <= i <= books@.len(),
            b == books_view(books@),
            forall|j: int| 0 <= j < i ==> (#[trigger] b[j]).0 != pair@,
        decreases books@.len() - i,
    {
        i = i + 1;
    }
    proof {
        if i < books.len() {
            assert(book_at(b, pair@, i as int));
            let c = choose|j: int| book_at(b, pair@, j);
            assert(c == i) by {
                if c < i {
                    assert(b[c].0 != pair@);
                } else if c > i {
                    assert(b[i as int].0 == b[c].0);
                }
            }
        }
    }
    i
}

impl MatchingEngine {
    #[verifier::type_invariant]
    spec fn well_formed(self) -> bool {
        engine_wf(self@)
    }

    /// An engine with no books and an empty index.
    pub fn new() -> (r: MatchingEngine)
        ensures
            r@.books == Seq::<(Seq<char>, BookView)>::empty(),
            r@.index == Map::<u64, Order>::empty(),
    {
        let r = MatchingEngine { books: Vec::new(), order_index: HashMap::new() };
        assert(r@.books =~= Seq::<(Seq<char>, BookView)>::empty());
        r
    }

    /// The books with their pairs, in the order the pairs first appeared.
    pub fn books(&self) -> (r: &Vec<(String, OrderBook)>)
        ensures
            books_view(r@) == self@.books,
    {
        &self.books
    }

    /// The orders received by `Create`, by id, until a `Delete` takes them out.
    pub fn order_index(&self) -> (r: &HashMap<u64, Order>)
        ensures
            r@ == self@.index,
    {
        &self.order_index
    }

    /// Processes one order: a `Create` is matched in the book of its pair,
    /// what is left rests there, and the order is indexed by its id; a
    /// `Delete` takes the order with its id out of the index and cancels it in
    /// its book. Trades are appended to `trades`.
    pub fn process(&mut self, order: Order, trades: &mut Vec<Trade>)
        ensures
            final(self)@ == process_result(old(self)@, order).0,
            final(trades)@ == old(trades)@ + process_result(old(self)@, order).1,
            engine_wf(final(self)@),
    {
        proof {
            use_type_invariant(&*self);
        }
        let ghost e0 = self@;
        let mut books: Vec<(String, OrderBook)> = Vec::new();
        let mut index: HashMap<u64, Order> = HashMap::new();
        assert(books_view(books@) =~= Seq::<(Seq<char>, BookView)>::empty());
        std::mem::swap(&mut books, &mut self.books);
        std::mem::swap(&mut index, &mut self.order_index);
        match order.type_op {
            TypeOp::Create => {
                let i = find_book(&books, &order.pair);
                if i < books.len() {
                    let ghost b1 = books@;
                    let (pair, mut book) = books.remove(i);
                    assert(book@ == e0.books[i as int].1 && pair@ == order.pair@) by {
                        assert(b1[i as int].1@ == books_view(b1)[i as int].1);
                    }
                    book.process_create(order.clone(), trades);
                    let ghost nb = book@;
                    books.insert(i, (pair, book));
                    proof {
                        assert(books_view(books@) =~= e0.books.update(i as int, (order.pair@, nb)));
                        assert(engine_wf(EngineView { books: books_view(books@), index: e0.index })) by {
                            assert forall|a: int, c: int| 0 <= a < c < books_view(books@).len() implies
                                (#[trigger] books_view(books@)[a]).0 != (#[trigger] books_view(books@)[c]).0 by {
                                assert(e0.books[a].0 != e0.books[c].0);
                            }
                        }
                    }
                } else {
                    let mut book = OrderBook::new();
                    assert(book@ == empty_book());
                    book.process_create(order.clone(), trades);
                    let ghost nb = book@;
                    books.push((order.pair.clone(), book));
                    proof {
                        assert(books_view(books@) =~= e0.books.push((order.pair@, nb)));
                        assert(engine_wf(EngineView { books: books_view(books@), index: e0.index })) by {
                            assert forall|a: int, c: int| 0 <= a < c < books_view(books@).len() implies
                                (#[trigger] books_view(books@)[a]).0 != (#[trigger] books_view(books@)[c]).0 by {
                                if c == e0.books.len() {
                                    assert(!book_at(e0.books, order.pair@, a));
                                }
                            }
                        }
                    }
                }
                index.insert(order.order_id, order);
            },
            TypeOp::Delete => {
                match index.remove(&order.order_id) {
                    Some(stored) => {
                        assert(e0.index.contains_key(order.order_id) && e0.index[order.order_id] == stored);
                        assert(index@ == e0.index.remove(order.order_id));
                        let i = find_book(&books, &stored.pair);
                        if i < books.len() {
                            let ghost b1 = books@;
                            let (pair, mut book) = books.remove(i);
                            assert(book@ == e0.books[i as int].1 && pair@ == stored.pair@) by {
                                assert(b1[i as int].1@ == books_view(b1)[i as int].1);
                            }
                            book.remove_order(stored.order_id, stored.side, stored.limit_price);
                            let ghost nb = book@;
                            books.insert(i, (pair, book));
                            proof {
                                assert(books_view(books@) =~= e0.books.update(i as int, (stored.pair@, nb)));
                                assert(engine_wf(EngineView { books: books_view(books@), index: e0.index })) by {
                                    assert forall|a: int, c: int| 0 <= a < c < books_view(books@).len() implies
                                        (#[trigger] books_view(books@)[a]).0 != (#[trigger] books_view(books@)[c]).0 by {
                                        assert(e0.books[a].0 != e0.books[c].0);
                                    }
                                }
                            }
                        }
                        assert(trades@ =~= old(trades)@ + Seq::<Trade>::empty());
                    },
                    None => {
                        assert(!e0.index.contains_key(order.order_id));
                        assert(index@ =~= e0.index);
                        assert(trades@ =~= old(trades)@ + Seq::<Trade>::empty());
                    },
                }
            },
        }
        self.books = books;
        self.order_index = index;
        proof {
            use_type_invariant(&*self);
        }
    }

    /// The orders of an account that rest in the books: book by book, the
    /// bids by ascending price then the asks by ascending price, oldest first
    /// within a level.
    pub fn gte_orders_by_account(&self, account_id: u64) -> (r: Vec<Order>)
        ensures
            r@ == engine_orders(self@.books).filter(of_account(account_id)),
    {
        let ghost b = self@.books;
        let mut result: Vec<Order> = Vec::new();
        let mut i: usize = 0;
        assert(engine_orders(b.take(0)) =~= Seq::<Order>::empty());
        assert(result@ =~= Seq::<Order>::empty().filter(of_account(account_id))) by {
            reveal(Seq::filter);
        }
        while i < self.books.len()
            invariant
                0 <= i <= b.len(),
                b == books_view(self.books@),
                result@ == engine_orders(b.take(i as int)).filter(of_account(account_id)),
            decreases b.len() - i,
        {
            let ghost before = result@;
            let book = &self.books[i].1;
            collect_from_levels(book.buys(), account_id, &mut result);
            collect_from_levels(book.sells(), account_id, &mut result);
            proof {
                let bo = book_orders(b[i as int].1);
                assert(b.take(i + 1).drop_last() =~= b.take(i as int));
                assert(b.take(i + 1).last() == b[i as int]);
                Seq::filter_distributes_over_add(
                    level_orders(b[i as int].1.buys),
                    level_orders(b[i as int].1.sells),
                    of_account(account_id),
                );
                Seq::filter_distributes_over_add(engine_orders(b.take(i as int)), bo, of_account(account_id));
                assert(result@ =~= engine_orders(b.take(i + 1)).filter(of_account(account_id)));
            }
            i = i + 1;
        }
        assert(b.take(b.len() as int) =~= b);
        result
    }
}


/// The order can be created and cancelled again without a trace: its pair has
/// a book, it has a positive amount, it does not cross that book, and no other
/// order with its id rests at its price on its side.
pub open spec fn rests_without_trace(e: EngineView, o: Order) -> bool {
    exists|i: int|
        {
            &&& #[trigger] book_at(e.books, o.pair@, i)
            &&& units(o.amount@) > 0
            &&& does_not_cross(e.books[i].1, o)
            &&& id_absent_at(
                if o.side == Side::Buy { e.books[i].1.buys } else { e.books[i].1.sells },
                o.order_id,
                units(o.limit_price@),
            )
        }
}

/// A `Delete` undoes a `Create`: an order that rests without a trace and whose
/// id the engine has not seen makes no trade, and deleting it by its id gives
/// the engine back as it was, books and index.
pub proof fn lemma_delete_undoes_create(e: EngineView, o: Order, d: Order)
    requires
        engine_wf(e),
        o.type_op == TypeOp::Create,
        d.type_op == TypeOp::Delete,
        d.order_id == o.order_id,
        !e.index.contains_key(o.order_id),
        rests_without_trace(e, o),
    ensures
        process_result(e, o).1 == Seq::<Trade>::empty(),
        process_result(process_result(e, o).0, d).0 == e,
{
    let w = choose|i: int|
        {
            &&& #[trigger] book_at(e.books, o.pair@, i)
            &&& units(o.amount@) > 0
            &&& does_not_cross(e.books[i].1, o)
            &&& id_absent_at(
                if o.side == Side::Buy { e.books[i].1.buys } else { e.books[i].1.sells },
                o.order_id,
                units(o.limit_price@),
            )
        };
    let i = choose|i: int| book_at(e.books, o.pair@, i);
    assert(i == w) by {
        if i != w {
            assert(e.books[i].0 == e.books[w].0);
        }
    }
    let b = e.books[i].1;
    lemma_cancel_undoes_create(b, o);
    let r = create_result(b, o);
    let e1 = process_result(e, o).0;
    assert(e1.books == e.books.update(i, (o.pair@, r.0)));
    assert(e1.index == e.index.insert(o.order_id, o));
    assert(e1.index.contains_key(d.order_id) && e1.index[d.order_id] == o);
    assert(book_at(e1.books, o.pair@, i));
    let j = choose|j: int| book_at(e1.books, o.pair@, j);
    assert(j == i) by {
        if j != i {
            assert(e.books[j].0 == e.books[i].0);
        }
    }
    assert(delete_in_books(e1.books, o) =~= e.books);
    assert(e1.index.remove(d.order_id) =~= e.index);
}

/// A `Create` is the book's own `process_create` on the book of its pair: the
/// engine reports exactly the trades that the book makes, that book becomes
/// what the book makes of it, the other books stay as they were, and the order
/// is indexed by its id.
pub proof fn lemma_create_is_book_create(e: EngineView, o: Order, i: int)
    requires
        engine_wf(e),
        o.type_op == TypeOp::Create,
        book_at(e.books, o.pair@, i),
    ensures
        process_result(e, o).1 == create_result(e.books[i].1, o).1,
        process_result(e, o).0.books.len() == e.books.len(),
        process_result(e, o).0.books[i] == (o.pair@, create_result(e.books[i].1, o).0),
        forall|j: int| 0 <= j < e.books.len() && j != i ==> #[trigger] process_result(e, o).0.books[j] == e.books[j],
        process_result(e, o).0.index == e.index.insert(o.order_id, o),
{
    let c = choose|j: int| book_at(e.books, o.pair@, j);
    assert(c == i) by {
        if c != i {
            assert(e.books[c].0 == e.books[i].0);
        }
    }
}

/// A `Create` for a pair that has no book opens one: the trades are those of
/// the order on an empty book (there are none), and the new book comes last.
pub proof fn lemma_create_opens_book(e: EngineView, o: Order)
    requires
        o.type_op == TypeOp::Create,
        !exists|i: int| book_at(e.books, o.pair@, i),
    ensures
        process_result(e, o).1 == create_result(empty_book(), o).1,
        process_result(e, o).1.len() == 0,
        process_result(e, o).0.books == e.books.push((o.pair@, create_result(empty_book(), o).0)),
        process_result(e, o).0.index == e.index.insert(o.order_id, o),
{
    if o.side == Side::Buy {
        assert(empty_book().sells.len() == 0);
    } else {
        assert(empty_book().buys.len() == 0);
    }
}

/// A `Delete` of an indexed id cancels the stored order in the book of its
/// pair (the book's own `remove_order` with the stored id, side and price),
/// leaves the other books alone, takes the id out of the index and reports no
/// trade. A `Delete` of an id that is not indexed changes nothing.
pub proof fn lemma_delete_is_book_remove(e: EngineView, d: Order, i: int)
    requires
        engine_wf(e),
        d.type_op == TypeOp::Delete,
        e.index.contains_key(d.order_id) ==> book_at(e.books, e.index[d.order_id].pair@, i),
    ensures
        process_result(e, d).1.len() == 0,
        !e.index.contains_key(d.order_id) ==> process_result(e, d).0 == e,
        e.index.contains_key(d.order_id) ==> {
            let o = e.index[d.order_id];
            let e1 = process_result(e, d).0;
            &&& e1.index == e.index.remove(d.order_id)
            &&& e1.books.len() == e.books.len()
            &&& e1.books[i] == (o.pair@, remove_result(e.books[i].1, o.order_id, o.side, o.limit_price))
            &&& forall|j: int| 0 <= j < e.books.len() && j != i ==> #[trigger] e1.books[j] == e.books[j]
        },
{
    if e.index.contains_key(d.order_id) {
        let o = e.index[d.order_id];
        let c = choose|j: int| book_at(e.books, o.pair@, j);
        assert(c == i) by {
            if c != i {
                assert(e.books[c].0 == e.books[i].0);
            }
        }
    }
}

/// Every order of a side is listed among its orders.
proof fn lemma_level_orders_contains(levels: Seq<LevelView>, i: int, k: int)
    requires
        0 <= i < levels.len(),
        0 <= k < levels[i].orders.len(),
    ensures
        level_orders(levels).contains(levels[i].orders[k]),
    decreases levels.len(),
{
    let init = levels.drop_last();
    let n = levels.len() - 1;
    let a = level_orders(init);
    let q = levels[n].orders;
    assert(level_orders(levels) == a + q);
    if i < n {
        assert(init[i] == levels[i]);
        lemma_level_orders_contains(init, i, k);
        let m = choose|m: int| 0 <= m < a.len() && a[m] == init[i].orders[k];
        assert((a + q)[m] == a[m]);
    } else {
        assert((a + q)[a.len() + k] == q[k]);
    }
}

/// Where the `m`-th listed order of a side rests: its level and position.
proof fn lemma_level_orders_source(levels: Seq<LevelView>, m: int) -> (ik: (int, int))
    requires
        0 <= m < level_orders(levels).len(),
    ensures
        0 <= ik.0 < levels.len(),
        0 <= ik.1 < levels[ik.0].orders.len(),
        level_orders(levels)[m] == levels[ik.0].orders[ik.1],
    decreases levels.len(),
{
    let init = levels.drop_last();
    let n = levels.len() - 1;
    let a = level_orders(init);
    let q = levels[n].orders;
    assert(level_orders(levels) == a + q);
    if m < a.len() {
        assert((a + q)[m] == a[m]);
        let ik = lemma_level_orders_source(init, m);
        assert(init[ik.0] == levels[ik.0]);
        ik
    } else {
        assert((a + q)[m] == q[m - a.len()]);
        (n, m - a.len())
    }
}

/// The orders resting in a book: either a bid or an ask at some level and
/// position.
pub open spec fn rests_in(b: BookView, o: Order) -> bool {
    ||| exists|i: int, k: int|
        0 <= i < b.buys.len() && 0 <= k < b.buys[i].orders.len() && #[trigger] b.buys[i].orders[k] == o
    ||| exists|i: int, k: int|
        0 <= i < b.sells.len() && 0 <= k < b.sells[i].orders.len() && #[trigger] b.sells[i].orders[k] == o
}

/// Every order resting in some book is listed among the engine's orders.
proof fn lemma_engine_orders_contains(books: Seq<(Seq<char>, BookView)>, j: int, o: Order)
    requires
        0 <= j < books.len(),
        rests_in(books[j].1, o),
    ensures
        engine_orders(books).contains(o),
    decreases books.len(),
{
    let init = books.drop_last();
    let n = books.len() - 1;
    let a = engine_orders(init);
    let b = books[n].1;
    let bb = level_orders(b.buys);
    let bs = level_orders(b.sells);
    let all = a + (bb + bs);
    assert(engine_orders(books) == all);
    if j < n {
        assert(init[j] == books[j]);
        lemma_engine_orders_contains(init, j, o);
        let m = choose|m: int| 0 <= m < a.len() && a[m] == o;
        assert(all[m] == a[m]);
    } else if exists|i: int, k: int|
        0 <= i < b.buys.len() && 0 <= k < b.buys[i].orders.len() && #[trigger] b.buys[i].orders[k] == o {
        let (i, k) = choose|i: int, k: int|
            0 <= i < b.buys.len() && 0 <= k < b.buys[i].orders.len() && #[trigger] b.buys[i].orders[k] == o;
        lemma_level_orders_contains(b.buys, i, k);
        let m = choose|m: int| 0 <= m < bb.len() && bb[m] == o;
        assert(all[a.len() + m] == bb[m]);
    } else {
        let (i, k) = choose|i: int, k: int|
            0 <= i < b.sells.len() && 0 <= k < b.sells[i].orders.len() && #[trigger] b.sells[i].orders[k] == o;
        lemma_level_orders_contains(b.sells, i, k);
        let m = choose|m: int| 0 <= m < bs.len() && bs[m] == o;
        assert(all[a.len() + bb.len() + m] == bs[m]);
    }
}

/// The book where the `m`-th of the engine's orders rests.
proof fn lemma_engine_orders_source(books: Seq<(Seq<char>, BookView)>, m: int) -> (j: int)
    requires
        0 <= m < engine_orders(books).len(),
    ensures
        0 <= j < books.len(),
        rests_in(books[j].1, engine_orders(books)[m]),
    decreases books.len(),
{
    let init = books.drop_last();
    let n = books.len() - 1;
    let a = engine_orders(init);
    let b = books[n].1;
    let bb = level_orders(b.buys);
    let bs = level_orders(b.sells);
    let all = a + (bb + bs);
    assert(engine_orders(books) == all);
    if m < a.len() {
        assert(all[m] == a[m]);
        let j = lemma_engine_orders_source(init, m);
        assert(init[j] == books[j]);
        j
    } else if m < a.len() + bb.len() {
        assert(all[m] == bb[m - a.len()]);
        let ik = lemma_level_orders_source(b.buys, m - a.len());
        assert(b.buys[ik.0].orders[ik.1] == all[m]);
        n
    } else {
        assert(all[m] == bs[m - a.len() - bb.len()]);
        let ik = lemma_level_orders_source(b.sells, m - a.len() - bb.len());
        assert(b.sells[ik.0].orders[ik.1] == all[m]);
        n
    }
}

/// The listing of an account's orders (what `gte_orders_by_account` returns)
/// is complete and sound: every order of the account resting in any book, at
/// any level and any position in its queue, is listed, and every listed
/// order is one of the account's resting orders.
pub proof fn lemma_account_orders_complete(books: Seq<(Seq<char>, BookView)>, a: u64)
    ensures
        forall|j: int, o: Order|
            0 <= j < books.len() && #[trigger] rests_in(books[j].1, o) && o.account_id == a ==> engine_orders(
                books,
            ).filter(of_account(a)).contains(o),
        forall|m: int|
            0 <= m < engine_orders(books).filter(of_account(a)).len() ==> {
                let o = #[trigger] engine_orders(books).filter(of_account(a))[m];
                &&& o.account_id == a
                &&& exists|j: int| 0 <= j < books.len() && #[trigger] rests_in(books[j].1, o)
            },
{
    let all = engine_orders(books);
    assert forall|j: int, o: Order|
        0 <= j < books.len() && #[trigger] rests_in(books[j].1, o) && o.account_id == a implies all.filter(
        of_account(a),
    ).contains(o) by {
        lemma_engine_orders_contains(books, j, o);
        let m = choose|m: int| 0 <= m < all.len() && all[m] == o;
        all.lemma_filter_contains(of_account(a), m);
    }
    assert forall|m: int| 0 <= m < all.filter(of_account(a)).len() implies {
        let o = #[trigger] all.filter(of_account(a))[m];
        &&& o.account_id == a
        &&& exists|j: int| 0 <= j < books.len() && #[trigger] rests_in(books[j].1, o)
    } by {
        let o = all.filter(of_account(a))[m];
        all.lemma_filter_pred(of_account(a), m);
        assert(all.filter(of_account(a)).contains(o));
        all.lemma_filter_contains_rev(of_account(a), o);
        let w = choose|w: int| 0 <= w < all.len() && all[w] == o;
        let j = lemma_engine_orders_source(books, w);
        assert(rests_in(books[j].1, o));
    }
}

} // verus!
