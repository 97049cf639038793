//! Selecting trades for a query: by pair, sorted by price or amount in either
//! direction (ties keep their order), then a page of them.
use vstd::prelude::*;
use vstd::string::StrSliceExecFns;
use crate::decimal::{Decimal, units};
use crate::trading_engine::matching_engine::Trade;

verus! {

broadcast use vstd::string::group_string_axioms;

/// A query for trades: an optional pair, the sort key (`"amount"`, or by
/// price otherwise), the direction (`"desc"` in any letter case, or
/// ascending otherwise), how many to skip and how many to return (0 for all).
#[derive(Debug)]
pub struct TradesQuery {
    pub pair: Option<String>,
    pub sort: String,
    pub order: String,
    pub skip: usize,
    pub limit: usize,
}

impl Default for TradesQuery {
    fn default() -> (r: TradesQuery)
        ensures
            r.pair is None,
            r.sort@ == Seq::<char>::empty(),
            r.order@ == Seq::<char>::empty(),
            r.skip == 0,
            r.limit == 0,
    {
        TradesQuery { pair: None, sort: String::new(), order: String::new(), skip: 0, limit: 0 }
    }
}

/// The sort key a query names when it gives none: `"price"`.
pub fn default_sort() -> (r: String)
    ensures
        r@ == "price"@,
{
    "price".to_string()
}

/// The direction a query names when it gives none: `"asc"`.
pub fn default_order() -> (r: String)
    ensures
        r@ == "asc"@,
{
    "asc".to_string()
}

/// The code of `char::to_ascii_lowercase(c)`: 'A'..='Z' become 'a'..='z',
/// every other char is unchanged.
pub open spec fn ascii_lower_code(c: char) -> u32 {
    let u = c as u32;
    if 65 <= u && u <= 90 {
        (u + 32) as u32
    } else {
        u
    }
}

/// The two strings are equal once ASCII letters are lowered (what
/// `str::eq_ignore_ascii_case` decides).
pub open spec fn eq_ignoring_ascii_case(a: Seq<char>, b: Seq<char>) -> bool {
    &&& a.len() == b.len()
    &&& forall|i: int| 0 <= i < a.len() ==> ascii_lower_code(#[trigger] a[i]) == ascii_lower_code(b[i])
}

fn lower_code(c: char) -> (r: u32)
    ensures
        r == ascii_lower_code(c),
{
    let u = c as u32;
    if 65 <= u && u <= 90 {
        u + 32
    } else {
        u
    }
}

/// The two strings are an ASCII case-insensitive match.
fn eq_ignore_ascii_case(a: &str, b: &str) -> (r: bool)
    ensures
        r == eq_ignoring_ascii_case(a@, b@),
{
    let n = a.unicode_len();
    if n != b.unicode_len() {
        return false;
    }
    let mut i: usize = 0;
    while i < n
        invariant
            0 <= i <= n,
            n == a@.len(),
            n == b@.len(),
            forall|j: int| 0 <= j < i ==> ascii_lower_code(#[trigger] a@[j]) == ascii_lower_code(b@[j]),
        decreases n - i,
    {
        if lower_code(a.get_char(i)) != lower_code(b.get_char(i)) {
            return false;
        }
        i = i + 1;
    }
    true
}

/// The query sorts by amount (by price otherwise).
pub open spec fn sorts_by_amount(q: TradesQuery) -> bool {
    q.sort@ == "amount"@
}

/// The query sorts in descending order (ascending otherwise).
pub open spec fn sorts_descending(q: TradesQuery) -> bool {
    eq_ignoring_ascii_case(q.order@, "desc"@)
}

/// The number a trade is sorted by.
pub open spec fn sort_key(t: Trade, by_amount: bool) -> int {
    if by_amount { units(t.amount@) } else { units(t.price@) }
}

/// Key `x` comes strictly before key `y` in the given direction.
pub open spec fn key_before(x: int, y: int, descending: bool) -> bool {
    if descending { x > y } else { x < y }
}

/// Index `k` occurs in `p`.
pub open spec fn index_listed(p: Seq<int>, k: int) -> bool {
    exists|i: int| 0 <= i < p.len() && p[i] == k
}

/// `p` lists each index below `n` exactly once.
pub open spec fn is_index_permutation(p: Seq<int>, n: nat) -> bool {
    &&& p.len() == n
    &&& forall|i: int| 0 <= i < n ==> 0 <= #[trigger] p[i] < n
    &&& forall|i: int, j: int| 0 <= i < j < n ==> #[trigger] p[i] != #[trigger] p[j]
    &&& forall|k: int| 0 <= k < n ==> #[trigger] index_listed(p, k)
}

/// `r` is `s` sorted by key in the given direction, trades with equal keys in
/// the order they had in `s`: `r[i] == s[p[i]]`, and the pairs (key, p[i])
/// increase strictly along `r`. Exactly one sequence is such a sort of `s`.
pub open spec fn is_stable_sort(s: Seq<Trade>, r: Seq<Trade>, by_amount: bool, descending: bool) -> bool {
    exists|p: Seq<int>| sorts_with(s, r, p, by_amount, descending)
}

/// `r` is the sort of `s` that takes its `i`-th trade from position `p[i]`.
pub open spec fn sorts_with(s: Seq<Trade>, r: Seq<Trade>, p: Seq<int>, by_amount: bool, descending: bool) -> bool {
    &&& is_index_permutation(p, s.len())
    &&& r.len() == s.len()
    &&& forall|i: int| 0 <= i < r.len() ==> r[i] == s[#[trigger] p[i]]
    &&& forall|i: int, j: int|
        0 <= i < j < r.len() ==> key_before(sort_key(#[trigger] r[i], by_amount), sort_key(#[trigger] r[j], by_amount), descending)
            || (sort_key(r[i], by_amount) == sort_key(r[j], by_amount) && p[i] < p[j])
}

/// Position `a` of `s` comes before position `b` in a stable sort.
pub open spec fn index_precedes(s: Seq<Trade>, a: int, b: int, by_amount: bool, descending: bool) -> bool {
    key_before(sort_key(s[a], by_amount), sort_key(s[b], by_amount), descending)
        || (sort_key(s[a], by_amount) == sort_key(s[b], by_amount) && a < b)
}

proof fn lemma_sorts_agree_upto(
    s: Seq<Trade>,
    r1: Seq<Trade>,
    p1: Seq<int>,
    r2: Seq<Trade>,
    p2: Seq<int>,
    by_amount: bool,
    descending: bool,
    i: int,
)
    requires
        sorts_with(s, r1, p1, by_amount, descending),
        sorts_with(s, r2, p2, by_amount, descending),
        0 <= i <= s.len(),
    ensures
        forall|j: int| 0 <= j < i ==> p1[j] == p2[j],
    decreases i,
{
    if i > 0 {
        lemma_sorts_agree_upto(s, r1, p1, r2, p2, by_amount, descending, i - 1);
        let j = i - 1;
        let a = p1[j];
        let b = p2[j];
        if a != b {
            assert(r1[j] == s[a] && r2[j] == s[b]);
            if index_precedes(s, a, b, by_amount, descending) {
                assert(index_listed(p2, a));
                let m = choose|m: int| 0 <= m < p2.len() && p2[m] == a;
                if m < j {
                    assert(p1[m] == p2[m]);
                    assert(p1[m] != p1[j]);
                } else {
                    assert(m != j);
                    assert(r2[m] == s[a]);
                }
            } else {
                assert(index_listed(p1, b));
                let m = choose|m: int| 0 <= m < p1.len() && p1[m] == b;
                if m < j {
                    assert(p1[m] == p2[m]);
                    assert(p2[m] != p2[j]);
                } else {
                    assert(m != j);
                    assert(r1[m] == s[b]);
                }
            }
        }
    }
}

/// A sequence has exactly one stable sort: two stable sorts of the same
/// trades by the same key and direction are equal.
pub proof fn lemma_stable_sort_unique(s: Seq<Trade>, r1: Seq<Trade>, r2: Seq<Trade>, by_amount: bool, descending: bool)
    requires
        is_stable_sort(s, r1, by_amount, descending),
        is_stable_sort(s, r2, by_amount, descending),
    ensures
        r1 == r2,
{
    let p1 = choose|p: Seq<int>| sorts_with(s, r1, p, by_amount, descending);
    let p2 = choose|p: Seq<int>| sorts_with(s, r2, p, by_amount, descending);
    lemma_sorts_agree_upto(s, r1, p1, r2, p2, by_amount, descending, s.len() as int);
    assert forall|i: int| 0 <= i < r1.len() implies r1[i] == r2[i] by {
        assert(r1[i] == s[p1[i]] && r2[i] == s[p2[i]]);
    }
    assert(r1 =~= r2);
}

/// The stable sort of `s`.
pub open spec fn stable_sorted(s: Seq<Trade>, by_amount: bool, descending: bool) -> Seq<Trade> {
    choose|r: Seq<Trade>| is_stable_sort(s, r, by_amount, descending)
}

/// The trades that a query selects from `trades`.
pub open spec fn query_result(trades: Seq<Trade>, q: TradesQuery) -> Seq<Trade> {
    page(
        stable_sorted(selected(trades, q.pair), sorts_by_amount(q), sorts_descending(q)),
        q.skip as nat,
        q.limit as nat,
    )
}

/// The trades of the pair, in their order.
pub open spec fn of_pair(pair: Seq<char>) -> spec_fn(Trade) -> bool {
    |t: Trade| t.pair@ == pair
}

/// What the pair filter keeps.
pub open spec fn selected(s: Seq<Trade>, pair: Option<String>) -> Seq<Trade> {
    match pair {
        Some(p) => s.filter(of_pair(p@)),
        None => s,
    }
}

/// Skip `skip` trades, then keep `limit` of them (all of them when `limit` is 0).
pub open spec fn page(s: Seq<Trade>, skip: nat, limit: nat) -> Seq<Trade> {
    let start = if skip <= s.len() { skip as int } else { s.len() as int };
    let end = if limit == 0 || start + limit > s.len() { s.len() as int } else { start + limit };
    s.subrange(start, end)
}

/// The key of a trade.
fn key_of(t: &Trade, by_amount: bool) -> (k: Decimal)
    ensures
        units(k@) == sort_key(*t, by_amount),
{
    if by_amount { t.amount } else { t.price }
}

/// Key `x` comes strictly before key `y`.
fn comes_before(x: &Decimal, y: &Decimal, descending: bool) -> (r: bool)
    ensures
        r == key_before(units(x@), units(y@), descending),
{
    if descending { x.greater_than(y) } else { x.less_than(y) }
}

/// Sorts trades by price or amount, ascending or descending, keeping trades
/// with equal keys in their order.
pub fn sort_trades(trades: Vec<Trade>, by_amount: bool, descending: bool) -> (r: Vec<Trade>)
    ensures
        is_stable_sort(trades@, r@, by_amount, descending),
{
    let ghost s = trades@;
    let mut out: Vec<Trade> = Vec::new();
    let ghost mut p: Seq<int> = Seq::empty();
    let mut k: usize = 0;
    while k < trades.len()
        invariant
            0 <= k <= s.len(),
            trades@ == s,
            out@.len() == k,
            is_index_permutation(p, k as nat),
            forall|i: int| 0 <= i < k ==> out@[i] == s[#[trigger] p[i]],
            forall|i: int, j: int|
                0 <= i < j < k ==> key_before(sort_key(#[trigger] out@[i], by_amount), sort_key(#[trigger] out@[j], by_amount), descending)
                    || (sort_key(out@[i], by_amount) == sort_key(out@[j], by_amount) && p[i] < p[j]),
        decreases s.len() - k,
    {
        let x = trades[k].clone();
        let xk = key_of(&x, by_amount);
        let ghost kx = sort_key(x, by_amount);
        let mut pos: usize = k;
        while pos > 0 && comes_before(&xk, &key_of(&out[pos - 1], by_amount), descending)
            invariant
                0 <= pos <= k,
                out@.len() == k,
                units(xk@) == kx,
                forall|i: int| pos <= i < k ==> key_before(kx, sort_key(#[trigger] out@[i], by_amount), descending),
            decreases pos,
        {
            pos = pos - 1;
        }
        let ghost o = out@;
        proof {
            assert forall|i: int| 0 <= i < pos implies !key_before(kx, sort_key(#[trigger] o[i], by_amount), descending) by {
                if i < pos - 1 {
                    assert(key_before(sort_key(o[i], by_amount), sort_key(o[pos - 1], by_amount), descending)
                        || sort_key(o[i], by_amount) == sort_key(o[pos - 1], by_amount));
                }
            }
        }
        out.insert(pos, x);
        proof {
            let p0 = p;
            p = p.insert(pos as int, k as int);
            assert forall|m: int| 0 <= m < k + 1 implies #[trigger] index_listed(p, m) by {
                if m == k {
                    assert(p[pos as int] == k);
                } else {
                    assert(index_listed(p0, m));
                    let w = choose|w: int| 0 <= w < p0.len() && p0[w] == m;
                    if w < pos {
                        assert(p[w] == m);
                    } else {
                        assert(p[w + 1] == m);
                    }
                }
            }
            assert forall|i: int| 0 <= i < k + 1 implies out@[i] == s[#[trigger] p[i]] by {
                if i < pos {
                    assert(out@[i] == o[i] && p[i] == p0[i]);
                } else if i > pos {
                    assert(out@[i] == o[i - 1] && p[i] == p0[i - 1]);
                }
            }
            assert forall|i: int| 0 <= i < k + 1 implies 0 <= #[trigger] p[i] < k + 1 by {
                if i < pos {
                    assert(p[i] == p0[i]);
                } else if i > pos {
                    assert(p[i] == p0[i - 1]);
                }
            }
            assert forall|i: int, j: int| 0 <= i < j < k + 1 implies #[trigger] p[i] != #[trigger] p[j] by {
                if i < pos && j < pos {
                    assert(p[i] == p0[i] && p[j] == p0[j]);
                } else if i < pos && j == pos {
                    assert(p[i] == p0[i]);
                } else if i < pos {
                    assert(p[i] == p0[i] && p[j] == p0[j - 1]);
                } else if i == pos {
                    assert(p[j] == p0[j - 1]);
                } else {
                    assert(p[i] == p0[i - 1] && p[j] == p0[j - 1]);
                }
            }
            assert forall|i: int, j: int| 0 <= i < j < k + 1 implies key_before(
                sort_key(#[trigger] out@[i], by_amount),
                sort_key(#[trigger] out@[j], by_amount),
                descending,
            ) || (sort_key(out@[i], by_amount) == sort_key(out@[j], by_amount) && p[i] < p[j]) by {
                if i < pos && j < pos {
                    assert(out@[i] == o[i] && out@[j] == o[j] && p[i] == p0[i] && p[j] == p0[j]);
                } else if i < pos && j == pos {
                    assert(out@[i] == o[i] && p[i] == p0[i]);
                    assert(!key_before(kx, sort_key(o[i], by_amount), descending));
                } else if i < pos {
                    assert(out@[i] == o[i] && out@[j] == o[j - 1] && p[i] == p0[i] && p[j] == p0[j - 1]);
                } else if i == pos {
                    assert(out@[j] == o[j - 1]);
                    assert(key_before(kx, sort_key(o[j - 1], by_amount), descending));
                } else {
                    assert(out@[i] == o[i - 1] && out@[j] == o[j - 1] && p[i] == p0[i - 1] && p[j] == p0[j - 1]);
                }
            }
        }
        k = k + 1;
    }
    assert(sorts_with(s, out@, p, by_amount, descending));
    out
}

/// The trades that `query` selects: those of its pair (all, when it names
/// none), sorted as it asks with ties in their order, then its page.
pub fn query_trades(trades: Vec<Trade>, query: &TradesQuery) -> (r: Vec<Trade>)
    ensures
        r@ == query_result(trades@, *query),
        query.pair matches Some(p) ==> forall|i: int| 0 <= i < r@.len() ==> (#[trigger] r@[i]).pair@ == p@,
        forall|i: int, j: int|
            0 <= i < j < r@.len() ==> !key_before(
                sort_key(#[trigger] r@[j], sorts_by_amount(*query)),
                sort_key(#[trigger] r@[i], sorts_by_amount(*query)),
                sorts_descending(*query),
            ),
        query.limit > 0 ==> r@.len() <= query.limit,
{
    let ghost s = trades@;
    let mut kept: Vec<Trade> = Vec::new();
    match &query.pair {
        Some(pair) => {
            let mut i: usize = 0;
            assert(s.take(0).filter(of_pair(pair@)) =~= Seq::<Trade>::empty()) by {
                reveal(Seq::filter);
            }
            while i < trades.len()
                invariant
                    0 <= i <= s.len(),
                    trades@ == s,
                    kept@ == s.take(i as int).filter(of_pair(pair@)),
                decreases s.len() - i,
            {
                assert(s.take(i + 1).drop_last() =~= s.take(i as int));
                assert(s.take(i + 1).last() == s[i as int]);
                proof {
                    reveal(Seq::filter);
                }
                if trades[i].pair == *pair {
                    kept.push(trades[i].clone());
                }
                i = i + 1;
            }
            assert(s.take(s.len() as int) =~= s);
        },
        None => {
            kept = trades;
        },
    }
    let amount = "amount".to_string();
    let by_amount = query.sort == amount;
    let descending = eq_ignore_ascii_case(query.order.as_str(), "desc");
    let sorted = sort_trades(kept, by_amount, descending);
    let n = sorted.len();
    let start = if query.skip <= n { query.skip } else { n };
    let end = if query.limit == 0 || query.limit > n - start { n } else { start + query.limit };
    let mut r: Vec<Trade> = Vec::new();
    let mut i: usize = start;
    while i < end
        invariant
            start <= i <= end <= n,
            n == sorted@.len(),
            r@ == sorted@.subrange(start as int, i as int),
        decreases end - i,
    {
        r.push(sorted[i].clone());
        assert(r@ =~= sorted@.subrange(start as int, i + 1));
        i = i + 1;
    }
    assert(r@ == page(sorted@, query.skip as nat, query.limit as nat));
    proof {
        let sel = selected(s, query.pair);
        let p = choose|p: Seq<int>| sorts_with(sel, sorted@, p, by_amount, descending);
        lemma_stable_sort_unique(sel, sorted@, stable_sorted(sel, by_amount, descending), by_amount, descending);
        assert forall|i: int, j: int| 0 <= i < j < r@.len() implies !key_before(
            sort_key(#[trigger] r@[j], by_amount),
            sort_key(#[trigger] r@[i], by_amount),
            descending,
        ) by {
            assert(r@[i] == sorted@[start + i] && r@[j] == sorted@[start + j]);
        }
        if query.pair is Some {
            let pr = query.pair->0;
            assert forall|i: int| 0 <= i < r@.len() implies (#[trigger] r@[i]).pair@ == pr@ by {
                assert(r@[i] == sorted@[start + i]);
                let k = p[start + i];
                assert(sorted@[start + i] == sel[k]);
                s.lemma_filter_pred(of_pair(pr@), k);
            }
        }
    }
    r
}


/// Pages are slices of one ordering: what a query selects is the slice
/// `min(skip, n) .. min(skip + limit, n)` (to `n` when `limit` is 0) of what the
/// same query selects with no skip and no limit, `n` being the number of those.
pub proof fn lemma_pages_are_slices(trades: Seq<Trade>, q: TradesQuery, all: TradesQuery)
    requires
        all.pair == q.pair,
        all.sort@ == q.sort@,
        all.order@ == q.order@,
        all.skip == 0,
        all.limit == 0,
    ensures
        ({
            let full = query_result(trades, all);
            let n = full.len() as int;
            let start = if q.skip <= n { q.skip as int } else { n };
            let end = if q.limit == 0 || start + q.limit > n { n } else { start + q.limit };
            query_result(trades, q) == full.subrange(start, end)
        }),
{
    let sorted = stable_sorted(selected(trades, q.pair), sorts_by_amount(q), sorts_descending(q));
    assert(query_result(trades, all) =~= sorted);
}

/// How far back a trade of key `kx` slides from position `pos` of a sorted
/// sequence: past every trade whose key it comes strictly before.
spec fn slide(r: Seq<Trade>, kx: int, by_amount: bool, descending: bool, pos: int) -> int
    decreases pos,
{
    if pos > 0 && key_before(kx, sort_key(r[pos - 1], by_amount), descending) {
        slide(r, kx, by_amount, descending, pos - 1)
    } else {
        pos
    }
}

proof fn lemma_slide(r: Seq<Trade>, kx: int, by_amount: bool, descending: bool, pos: int)
    requires
        0 <= pos <= r.len(),
    ensures
        0 <= slide(r, kx, by_amount, descending, pos) <= pos,
        forall|i: int|
            slide(r, kx, by_amount, descending, pos) <= i < pos ==> key_before(
                kx,
                sort_key(#[trigger] r[i], by_amount),
                descending,
            ),
        slide(r, kx, by_amount, descending, pos) == 0 || !key_before(
            kx,
            sort_key(r[slide(r, kx, by_amount, descending, pos) - 1], by_amount),
            descending,
        ),
    decreases pos,
{
    if pos > 0 && key_before(kx, sort_key(r[pos - 1], by_amount), descending) {
        lemma_slide(r, kx, by_amount, descending, pos - 1);
    }
}

/// Every sequence of trades has a stable sort, by either key in either
/// direction.
pub proof fn lemma_stable_sort_exists(s: Seq<Trade>, by_amount: bool, descending: bool)
    ensures
        is_stable_sort(s, stable_sorted(s, by_amount, descending), by_amount, descending),
    decreases s.len(),
{
    if s.len() == 0 {
        let p = Seq::<int>::empty();
        assert(sorts_with(s, Seq::<Trade>::empty(), p, by_amount, descending));
        assert(is_stable_sort(s, Seq::<Trade>::empty(), by_amount, descending));
    } else {
        let k = s.len() - 1;
        let s0 = s.drop_last();
        lemma_stable_sort_exists(s0, by_amount, descending);
        let o = stable_sorted(s0, by_amount, descending);
        let p0 = choose|p: Seq<int>| sorts_with(s0, o, p, by_amount, descending);
        let x = s[k];
        let kx = sort_key(x, by_amount);
        lemma_slide(o, kx, by_amount, descending, k);
        let pos = slide(o, kx, by_amount, descending, k);
        assert forall|i: int| 0 <= i < pos implies !key_before(kx, sort_key(#[trigger] o[i], by_amount), descending) by {
            if i < pos - 1 {
                assert(key_before(sort_key(o[i], by_amount), sort_key(o[pos - 1], by_amount), descending)
                    || sort_key(o[i], by_amount) == sort_key(o[pos - 1], by_amount));
            }
        }
        let out = o.insert(pos, x);
        let p = p0.insert(pos, k);
        assert forall|m: int| 0 <= m < k + 1 implies #[trigger] index_listed(p, m) by {
            if m == k {
                assert(p[pos] == k);
            } else {
                assert(index_listed(p0, m));
                let w = choose|w: int| 0 <= w < p0.len() && p0[w] == m;
                if w < pos {
                    assert(p[w] == m);
                } else {
                    assert(p[w + 1] == m);
                }
            }
        }
        assert forall|i: int| 0 <= i < k + 1 implies 0 <= #[trigger] p[i] < k + 1 by {
            if i < pos {
                assert(p[i] == p0[i]);
            } else if i > pos {
                assert(p[i] == p0[i - 1]);
            }
        }
        assert forall|i: int| 0 <= i < k + 1 implies out[i] == s[#[trigger] p[i]] by {
            if i < pos {
                assert(out[i] == o[i] && p[i] == p0[i]);
                assert(o[i] == s0[p0[i]]);
            } else if i > pos {
                assert(out[i] == o[i - 1] && p[i] == p0[i - 1]);
                assert(o[i - 1] == s0[p0[i - 1]]);
            }
        }
        assert forall|i: int, j: int| 0 <= i < j < k + 1 implies #[trigger] p[i] != #[trigger] p[j] by {
            if i < pos && j < pos {
                assert(p[i] == p0[i] && p[j] == p0[j]);
            } else if i < pos && j == pos {
                assert(p[i] == p0[i]);
            } else if i < pos {
                assert(p[i] == p0[i] && p[j] == p0[j - 1]);
            } else if i == pos {
                assert(p[j] == p0[j - 1]);
            } else {
                assert(p[i] == p0[i - 1] && p[j] == p0[j - 1]);
            }
        }
        assert forall|i: int, j: int| 0 <= i < j < k + 1 implies key_before(
            sort_key(#[trigger] out[i], by_amount),
            sort_key(#[trigger] out[j], by_amount),
            descending,
        ) || (sort_key(out[i], by_amount) == sort_key(out[j], by_amount) && p[i] < p[j]) by {
            if i < pos && j < pos {
                assert(out[i] == o[i] && out[j] == o[j] && p[i] == p0[i] && p[j] == p0[j]);
            } else if i < pos && j == pos {
                assert(out[i] == o[i] && p[i] == p0[i]);
                assert(!key_before(kx, sort_key(o[i], by_amount), descending));
            } else if i < pos {
                assert(out[i] == o[i] && out[j] == o[j - 1] && p[i] == p0[i] && p[j] == p0[j - 1]);
            } else if i == pos {
                assert(out[j] == o[j - 1]);
                assert(key_before(kx, sort_key(o[j - 1], by_amount), descending));
            } else {
                assert(out[i] == o[i - 1] && out[j] == o[j - 1] && p[i] == p0[i - 1] && p[j] == p0[j - 1]);
            }
        }
        assert(sorts_with(s, out, p, by_amount, descending));
        assert(is_stable_sort(s, out, by_amount, descending));
    }
}

/// A stable sort orders trades by the value of the key: by amount, or else by
/// price, ascending or descending. It has the length of its input, every
/// trade of the input is in it, and every trade in it comes from the input.
pub proof fn lemma_stable_sort_orders_by_value(s: Seq<Trade>, r: Seq<Trade>, by_amount: bool, descending: bool)
    requires
        is_stable_sort(s, r, by_amount, descending),
    ensures
        r.len() == s.len(),
        forall|k: int| 0 <= k < s.len() ==> r.contains(#[trigger] s[k]),
        forall|i: int| 0 <= i < r.len() ==> s.contains(#[trigger] r[i]),
        forall|i: int, j: int|
            #![trigger r[i], r[j]]
            0 <= i < j < r.len() && by_amount && !descending ==> units(r[i].amount@) <= units(r[j].amount@),
        forall|i: int, j: int|
            #![trigger r[i], r[j]]
            0 <= i < j < r.len() && by_amount && descending ==> units(r[i].amount@) >= units(r[j].amount@),
        forall|i: int, j: int|
            #![trigger r[i], r[j]]
            0 <= i < j < r.len() && !by_amount && !descending ==> units(r[i].price@) <= units(r[j].price@),
        forall|i: int, j: int|
            #![trigger r[i], r[j]]
            0 <= i < j < r.len() && !by_amount && descending ==> units(r[i].price@) >= units(r[j].price@),
{
    let p = choose|p: Seq<int>| sorts_with(s, r, p, by_amount, descending);
    assert forall|k: int| 0 <= k < s.len() implies r.contains(#[trigger] s[k]) by {
        assert(index_listed(p, k));
        let m = choose|m: int| 0 <= m < p.len() && p[m] == k;
        assert(r[m] == s[k]);
    }
    assert forall|i: int| 0 <= i < r.len() implies s.contains(#[trigger] r[i]) by {
        assert(r[i] == s[p[i]]);
    }
}

/// What a query returns has the length of its page: with `n` the trades of
/// its pair (all trades when it names none) and `start = min(skip, n)`, it
/// holds `n - start` trades when `limit` is 0 or reaches past the end, and
/// `limit` trades otherwise. With no skip and no limit it is the stable sort
/// of those trades.
pub proof fn lemma_query_length(trades: Seq<Trade>, q: TradesQuery)
    ensures
        ({
            let n = selected(trades, q.pair).len() as int;
            let start = if q.skip <= n { q.skip as int } else { n };
            query_result(trades, q).len() == if q.limit == 0 || start + q.limit > n {
                n - start
            } else {
                q.limit as int
            }
        }),
        q.skip == 0 && q.limit == 0 ==> is_stable_sort(
            selected(trades, q.pair),
            query_result(trades, q),
            sorts_by_amount(q),
            sorts_descending(q),
        ),
{
    let sel = selected(trades, q.pair);
    lemma_stable_sort_exists(sel, sorts_by_amount(q), sorts_descending(q));
    let sorted = stable_sorted(sel, sorts_by_amount(q), sorts_descending(q));
    let p = choose|p: Seq<int>| sorts_with(sel, sorted, p, sorts_by_amount(q), sorts_descending(q));
    assert(sorted.len() == sel.len());
    if q.skip == 0 && q.limit == 0 {
        assert(query_result(trades, q) =~= sorted);
    }
}

/// Sorting trades that are already in order by the value of the key changes
/// nothing: in particular trades of equal value keep their order.
pub proof fn lemma_sorted_input_unchanged(s: Seq<Trade>, r: Seq<Trade>, by_amount: bool, descending: bool)
    requires
        is_stable_sort(s, r, by_amount, descending),
        forall|i: int, j: int|
            #![trigger s[i], s[j]]
            0 <= i < j < s.len() ==> {
                let x = if by_amount { units(s[i].amount@) } else { units(s[i].price@) };
                let y = if by_amount { units(s[j].amount@) } else { units(s[j].price@) };
                if descending { x >= y } else { x <= y }
            },
    ensures
        r == s,
{
    let id = Seq::new(s.len(), |i: int| i);
    assert forall|k: int| 0 <= k < s.len() implies #[trigger] index_listed(id, k) by {
        assert(id[k] == k);
    }
    assert forall|i: int, j: int| 0 <= i < j < s.len() implies key_before(
        sort_key(#[trigger] s[i], by_amount),
        sort_key(#[trigger] s[j], by_amount),
        descending,
    ) || (sort_key(s[i], by_amount) == sort_key(s[j], by_amount) && id[i] < id[j]) by {}
    assert(sorts_with(s, s, id, by_amount, descending));
    assert(is_stable_sort(s, s, by_amount, descending));
    lemma_stable_sort_unique(s, r, s, by_amount, descending);
}

/// With no skip and no limit, a query returns every trade of its pair (every
/// trade when it names none) and only those: each such trade of the input is
/// in the result, and each trade of the result is a trade of the input of
/// that pair.
pub proof fn lemma_query_selects_pair(trades: Seq<Trade>, q: TradesQuery)
    requires
        q.skip == 0,
        q.limit == 0,
    ensures
        forall|k: int|
            0 <= k < trades.len() && (q.pair matches Some(p) ==> trades[k].pair@ == p@) ==> query_result(
                trades,
                q,
            ).contains(#[trigger] trades[k]),
        forall|i: int|
            0 <= i < query_result(trades, q).len() ==> trades.contains(#[trigger] query_result(trades, q)[i])
                && (q.pair matches Some(p) ==> query_result(trades, q)[i].pair@ == p@),
{
    let sel = selected(trades, q.pair);
    let r = query_result(trades, q);
    lemma_query_length(trades, q);
    lemma_stable_sort_orders_by_value(sel, r, sorts_by_amount(q), sorts_descending(q));
    assert forall|k: int|
        0 <= k < trades.len() && (q.pair matches Some(p) ==> trades[k].pair@ == p@) implies r.contains(
        #[trigger] trades[k],
    ) by {
        match q.pair {
            Some(p) => {
                trades.lemma_filter_contains(of_pair(p@), k);
                let m = choose|m: int| 0 <= m < sel.len() && sel[m] == trades[k];
                assert(r.contains(sel[m]));
            },
            None => {
                assert(r.contains(sel[k]));
            },
        }
    }
    assert forall|i: int| 0 <= i < r.len() implies trades.contains(#[trigger] r[i]) && (q.pair matches Some(
        p,
    ) ==> r[i].pair@ == p@) by {
        assert(sel.contains(r[i]));
        match q.pair {
            Some(p) => {
                trades.lemma_filter_contains_rev(of_pair(p@), r[i]);
            },
            None => {},
        }
    }
}

} // verus!
