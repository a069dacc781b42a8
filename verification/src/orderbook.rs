//! Order books: price levels, their ordering (bids from the highest price,
//! asks from the lowest), and the bookkeeping of updates and filled levels.
use vstd::prelude::*;
use crate::decimal::{Dec, lt, lemma_le_trans, nonneg, is_wf};
use crate::func::OrderSide;

verus! {

/// One price level of a book: a price and the quantity offered at it.
#[derive(Debug, Clone, Copy)]
pub struct Level {
    pub price: Dec,
    pub qty: Dec,
}

/// A market's book: bids (buyers) and asks (sellers), with the update id that
/// the exchange gave it.
#[derive(Debug)]
pub struct OrderBook {
    pub last_update_id: u64,
    pub bids: Vec<Level>,
    pub asks: Vec<Level>,
}

/// `a` may stand before `b`: by price from the highest when `descending`
/// (bids), from the lowest otherwise (asks).
pub open spec fn in_order(a: Level, b: Level, descending: bool) -> bool {
    if descending {
        !a.price.lt_value(b.price)
    } else {
        !b.price.lt_value(a.price)
    }
}

/// Every level stands before every later one.
pub open spec fn sorted_by(s: Seq<Level>, descending: bool) -> bool {
    forall|i: int, j: int| 0 <= i < j < s.len() ==> in_order(#[trigger] s[i], #[trigger] s[j], descending)
}

/// All prices are decimals.
pub open spec fn prices_wf(s: Seq<Level>) -> bool {
    forall|i: int| 0 <= i < s.len() ==> (#[trigger] s[i]).price.wf()
}

proof fn lemma_in_order_refl(a: Level, descending: bool)
    ensures
        in_order(a, a, descending),
{
}

proof fn lemma_in_order_trans(a: Level, b: Level, c: Level, descending: bool)
    requires
        in_order(a, b, descending),
        in_order(b, c, descending),
    ensures
        in_order(a, c, descending),
{
    if descending {
        lemma_le_trans(c.price, b.price, a.price);
    } else {
        lemma_le_trans(a.price, b.price, c.price);
    }
}

proof fn lemma_in_order_total(a: Level, b: Level, descending: bool)
    requires
        !in_order(a, b, descending),
    ensures
        in_order(b, a, descending),
{
}

fn out_of_order(a: &Level, b: &Level, descending: bool) -> (r: bool)
    requires
        a.price.wf(),
        b.price.wf(),
    ensures
        r == !in_order(*a, *b, descending),
{
    if descending {
        lt(a.price, b.price)
    } else {
        lt(b.price, a.price)
    }
}

proof fn lemma_adjacent_sorted(s: Seq<Level>, descending: bool)
    requires
        forall|k: int| 0 <= k < s.len() - 1 ==> in_order(#[trigger] s[k], s[k + 1], descending),
    ensures
        sorted_by(s, descending),
{
    assert forall|i: int, j: int| 0 <= i < j < s.len() implies in_order(#[trigger] s[i], #[trigger] s[j], descending) by {
        lemma_adjacent_chain(s, descending, i, j);
    }
}

proof fn lemma_adjacent_chain(s: Seq<Level>, descending: bool, i: int, j: int)
    requires
        forall|k: int| 0 <= k < s.len() - 1 ==> in_order(#[trigger] s[k], s[k + 1], descending),
        0 <= i < j < s.len(),
    ensures
        in_order(s[i], s[j], descending),
    decreases j - i,
{
    if j > i + 1 {
        lemma_adjacent_chain(s, descending, i, j - 1);
        assert(in_order(s[j - 1], s[j], descending));
        lemma_in_order_trans(s[i], s[j - 1], s[j], descending);
    } else {
        assert(in_order(s[i], s[i + 1], descending));
    }
}

/// The levels from position `b` on are in order, and every level before `b`
/// may stand before each of them.
pub open spec fn settled_from(s: Seq<Level>, b: int, descending: bool) -> bool {
    &&& forall|x: int, y: int| b <= x < y < s.len() ==> in_order(#[trigger] s[x], #[trigger] s[y], descending)
    &&& forall|x: int, y: int| 0 <= x < b <= y < s.len() ==> in_order(#[trigger] s[x], #[trigger] s[y], descending)
}

/// How far the bubbling of a pass has reached: position `i`, but not past the
/// settled levels from `b` on.
pub open spec fn front(i: int, b: int) -> int {
    if i <= b {
        i
    } else {
        b
    }
}

/// The state of a pass at position `i` over the levels `w` it started from:
/// the levels from the front on are as they were, the level just before the
/// front may stand after every level before it, and every level before the
/// front came from before the front.
#[verifier::opaque]
spec fn pass_inv(v: Seq<Level>, w: Seq<Level>, j: int, descending: bool) -> bool {
    &&& v.len() == w.len()
    &&& forall|k: int| j <= k < v.len() ==> #[trigger] v[k] == w[k]
    &&& j >= 1 ==> forall|k: int| 0 <= k < j ==> in_order(#[trigger] v[k], v[j - 1], descending)
    &&& forall|k: int| 0 <= k < j ==> exists|k2: int| 0 <= k2 < j && #[trigger] v[k] == w[k2]
}

proof fn lemma_pass_no_swap_past_front(v: Seq<Level>, w: Seq<Level>, i: int, b: int, descending: bool)
    requires
        pass_inv(v, w, front(i, b), descending),
        settled_from(w, b, descending),
        0 <= b <= w.len(),
        1 <= i < w.len(),
        i >= b,
    ensures
        in_order(v[i - 1], v[i], descending),
{
    reveal(pass_inv);
    if b >= 1 && i - 1 == b - 1 {
        let k2 = choose|k2: int| 0 <= k2 < b && #[trigger] v[b - 1] == w[k2];
        assert(v[i] == w[i]);
        assert(in_order(w[k2], w[b], descending));
    } else {
        assert(v[i - 1] == w[i - 1]);
        assert(v[i] == w[i]);
        assert(in_order(w[i - 1], w[i], descending));
    }
}

proof fn lemma_pass_swap(v: Seq<Level>, w: Seq<Level>, i: int, b: int, descending: bool)
    requires
        pass_inv(v, w, front(i, b), descending),
        1 <= i < b,
        b <= w.len(),
        !in_order(v[i - 1], v[i], descending),
    ensures
        pass_inv(v.update(i - 1, v[i]).update(i, v[i - 1]), w, front(i + 1, b), descending),
{
    reveal(pass_inv);
    let a = v[i - 1];
    let c = v[i];
    let u = v.update(i - 1, c).update(i, a);
    lemma_in_order_total(a, c, descending);
    assert forall|k: int| 0 <= k < i + 1 implies in_order(#[trigger] u[k], u[i], descending) by {
        if k < i - 1 {
            assert(u[k] == v[k]);
            assert(in_order(v[k], v[i - 1], descending));
        } else if k == i - 1 {
        } else {
            lemma_in_order_refl(a, descending);
        }
    }
    assert forall|k: int| 0 <= k < i + 1 implies exists|k2: int| 0 <= k2 < i + 1 && #[trigger] u[k] == w[k2] by {
        if k < i - 1 {
            let k2 = choose|k2: int| 0 <= k2 < i && #[trigger] v[k] == w[k2];
            assert(u[k] == w[k2]);
        } else if k == i - 1 {
            assert(u[k] == w[i]);
        } else {
            let k2 = choose|k2: int| 0 <= k2 < i && #[trigger] v[i - 1] == w[k2];
            assert(u[k] == w[k2]);
        }
    }
}

proof fn lemma_pass_keep(v: Seq<Level>, w: Seq<Level>, i: int, b: int, descending: bool)
    requires
        pass_inv(v, w, front(i, b), descending),
        1 <= i < w.len(),
        0 <= b <= w.len(),
        in_order(v[i - 1], v[i], descending),
    ensures
        pass_inv(v, w, front(i + 1, b), descending),
{
    reveal(pass_inv);
    if i < b {
        assert(front(i, b) == i);
        assert(front(i + 1, b) == i + 1);
        assert forall|k: int| 0 <= k < i + 1 implies in_order(#[trigger] v[k], v[i], descending) by {
            if k < i - 1 {
                lemma_in_order_trans(v[k], v[i - 1], v[i], descending);
            } else if k == i - 1 {
            } else {
                lemma_in_order_refl(v[i], descending);
            }
        }
        assert forall|k: int| 0 <= k < i + 1 implies exists|k2: int| 0 <= k2 < i + 1 && #[trigger] v[k] == w[k2] by {
            if k < i {
                let k2 = choose|k2: int| 0 <= k2 < i && #[trigger] v[k] == w[k2];
                assert(v[k] == w[k2]);
            } else {
                assert(v[k] == w[k]);
            }
        }
        assert(pass_inv(v, w, front(i + 1, b), descending));
    } else {
        assert(front(i + 1, b) == front(i, b));
    }
}

proof fn lemma_pass_start(w: Seq<Level>, b: int, descending: bool)
    requires
        1 <= w.len(),
        0 <= b <= w.len(),
    ensures
        pass_inv(w, w, front(1, b), descending),
{
    reveal(pass_inv);
    if b >= 1 {
        assert(front(1, b) == 1);
        lemma_in_order_refl(w[0], descending);
        assert(w[0] == w[0]);
    } else {
        assert(front(1, b) == 0);
    }
}

proof fn lemma_pass_end(v: Seq<Level>, w: Seq<Level>, b: int, descending: bool)
    requires
        pass_inv(v, w, front(w.len() as int, b), descending),
        settled_from(w, b, descending),
        1 <= b <= w.len(),
    ensures
        settled_from(v, b - 1, descending),
{
    reveal(pass_inv);
    let n = w.len() as int;
    assert(front(n, b) == b);
    assert forall|x: int, y: int| b - 1 <= x < y < n implies in_order(#[trigger] v[x], #[trigger] v[y], descending) by {
        if x == b - 1 {
            let k2 = choose|k2: int| 0 <= k2 < b && #[trigger] v[b - 1] == w[k2];
            assert(v[y] == w[y]);
            assert(in_order(w[k2], w[y], descending));
        } else {
            assert(v[x] == w[x]);
            assert(v[y] == w[y]);
        }
    }
    assert forall|x: int, y: int| 0 <= x < b - 1 <= y < n implies in_order(#[trigger] v[x], #[trigger] v[y], descending) by {
        if y == b - 1 {
        } else {
            let k2 = choose|k2: int| 0 <= k2 < b && #[trigger] v[x] == w[k2];
            assert(v[y] == w[y]);
            assert(in_order(w[k2], w[y], descending));
        }
    }
}

proof fn lemma_swap_multiset(v: Seq<Level>, i: int)
    requires
        1 <= i < v.len(),
    ensures
        v.update(i - 1, v[i]).update(i, v[i - 1]).to_multiset() == v.to_multiset(),
{
    broadcast use vstd::multiset::group_multiset_axioms;
    broadcast use vstd::multiset::group_multiset_properties;
    let a = v[i - 1];
    let c = v[i];
    vstd::seq_lib::to_multiset_update(v, i - 1, c);
    vstd::seq_lib::to_multiset_update(v.update(i - 1, c), i, a);
    assert(v.update(i - 1, c)[i] == c);
    vstd::seq_lib::to_multiset_contains(v, a);
    assert(v.contains(a));
    assert(v.to_multiset().insert(c).remove(a).insert(a).remove(c) =~= v.to_multiset());
}

/// A level priced at the number `p` (whatever its scale).
pub open spec fn at_price(p: Dec) -> spec_fn(Level) -> bool {
    |l: Level| l.price.eq_value(p)
}

/// The levels of `s` priced at `p`, in their order.
pub open spec fn price_class(s: Seq<Level>, p: Dec) -> Seq<Level> {
    s.filter(at_price(p))
}

/// Two prices equal to the same number are not strictly ordered.
proof fn lemma_same_price_not_less(a: Dec, c: Dec, p: Dec)
    requires
        a.eq_value(p),
        c.eq_value(p),
    ensures
        !a.lt_value(c),
{
    crate::decimal::lemma_pow10_positive(p.s());
    let (pa, pc, pp) = (crate::decimal::pow10(a.s()), crate::decimal::pow10(c.s()), crate::decimal::pow10(p.s()));
    assert(a.m() * pc == c.m() * pa) by (nonlinear_arith)
        requires
            a.m() * pp == p.m() * pa,
            c.m() * pp == p.m() * pc,
            pp > 0,
    {
        assert(a.m() * pc * pp == p.m() * pa * pc);
        assert(c.m() * pa * pp == p.m() * pc * pa);
    }
}

/// Exchanging two neighbours that stand strictly out of order keeps the
/// levels of every price in their order.
proof fn lemma_swap_keeps_classes(v: Seq<Level>, i: int, descending: bool, p: Dec)
    requires
        1 <= i < v.len(),
        !in_order(v[i - 1], v[i], descending),
    ensures
        price_class(v.update(i - 1, v[i]).update(i, v[i - 1]), p) == price_class(v, p),
{
    let a = v[i - 1];
    let c = v[i];
    let f = at_price(p);
    let pre = v.subrange(0, i - 1);
    let post = v.subrange(i + 1, v.len() as int);
    let u = v.update(i - 1, c).update(i, a);
    assert(v =~= pre + seq![a, c] + post);
    assert(u =~= pre + seq![c, a] + post);
    Seq::filter_distributes_over_add(pre + seq![a, c], post, f);
    Seq::filter_distributes_over_add(pre, seq![a, c], f);
    Seq::filter_distributes_over_add(pre + seq![c, a], post, f);
    Seq::filter_distributes_over_add(pre, seq![c, a], f);
    let e = Seq::<Level>::empty();
    assert(seq![a, c] =~= e.push(a).push(c));
    assert(seq![c, a] =~= e.push(c).push(a));
    e.lemma_filter_push(a, f);
    e.push(a).lemma_filter_push(c, f);
    e.lemma_filter_push(c, f);
    e.push(c).lemma_filter_push(a, f);
    assert(e.filter(f) =~= e) by {
        reveal(Seq::filter);
    }
    if f(a) && f(c) {
        if descending {
            lemma_same_price_not_less(a.price, c.price, p);
        } else {
            lemma_same_price_not_less(c.price, a.price, p);
        }
    }
    assert(seq![a, c].filter(f) =~= seq![c, a].filter(f));
}

/// One pass of exchanges of neighbouring levels that stand out of order;
/// returns whether any were exchanged.
fn bubble_pass(v: &mut Vec<Level>, descending: bool, b: Ghost<int>) -> (swapped: bool)
    requires
        prices_wf(old(v)@),
        0 <= b@ <= old(v)@.len(),
        settled_from(old(v)@, b@, descending),
    ensures
        final(v)@.to_multiset() == old(v)@.to_multiset(),
        prices_wf(final(v)@),
        final(v)@.len() == old(v)@.len(),
        b@ >= 1 ==> settled_from(final(v)@, b@ - 1, descending),
        !swapped ==> final(v)@ == old(v)@ && sorted_by(final(v)@, descending),
        b@ <= 1 ==> !swapped,
        sorted_by(old(v)@, descending) ==> !swapped,
        forall|p: Dec| #[trigger] price_class(final(v)@, p) == price_class(old(v)@, p),
{
    let ghost w = v@;
    let ghost bb = b@;
    let n = v.len();
    if n == 0 {
        proof {
            lemma_adjacent_sorted(v@, descending);
        }
        return false;
    }
    let mut swapped = false;
    let mut i: usize = 1;
    proof {
        lemma_pass_start(w, bb, descending);
    }
    while i < n
        invariant
            n == v@.len(),
            n == w.len(),
            1 <= i <= n,
            0 <= bb <= n,
            settled_from(w, bb, descending),
            prices_wf(w),
            prices_wf(v@),
            v@.to_multiset() == w.to_multiset(),
            pass_inv(v@, w, front(i as int, bb), descending),
            !swapped ==> v@ == w && forall|k: int| 0 <= k < i - 1 ==> in_order(#[trigger] v@[k], v@[k + 1], descending),
            bb <= 1 ==> !swapped,
            sorted_by(w, descending) ==> !swapped,
            forall|p: Dec| #[trigger] price_class(v@, p) == price_class(w, p),
        decreases n - i,
    {
        let ghost before = v@;
        let a = v[i - 1];
        let c = v[i];
        if out_of_order(&a, &c, descending) {
            proof {
                if !swapped && sorted_by(w, descending) {
                    assert(in_order(w[i - 1], w[i as int], descending));
                }
                if i >= bb {
                    lemma_pass_no_swap_past_front(before, w, i as int, bb, descending);
                }
                lemma_pass_swap(before, w, i as int, bb, descending);
                lemma_swap_multiset(before, i as int);
            }
            v.set(i - 1, c);
            v.set(i, a);
            swapped = true;
            assert(v@ =~= before.update(i - 1, c).update(i as int, a));
            assert forall|p: Dec| #[trigger] price_class(v@, p) == price_class(w, p) by {
                lemma_swap_keeps_classes(before, i as int, descending, p);
            }
        } else {
            proof {
                lemma_pass_keep(before, w, i as int, bb, descending);
            }
        }
        i = i + 1;
    }
    proof {
        if bb >= 1 {
            lemma_pass_end(v@, w, bb, descending);
        }
        if !swapped {
            lemma_adjacent_sorted(v@, descending);
        }
    }
    swapped
}

/// Bubble sort of levels by price: passes of neighbour exchanges until a pass
/// exchanges nothing.
fn sort_levels(vector: Vec<Level>, descending: bool) -> (r: Vec<Level>)
    requires
        prices_wf(vector@),
    ensures
        r@.to_multiset() == vector@.to_multiset(),
        r@.len() == vector@.len(),
        prices_wf(r@),
        sorted_by(r@, descending),
        forall|p: Dec| #[trigger] price_class(r@, p) == price_class(vector@, p),
        sorted_by(vector@, descending) ==> r@ == vector@,
{
    let mut v = vector;
    let ghost mut b: int = v@.len() as int;
    let mut swapped = true;
    while swapped
        invariant
            prices_wf(v@),
            v@.to_multiset() == vector@.to_multiset(),
            v@.len() == vector@.len(),
            0 <= b <= v@.len(),
            settled_from(v@, b, descending),
            !swapped ==> sorted_by(v@, descending),
            forall|p: Dec| #[trigger] price_class(v@, p) == price_class(vector@, p),
            sorted_by(vector@, descending) ==> (v@ == vector@ && (swapped ==> b == v@.len())),
        decreases b + if swapped { 1int } else { 0int },
    {
        swapped = bubble_pass(&mut v, descending, Ghost(b));
        proof {
            if b >= 1 {
                b = b - 1;
            }
        }
    }
    v
}

/// The bids ordered from the highest price down.
pub fn sort_bids(vector: Vec<Level>) -> (r: Vec<Level>)
    requires
        prices_wf(vector@),
    ensures
        r@.to_multiset() == vector@.to_multiset(),
        r@.len() == vector@.len(),
        prices_wf(r@),
        sorted_by(r@, true),
        forall|p: Dec| #[trigger] price_class(r@, p) == price_class(vector@, p),
        sorted_by(vector@, true) ==> r@ == vector@,
{
    sort_levels(vector, true)
}

/// The asks ordered from the lowest price up.
pub fn sort_asks(vector: Vec<Level>) -> (r: Vec<Level>)
    requires
        prices_wf(vector@),
    ensures
        r@.to_multiset() == vector@.to_multiset(),
        r@.len() == vector@.len(),
        prices_wf(r@),
        sorted_by(r@, false),
        forall|p: Dec| #[trigger] price_class(r@, p) == price_class(vector@, p),
        sorted_by(vector@, false) ==> r@ == vector@,
{
    sort_levels(vector, false)
}

/// Every level holds decimals and a quantity that is not negative.
pub open spec fn levels_wf(s: Seq<Level>) -> bool {
    forall|i: int|
        0 <= i < s.len() ==> (#[trigger] s[i]).price.wf() && s[i].qty.wf() && nonneg(s[i].qty)
}

/// The best level of each side, where there is one, holds decimals.
pub open spec fn best_levels_wf(b: OrderBook) -> bool {
    &&& b.bids@.len() > 0 ==> b.bids@[0].price.wf() && b.bids@[0].qty.wf()
    &&& b.asks@.len() > 0 ==> b.asks@[0].price.wf() && b.asks@[0].qty.wf()
}

fn best_level_sound(levels: &Vec<Level>) -> (r: bool)
    ensures
        r == (levels@.len() > 0 ==> levels@[0].price.wf() && levels@[0].qty.wf()),
{
    if levels.len() == 0 {
        return true;
    }
    let l = levels[0];
    is_wf(l.price) && is_wf(l.qty)
}

/// Whether the best level of each side holds decimals.
pub fn best_levels_sound(book: &OrderBook) -> (r: bool)
    ensures
        r == best_levels_wf(*book),
{
    best_level_sound(&book.bids) && best_level_sound(&book.asks)
}

/// Both sides of the book hold sound levels.
pub open spec fn book_wf(b: OrderBook) -> bool {
    levels_wf(b.bids@) && levels_wf(b.asks@)
}

/// Levels that are a permutation of sound levels are sound.
proof fn lemma_levels_wf_permutation(s: Seq<Level>, t: Seq<Level>)
    requires
        levels_wf(s),
        t.to_multiset() == s.to_multiset(),
    ensures
        levels_wf(t),
{
    broadcast use vstd::multiset::group_multiset_axioms;
    assert forall|i: int| 0 <= i < t.len() implies (#[trigger] t[i]).price.wf() && t[i].qty.wf() && nonneg(t[i].qty) by {
        vstd::seq_lib::to_multiset_contains(t, t[i]);
        vstd::seq_lib::to_multiset_contains(s, t[i]);
        assert(t.contains(t[i]));
        assert(s.contains(t[i]));
        let j = choose|j: int| 0 <= j < s.len() && s[j] == t[i];
        assert(s[j] == t[i]);
    }
}

/// The book with bids from the highest price down and asks from the lowest
/// up; the update id and the levels themselves are kept.
pub fn sort_by_price(orderbook: OrderBook) -> (r: OrderBook)
    requires
        prices_wf(orderbook.bids@),
        prices_wf(orderbook.asks@),
    ensures
        r.last_update_id == orderbook.last_update_id,
        r.bids@.to_multiset() == orderbook.bids@.to_multiset(),
        r.asks@.to_multiset() == orderbook.asks@.to_multiset(),
        r.bids@.len() == orderbook.bids@.len(),
        r.asks@.len() == orderbook.asks@.len(),
        sorted_by(r.bids@, true),
        sorted_by(r.asks@, false),
        forall|p: Dec| #[trigger] price_class(r.bids@, p) == price_class(orderbook.bids@, p),
        forall|p: Dec| #[trigger] price_class(r.asks@, p) == price_class(orderbook.asks@, p),
        book_wf(orderbook) ==> book_wf(r),
{
    let OrderBook { last_update_id, bids, asks } = orderbook;
    let ghost old_bids = bids@;
    let ghost old_asks = asks@;
    let bids = sort_bids(bids);
    let asks = sort_asks(asks);
    proof {
        if book_wf(orderbook) {
            lemma_levels_wf_permutation(old_bids, bids@);
            lemma_levels_wf_permutation(old_asks, asks@);
        }
    }
    OrderBook { last_update_id, bids, asks }
}

/// A book that arrives for a market replaces the stored one only when its
/// update id is newer: then the new book, sorted by price, is returned;
/// otherwise `None`, and the stored book stays.
pub fn accept_update(current: &OrderBook, incoming: OrderBook) -> (r: Option<OrderBook>)
    requires
        prices_wf(incoming.bids@),
        prices_wf(incoming.asks@),
    ensures
        current.last_update_id < incoming.last_update_id <==> r is Some,
        r matches Some(b) ==> {
            &&& b.last_update_id == incoming.last_update_id
            &&& b.bids@.to_multiset() == incoming.bids@.to_multiset()
            &&& b.asks@.to_multiset() == incoming.asks@.to_multiset()
            &&& sorted_by(b.bids@, true)
            &&& sorted_by(b.asks@, false)
            &&& forall|p: Dec| #[trigger] price_class(b.bids@, p) == price_class(incoming.bids@, p)
            &&& forall|p: Dec| #[trigger] price_class(b.asks@, p) == price_class(incoming.asks@, p)
        },
{
    if current.last_update_id < incoming.last_update_id {
        Some(sort_by_price(incoming))
    } else {
        None
    }
}

/// Takes the best level off the side that an order on this book traded
/// against: the first ask after a buy, the first bid after a sell.
pub fn remove_best(book: &mut OrderBook, side: OrderSide)
    requires
        side == OrderSide::Buy ==> old(book).asks@.len() > 0,
        side == OrderSide::Sell ==> old(book).bids@.len() > 0,
    ensures
        final(book).last_update_id == old(book).last_update_id,
        side == OrderSide::Buy ==> final(book).asks@ == old(book).asks@.drop_first()
            && final(book).bids@ == old(book).bids@,
        side == OrderSide::Sell ==> final(book).bids@ == old(book).bids@.drop_first()
            && final(book).asks@ == old(book).asks@,
{
    match side {
        OrderSide::Buy => {
            book.asks.remove(0);
        },
        OrderSide::Sell => {
            book.bids.remove(0);
        },
    }
}

/// A side sorted for bids runs from the highest price down, so its first
/// level has the highest price; a side sorted for asks runs from the lowest
/// price up, so its first level has the lowest price.
pub proof fn law_sorted_sides_by_price(s: Seq<Level>)
    ensures
        sorted_by(s, true) ==> forall|i: int, j: int|
            0 <= i < j < s.len() ==> !(#[trigger] s[i]).price.lt_value((#[trigger] s[j]).price),
        sorted_by(s, false) ==> forall|i: int, j: int|
            0 <= i < j < s.len() ==> !(#[trigger] s[j]).price.lt_value((#[trigger] s[i]).price),
        sorted_by(s, true) ==> forall|k: int| 0 <= k < s.len() ==> !s[0].price.lt_value((#[trigger] s[k]).price),
        sorted_by(s, false) ==> forall|k: int| 0 <= k < s.len() ==> !(#[trigger] s[k]).price.lt_value(s[0].price),
{
    assert forall|k: int| 0 <= k < s.len() implies in_order(s[0], #[trigger] s[k], true) || !sorted_by(s, true) by {
        if k == 0 {
            lemma_in_order_refl(s[0], true);
        }
    }
    assert forall|k: int| 0 <= k < s.len() implies in_order(s[0], #[trigger] s[k], false) || !sorted_by(s, false) by {
        if k == 0 {
            lemma_in_order_refl(s[0], false);
        }
    }
}

/// Taking the first level off a sorted side leaves it sorted, and no level
/// left is better than the one taken.
pub proof fn law_remove_best_keeps_order(s: Seq<Level>, descending: bool)
    requires
        sorted_by(s, descending),
        s.len() > 0,
    ensures
        sorted_by(s.drop_first(), descending),
        forall|k: int| 0 <= k < s.len() - 1 ==> in_order(s[0], #[trigger] s.drop_first()[k], descending),
{
    assert forall|i: int, j: int| 0 <= i < j < s.len() - 1 implies in_order(
        #[trigger] s.drop_first()[i],
        #[trigger] s.drop_first()[j],
        descending,
    ) by {
        assert(s.drop_first()[i] == s[i + 1]);
        assert(s.drop_first()[j] == s[j + 1]);
    }
    assert forall|k: int| 0 <= k < s.len() - 1 implies in_order(s[0], #[trigger] s.drop_first()[k], descending) by {
        assert(s.drop_first()[k] == s[k + 1]);
    }
}

/// The levels of a side priced like its first level start with that level;
/// after it, the classes of the rest follow.
proof fn lemma_class_of_rest(s: Seq<Level>, p: Dec)
    requires
        s.len() > 0,
    ensures
        price_class(s, p) == (if at_price(p)(s[0]) {
            seq![s[0]]
        } else {
            Seq::empty()
        }) + price_class(s.drop_first(), p),
{
    assert(s =~= seq![s[0]] + s.drop_first());
    s.drop_first().lemma_filter_prepend(s[0], at_price(p));
}

/// A level of a side is in the class of its own price.
proof fn lemma_in_own_class(s: Seq<Level>, k: int)
    requires
        0 <= k < s.len(),
    ensures
        price_class(s, s[k].price).contains(s[k]),
{
    s.lemma_filter_contains(at_price(s[k].price), k);
}

/// A sorted side is determined by the order within each price: two sides,
/// both sorted the same way, that hold the same levels of every price in the
/// same order, are the same. So the sorts above, which keep each price's
/// levels in their order, have exactly one possible result.
pub proof fn law_sorted_side_is_unique(s: Seq<Level>, t: Seq<Level>, descending: bool)
    requires
        sorted_by(s, descending),
        sorted_by(t, descending),
        forall|p: Dec| #[trigger] price_class(s, p) == price_class(t, p),
    ensures
        s == t,
    decreases s.len(),
{
    if s.len() == 0 && t.len() == 0 {
        assert(s =~= t);
        return;
    }
    if s.len() == 0 {
        lemma_in_own_class(t, 0);
        assert(price_class(s, t[0].price) == price_class(t, t[0].price));
        assert(s.filter(at_price(t[0].price)) =~= s) by {
            reveal(Seq::filter);
        }
        assert(false);
    }
    if t.len() == 0 {
        lemma_in_own_class(s, 0);
        assert(price_class(s, s[0].price) == price_class(t, s[0].price));
        assert(t.filter(at_price(s[0].price)) =~= t) by {
            reveal(Seq::filter);
        }
        assert(false);
    }
    let a = s[0];
    let b = t[0];
    // `b` is a level of `s`, so `a` stands before it, and the other way round.
    lemma_in_own_class(t, 0);
    assert(price_class(s, b.price) == price_class(t, b.price));
    s.lemma_filter_contains_rev(at_price(b.price), b);
    let kb = choose|k: int| 0 <= k < s.len() && s[k] == b;
    if kb > 0 {
        assert(in_order(s[0], s[kb], descending));
    } else {
        lemma_in_order_refl(a, descending);
    }
    lemma_in_own_class(s, 0);
    assert(price_class(s, a.price) == price_class(t, a.price));
    t.lemma_filter_contains_rev(at_price(a.price), a);
    let ka = choose|k: int| 0 <= k < t.len() && t[k] == a;
    if ka > 0 {
        assert(in_order(t[0], t[ka], descending));
    } else {
        lemma_in_order_refl(b, descending);
    }
    // so both are priced alike, and both open the class of that price
    let f = at_price(a.price);
    crate::decimal::lemma_pow10_positive(a.price.s());
    crate::decimal::lemma_pow10_positive(b.price.s());
    assert(f(a));
    assert(f(b));
    lemma_class_of_rest(s, a.price);
    lemma_class_of_rest(t, a.price);
    assert(price_class(s, a.price)[0] == a);
    assert(price_class(t, a.price)[0] == b);
    assert(a == b);
    // the rest of both sides has the same classes
    law_remove_best_keeps_order(s, descending);
    law_remove_best_keeps_order(t, descending);
    assert forall|p: Dec| #[trigger] price_class(s.drop_first(), p) == price_class(t.drop_first(), p) by {
        lemma_class_of_rest(s, p);
        lemma_class_of_rest(t, p);
        assert(price_class(s, p) == price_class(t, p));
        let head: Seq<Level> = if at_price(p)(a) { seq![a] } else { Seq::empty() };
        assert(price_class(s.drop_first(), p) =~= price_class(s, p).subrange(head.len() as int, price_class(s, p).len() as int));
        assert(price_class(t.drop_first(), p) =~= price_class(t, p).subrange(head.len() as int, price_class(t, p).len() as int));
    }
    law_sorted_side_is_unique(s.drop_first(), t.drop_first(), descending);
    assert(s =~= seq![a] + s.drop_first());
    assert(t =~= seq![b] + t.drop_first());
}

} // verus!
