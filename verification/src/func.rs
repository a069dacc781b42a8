//! Triangles of Binance markets, each given as a base coin and a quote coin:
//! the catalog of triangles through the stable coin and the side of each leg.
use vstd::prelude::*;
use crate::arbitrage::{stable_coin, string_views};
use crate::text::{lex_lt, str_less, str_contains, has_substring, lemma_lex_total, lemma_lex_transitive};

verus! {

/// API credentials.
#[derive(Debug, Clone)]
pub struct Key {
    pub key: String,
    pub secret: String,
}

/// A market: the base coin `pair1` quoted in `pair2`.
#[derive(Debug, Clone)]
pub struct Symbol {
    pub pair1: String,
    pub pair2: String,
}

impl View for Symbol {
    type V = (Seq<char>, Seq<char>);

    open spec fn view(&self) -> (Seq<char>, Seq<char>) {
        (self.pair1@, self.pair2@)
    }
}

/// The market name: base and quote written together.
pub open spec fn pair_name(s: (Seq<char>, Seq<char>)) -> Seq<char> {
    s.0 + s.1
}

impl Symbol {
    pub fn new(pair1: &str, pair2: &str) -> (r: Symbol)
        ensures
            r@ == (pair1@, pair2@),
    {
        Symbol { pair1: pair1.to_owned(), pair2: pair2.to_owned() }
    }

    /// The market name, base followed by quote (`"ADAUSDT"`).
    pub fn pair(&self) -> (r: String)
        ensures
            r@ == pair_name(self@),
    {
        self.pair1.clone().concat(self.pair2.as_str())
    }

    pub fn symbols<'a>(&'a self) -> (r: (&'a String, &'a String))
        ensures
            r.0 == &self.pair1,
            r.1 == &self.pair2,
    {
        (&self.pair1, &self.pair2)
    }
}

pub fn clone_symbol(s: &Symbol) -> (r: Symbol)
    ensures
        r == *s,
{
    Symbol { pair1: s.pair1.clone(), pair2: s.pair2.clone() }
}

/// The market trades the stable coin as its base or its quote.
pub open spec fn is_stable_market(s: (Seq<char>, Seq<char>)) -> bool {
    s.0 == stable_coin() || s.1 == stable_coin()
}

pub fn is_stable(symbol: &Symbol) -> (r: bool)
    ensures
        r == is_stable_market(symbol@),
{
    let coin: String = "USDT".to_owned();
    proof {
        reveal_strlit("USDT");
        assert(coin@ =~= stable_coin());
    }
    symbol.pair1 == coin || symbol.pair2 == coin
}

pub type MarketView = (Seq<char>, Seq<char>);

/// Two markets have a coin in common.
pub open spec fn shares_market(a: MarketView, b: MarketView) -> bool {
    b.0 == a.0 || b.0 == a.1 || b.1 == a.0 || b.1 == a.1
}

/// The six coins of three markets, in order.
pub open spec fn coins_of(a: MarketView, b: MarketView, c: MarketView) -> Seq<Seq<char>> {
    seq![a.0, a.1, b.0, b.1, c.0, c.1]
}

/// The number of different names in `p`.
pub open spec fn distinct_count(p: Seq<Seq<char>>) -> nat
    decreases p.len(),
{
    if p.len() == 0 {
        0
    } else {
        distinct_count(p.drop_last()) + if p.drop_last().contains(p.last()) {
            0nat
        } else {
            1nat
        }
    }
}

/// The number of different names in a list is the size of the set of its
/// names.
pub proof fn law_distinct_count_is_set_size(p: Seq<Seq<char>>)
    ensures
        distinct_count(p) == p.to_set().len(),
    decreases p.len(),
{
    if p.len() == 0 {
        assert(p.to_set() =~= Set::<Seq<char>>::empty());
    } else {
        let init = p.drop_last();
        law_distinct_count_is_set_size(init);
        assert(p =~= init.push(p.last()));
        assert(p.to_set() =~= init.to_set().insert(p.last())) by {
            assert forall|x: Seq<char>| p.to_set().contains(x) <==> init.to_set().insert(p.last()).contains(x) by {
                lemma_contains_push(init, p.last(), x);
            }
        }
        vstd::seq_lib::seq_to_set_is_finite(init);
        if init.contains(p.last()) {
            assert(init.to_set().insert(p.last()) =~= init.to_set());
        }
    }
}

/// `a`, `b`, `c` form a catalog triangle: `a` and `c` trade the stable coin,
/// `b` does not, the market names differ, consecutive markets share a coin,
/// and the six coins name exactly three different coins.
pub open spec fn is_market_triangle(a: MarketView, b: MarketView, c: MarketView) -> bool {
    &&& is_stable_market(a)
    &&& pair_name(b) != pair_name(a)
    &&& !is_stable_market(b)
    &&& shares_market(a, b)
    &&& pair_name(c) != pair_name(b)
    &&& pair_name(c) != pair_name(a)
    &&& is_stable_market(c)
    &&& shares_market(b, c)
    &&& distinct_count(coins_of(a, b, c)) == 3
}

pub open spec fn markets_view(v: Seq<Symbol>) -> Seq<MarketView> {
    v.map_values(|s: Symbol| s@)
}

pub open spec fn triples_view(v: Seq<[Symbol; 3]>) -> Seq<Seq<MarketView>> {
    v.map_values(|t: [Symbol; 3]| markets_view(t@))
}

pub open spec fn market_third_legs(m: Seq<MarketView>, i: int, j: int, k: int) -> Seq<Seq<MarketView>>
    decreases k,
{
    if k <= 0 {
        seq![]
    } else {
        market_third_legs(m, i, j, k - 1) + if is_market_triangle(m[i], m[j], m[k - 1]) {
            seq![seq_of3(m[i], m[j], m[k - 1])]
        } else {
            seq![]
        }
    }
}

pub open spec fn market_second_legs(m: Seq<MarketView>, i: int, j: int) -> Seq<Seq<MarketView>>
    decreases j,
{
    if j <= 0 {
        seq![]
    } else {
        market_second_legs(m, i, j - 1) + market_third_legs(m, i, j - 1, m.len() as int)
    }
}

pub open spec fn market_first_legs(m: Seq<MarketView>, i: int) -> Seq<Seq<MarketView>>
    decreases i,
{
    if i <= 0 {
        seq![]
    } else {
        market_first_legs(m, i - 1) + market_second_legs(m, i - 1, m.len() as int)
    }
}

/// The catalog of a list of markets: every triangle, ordered by the index of
/// its first, then second, then third market.
pub open spec fn market_catalog(m: Seq<MarketView>) -> Seq<Seq<MarketView>> {
    market_first_legs(m, m.len() as int)
}

proof fn lemma_contains_push<A>(s: Seq<A>, y: A, x: A)
    ensures
        s.push(y).contains(x) <==> (s.contains(x) || y == x),
{
    if s.push(y).contains(x) {
        let w = choose|w: int| 0 <= w < s.push(y).len() && s.push(y)[w] == x;
        if w < s.len() {
            assert(s[w] == x);
        }
    }
    if s.contains(x) {
        let w = choose|w: int| 0 <= w < s.len() && s[w] == x;
        assert(s.push(y)[w] == x);
    }
    if y == x {
        assert(s.push(y)[s.len() as int] == x);
    }
}

/// The number of different names among six, as counting the unique items of
/// the list answers.
pub fn count_distinct(p: &[String; 6]) -> (r: usize)
    ensures
        r == distinct_count(string_views(p@)),
{
    let ghost v = string_views(p@);
    let mut count: usize = 0;
    let mut i: usize = 0;
    while i < 6
        invariant
            i <= 6,
            v == string_views(p@),
            v.len() == 6,
            count == distinct_count(v.subrange(0, i as int)),
            count <= i,
        decreases 6 - i,
    {
        let mut seen = false;
        let mut j: usize = 0;
        while j < i
            invariant
                i < 6,
                j <= i,
                v == string_views(p@),
                v.len() == 6,
                seen == v.subrange(0, j as int).contains(v[i as int]),
            decreases i - j,
        {
            proof {
                lemma_contains_push(v.subrange(0, j as int), v[j as int], v[i as int]);
                assert(v.subrange(0, j + 1) =~= v.subrange(0, j as int).push(v[j as int]));
            }
            if p[j] == p[i] {
                seen = true;
            }
            j = j + 1;
        }
        assert(v.subrange(0, i + 1).drop_last() =~= v.subrange(0, i as int));
        assert(v.subrange(0, i + 1).last() == v[i as int]);
        if !seen {
            count = count + 1;
        }
        i = i + 1;
    }
    assert(v.subrange(0, 6) =~= v);
    count
}

proof fn lemma_market_third_empty(m: Seq<MarketView>, i: int, j: int, k: int)
    requires
        forall|q: int| 0 <= q < k ==> !is_market_triangle(m[i], m[j], #[trigger] m[q]),
    ensures
        market_third_legs(m, i, j, k) == Seq::<Seq<MarketView>>::empty(),
    decreases k,
{
    if k > 0 {
        lemma_market_third_empty(m, i, j, k - 1);
        assert(market_third_legs(m, i, j, k) =~= market_third_legs(m, i, j, k - 1));
    }
}

proof fn lemma_market_second_empty(m: Seq<MarketView>, i: int, j: int)
    requires
        !is_stable_market(m[i]),
    ensures
        market_second_legs(m, i, j) == Seq::<Seq<MarketView>>::empty(),
    decreases j,
{
    if j > 0 {
        lemma_market_second_empty(m, i, j - 1);
        lemma_market_third_empty(m, i, j - 1, m.len() as int);
        assert(market_second_legs(m, i, j) =~= market_second_legs(m, i, j - 1));
    }
}

fn push_market_third_legs(symbols: &[Symbol], i: usize, j: usize, out: &mut Vec<[Symbol; 3]>)
    requires
        i < symbols@.len(),
        j < symbols@.len(),
        is_stable_market(symbols@[i as int]@),
        pair_name(symbols@[j as int]@) != pair_name(symbols@[i as int]@),
        !is_stable_market(symbols@[j as int]@),
        shares_market(symbols@[i as int]@, symbols@[j as int]@),
    ensures
        triples_view(final(out)@) == triples_view(old(out)@) + market_third_legs(
            markets_view(symbols@),
            i as int,
            j as int,
            symbols@.len() as int,
        ),
{
    let ghost m = markets_view(symbols@);
    let n = symbols.len();
    let pair1 = &symbols[i];
    let pair2 = &symbols[j];
    let name1 = pair1.pair();
    let name2 = pair2.pair();
    let mut k: usize = 0;
    while k < n
        invariant
            n == symbols@.len(),
            m == markets_view(symbols@),
            m.len() == n,
            i < n,
            j < n,
            k <= n,
            *pair1 == symbols@[i as int],
            *pair2 == symbols@[j as int],
            name1@ == pair_name(m[i as int]),
            name2@ == pair_name(m[j as int]),
            is_stable_market(m[i as int]),
            pair_name(m[j as int]) != pair_name(m[i as int]),
            !is_stable_market(m[j as int]),
            shares_market(m[i as int], m[j as int]),
            triples_view(out@) == triples_view(old(out)@) + market_third_legs(m, i as int, j as int, k as int),
        decreases n - k,
    {
        let pair3 = &symbols[k];
        assert(m[k as int] == pair3@);
        let name3 = pair3.pair();
        if name3 == name2 || name3 == name1 || !is_stable(pair3) {
            assert(market_third_legs(m, i as int, j as int, k + 1) =~= market_third_legs(m, i as int, j as int, k as int));
            k = k + 1;
            continue;
        }
        if !(pair3.pair1 == pair2.pair1) && !(pair3.pair1 == pair2.pair2) && !(pair3.pair2 == pair2.pair1)
            && !(pair3.pair2 == pair2.pair2) {
            assert(market_third_legs(m, i as int, j as int, k + 1) =~= market_third_legs(m, i as int, j as int, k as int));
            k = k + 1;
            continue;
        }
        let coins: [String; 6] = [
            pair1.pair1.clone(),
            pair1.pair2.clone(),
            pair2.pair1.clone(),
            pair2.pair2.clone(),
            pair3.pair1.clone(),
            pair3.pair2.clone(),
        ];
        assert(string_views(coins@) =~= coins_of(m[i as int], m[j as int], m[k as int]));
        if count_distinct(&coins) == 3 {
            let triangle: [Symbol; 3] = [clone_symbol(pair1), clone_symbol(pair2), clone_symbol(pair3)];
            let ghost t = seq_of3(m[i as int], m[j as int], m[k as int]);
            assert(markets_view(triangle@) =~= t);
            assert(triples_view(out@.push(triangle)) =~= triples_view(out@).push(t));
            out.push(triangle);
            assert(market_third_legs(m, i as int, j as int, k + 1) =~= market_third_legs(m, i as int, j as int, k as int).push(t));
        } else {
            assert(market_third_legs(m, i as int, j as int, k + 1) =~= market_third_legs(m, i as int, j as int, k as int));
        }
        k = k + 1;
    }
}

fn push_market_second_legs(symbols: &[Symbol], i: usize, out: &mut Vec<[Symbol; 3]>)
    requires
        i < symbols@.len(),
        is_stable_market(symbols@[i as int]@),
    ensures
        triples_view(final(out)@) == triples_view(old(out)@) + market_second_legs(
            markets_view(symbols@),
            i as int,
            symbols@.len() as int,
        ),
{
    let ghost m = markets_view(symbols@);
    let n = symbols.len();
    let pair1 = &symbols[i];
    let name1 = pair1.pair();
    let mut j: usize = 0;
    while j < n
        invariant
            n == symbols@.len(),
            m == markets_view(symbols@),
            m.len() == n,
            i < n,
            j <= n,
            *pair1 == symbols@[i as int],
            name1@ == pair_name(m[i as int]),
            is_stable_market(m[i as int]),
            triples_view(out@) == triples_view(old(out)@) + market_second_legs(m, i as int, j as int),
        decreases n - j,
    {
        let pair2 = &symbols[j];
        assert(m[j as int] == pair2@);
        if pair2.pair() == name1 || is_stable(pair2) {
            proof {
                lemma_market_third_empty(m, i as int, j as int, n as int);
            }
            assert(market_second_legs(m, i as int, j + 1) =~= market_second_legs(m, i as int, j as int));
            j = j + 1;
            continue;
        }
        if !(pair2.pair1 == pair1.pair1) && !(pair2.pair1 == pair1.pair2) && !(pair2.pair2 == pair1.pair1)
            && !(pair2.pair2 == pair1.pair2) {
            proof {
                lemma_market_third_empty(m, i as int, j as int, n as int);
            }
            assert(market_second_legs(m, i as int, j + 1) =~= market_second_legs(m, i as int, j as int));
            j = j + 1;
            continue;
        }
        push_market_third_legs(symbols, i, j, out);
        assert(market_second_legs(m, i as int, j + 1) =~= market_second_legs(m, i as int, j as int)
            + market_third_legs(m, i as int, j as int, n as int));
        j = j + 1;
    }
}

/// Builds the catalog of triangles over a list of markets: for each stable
/// first market, each other non-stable second market sharing a coin with it,
/// and each third stable market sharing a coin with the second and differing
/// from both, keeps the triangle when its six coins name exactly three coins.
pub fn create_valid_pairs_catalog(symbols: &[Symbol]) -> (r: Vec<[Symbol; 3]>)
    ensures
        triples_view(r@) == market_catalog(markets_view(symbols@)),
{
    let ghost m = markets_view(symbols@);
    let n = symbols.len();
    let mut out: Vec<[Symbol; 3]> = Vec::new();
    assert(triples_view(out@) =~= market_first_legs(m, 0));
    let mut i: usize = 0;
    while i < n
        invariant
            n == symbols@.len(),
            m == markets_view(symbols@),
            m.len() == n,
            i <= n,
            triples_view(out@) == market_first_legs(m, i as int),
        decreases n - i,
    {
        let pair1 = &symbols[i];
        assert(m[i as int] == pair1@);
        if !is_stable(pair1) {
            proof {
                lemma_market_second_empty(m, i as int, n as int);
            }
            assert(market_first_legs(m, i + 1) =~= market_first_legs(m, i as int));
            i = i + 1;
            continue;
        }
        push_market_second_legs(symbols, i, &mut out);
        assert(market_first_legs(m, i + 1) =~= market_first_legs(m, i as int) + market_second_legs(m, i as int, n as int));
        i = i + 1;
    }
    out
}

pub open spec fn seq_of3(a: MarketView, b: MarketView, c: MarketView) -> Seq<MarketView> {
    seq![a, b, c]
}

/// `e` lists a triangle of the markets `syms`.
pub open spec fn is_market_triangle_entry(syms: Seq<MarketView>, e: Seq<MarketView>) -> bool {
    exists|i: int, j: int, k: int|
        0 <= i < syms.len() && 0 <= j < syms.len() && 0 <= k < syms.len() && is_market_triangle(
            syms[i],
            syms[j],
            syms[k],
        ) && e == #[trigger] seq_of3(syms[i], syms[j], syms[k])
}

proof fn lemma_market_third_legs_sound(syms: Seq<MarketView>, i: int, j: int, k: int)
    requires
        0 <= i < syms.len(),
        0 <= j < syms.len(),
        k <= syms.len(),
    ensures
        forall|q: int|
            0 <= q < market_third_legs(syms, i, j, k).len() ==> is_market_triangle_entry(
                syms,
                #[trigger] market_third_legs(syms, i, j, k)[q],
            ),
    decreases k,
{
    if k > 0 {
        lemma_market_third_legs_sound(syms, i, j, k - 1);
        let prev = market_third_legs(syms, i, j, k - 1);
        let all = market_third_legs(syms, i, j, k);
        assert forall|q: int| 0 <= q < all.len() implies is_market_triangle_entry(syms, #[trigger] all[q]) by {
            if q < prev.len() {
                assert(all[q] == prev[q]);
            } else {
                let e = seq_of3(syms[i], syms[j], syms[k - 1]);
                assert(all[q] == e);
                assert(is_market_triangle_entry(syms, e));
            }
        }
    }
}

proof fn lemma_market_second_legs_sound(syms: Seq<MarketView>, i: int, j: int)
    requires
        0 <= i < syms.len(),
        j <= syms.len(),
    ensures
        forall|q: int|
            0 <= q < market_second_legs(syms, i, j).len() ==> is_market_triangle_entry(
                syms,
                #[trigger] market_second_legs(syms, i, j)[q],
            ),
    decreases j,
{
    if j > 0 {
        lemma_market_second_legs_sound(syms, i, j - 1);
        lemma_market_third_legs_sound(syms, i, j - 1, syms.len() as int);
        let prev = market_second_legs(syms, i, j - 1);
        let rest = market_third_legs(syms, i, j - 1, syms.len() as int);
        let all = market_second_legs(syms, i, j);
        assert forall|q: int| 0 <= q < all.len() implies is_market_triangle_entry(syms, #[trigger] all[q]) by {
            if q < prev.len() {
                assert(all[q] == prev[q]);
            } else {
                assert(all[q] == rest[q - prev.len()]);
            }
        }
    }
}

proof fn lemma_market_first_legs_sound(syms: Seq<MarketView>, i: int)
    requires
        i <= syms.len(),
    ensures
        forall|q: int|
            0 <= q < market_first_legs(syms, i).len() ==> is_market_triangle_entry(
                syms,
                #[trigger] market_first_legs(syms, i)[q],
            ),
    decreases i,
{
    if i > 0 {
        lemma_market_first_legs_sound(syms, i - 1);
        lemma_market_second_legs_sound(syms, i - 1, syms.len() as int);
        let prev = market_first_legs(syms, i - 1);
        let rest = market_second_legs(syms, i - 1, syms.len() as int);
        let all = market_first_legs(syms, i);
        assert forall|q: int| 0 <= q < all.len() implies is_market_triangle_entry(syms, #[trigger] all[q]) by {
            if q < prev.len() {
                assert(all[q] == prev[q]);
            } else {
                assert(all[q] == rest[q - prev.len()]);
            }
        }
    }
}

/// Every catalog entry is a triangle of the given markets: the first and
/// third trade the stable coin, the second does not, consecutive markets share
/// a coin, and the route names exactly three coins.
pub proof fn law_market_catalog_sound(syms: Seq<MarketView>)
    ensures
        forall|q: int|
            0 <= q < market_catalog(syms).len() ==> is_market_triangle_entry(syms, #[trigger] market_catalog(syms)[q]),
{
    lemma_market_first_legs_sound(syms, syms.len() as int);
}

proof fn lemma_market_third_legs_complete(syms: Seq<MarketView>, i: int, j: int, k: int, c: int)
    requires
        0 <= c < k,
        is_market_triangle(syms[i], syms[j], syms[c]),
    ensures
        market_third_legs(syms, i, j, k).contains(seq_of3(syms[i], syms[j], syms[c])),
    decreases k,
{
    let e = seq_of3(syms[i], syms[j], syms[c]);
    if c == k - 1 {
        let prev = market_third_legs(syms, i, j, k - 1);
        assert(market_third_legs(syms, i, j, k)[prev.len() as int] == e);
    } else {
        lemma_market_third_legs_complete(syms, i, j, k - 1, c);
        let w = choose|w: int| 0 <= w < market_third_legs(syms, i, j, k - 1).len()
            && #[trigger] market_third_legs(syms, i, j, k - 1)[w] == e;
        assert(market_third_legs(syms, i, j, k)[w] == e);
    }
}

proof fn lemma_market_second_legs_complete(syms: Seq<MarketView>, i: int, j: int, b: int, c: int)
    requires
        0 <= b < j,
        0 <= c < syms.len(),
        is_market_triangle(syms[i], syms[b], syms[c]),
    ensures
        market_second_legs(syms, i, j).contains(seq_of3(syms[i], syms[b], syms[c])),
    decreases j,
{
    let e = seq_of3(syms[i], syms[b], syms[c]);
    let prev = market_second_legs(syms, i, j - 1);
    if b == j - 1 {
        lemma_market_third_legs_complete(syms, i, b, syms.len() as int, c);
        let w = choose|w: int| 0 <= w < market_third_legs(syms, i, b, syms.len() as int).len()
            && #[trigger] market_third_legs(syms, i, b, syms.len() as int)[w] == e;
        assert(market_second_legs(syms, i, j)[prev.len() + w] == e);
    } else {
        lemma_market_second_legs_complete(syms, i, j - 1, b, c);
        let w = choose|w: int| 0 <= w < prev.len() && #[trigger] prev[w] == e;
        assert(market_second_legs(syms, i, j)[w] == e);
    }
}

proof fn lemma_market_first_legs_complete(syms: Seq<MarketView>, i: int, a: int, b: int, c: int)
    requires
        0 <= a < i,
        0 <= b < syms.len(),
        0 <= c < syms.len(),
        is_market_triangle(syms[a], syms[b], syms[c]),
    ensures
        market_first_legs(syms, i).contains(seq_of3(syms[a], syms[b], syms[c])),
    decreases i,
{
    let e = seq_of3(syms[a], syms[b], syms[c]);
    let prev = market_first_legs(syms, i - 1);
    if a == i - 1 {
        lemma_market_second_legs_complete(syms, a, syms.len() as int, b, c);
        let w = choose|w: int| 0 <= w < market_second_legs(syms, a, syms.len() as int).len()
            && #[trigger] market_second_legs(syms, a, syms.len() as int)[w] == e;
        assert(market_first_legs(syms, i)[prev.len() + w] == e);
    } else {
        lemma_market_first_legs_complete(syms, i - 1, a, b, c);
        let w = choose|w: int| 0 <= w < prev.len() && #[trigger] prev[w] == e;
        assert(market_first_legs(syms, i)[w] == e);
    }
}

/// Every triangle of the given markets appears in the catalog.
pub proof fn law_market_catalog_complete(syms: Seq<MarketView>, a: int, b: int, c: int)
    requires
        0 <= a < syms.len(),
        0 <= b < syms.len(),
        0 <= c < syms.len(),
        is_market_triangle(syms[a], syms[b], syms[c]),
    ensures
        market_catalog(syms).contains(seq_of3(syms[a], syms[b], syms[c])),
{
    lemma_market_first_legs_complete(syms, syms.len() as int, a, b, c);
}


/// The market trades the coin `USDT`, as its base or as its quote.
pub open spec fn trades_usdt(m: MarketView) -> bool {
    m.0 == seq!['U', 'S', 'D', 'T'] || m.1 == seq!['U', 'S', 'D', 'T']
}

/// The catalog holds every route of three of the markets such that the first
/// and the third trade `USDT` (as base or as quote) and the second does not,
/// the three names differ, each market has a coin (base or quote) in common
/// with the next, and the six coins name exactly three different coins.
pub proof fn law_catalog_takes_every_usdt_triangle(syms: Seq<MarketView>, a: int, b: int, c: int)
    requires
        0 <= a < syms.len(),
        0 <= b < syms.len(),
        0 <= c < syms.len(),
        trades_usdt(syms[a]),
        !trades_usdt(syms[b]),
        trades_usdt(syms[c]),
        syms[a].0 + syms[a].1 != syms[b].0 + syms[b].1,
        syms[b].0 + syms[b].1 != syms[c].0 + syms[c].1,
        syms[a].0 + syms[a].1 != syms[c].0 + syms[c].1,
        syms[b].0 == syms[a].0 || syms[b].0 == syms[a].1 || syms[b].1 == syms[a].0 || syms[b].1 == syms[a].1,
        syms[c].0 == syms[b].0 || syms[c].0 == syms[b].1 || syms[c].1 == syms[b].0 || syms[c].1 == syms[b].1,
        distinct_count(seq![syms[a].0, syms[a].1, syms[b].0, syms[b].1, syms[c].0, syms[c].1]) == 3,
    ensures
        market_catalog(syms).contains(seq![syms[a], syms[b], syms[c]]),
{
    assert(coins_of(syms[a], syms[b], syms[c]) =~= seq![syms[a].0, syms[a].1, syms[b].0, syms[b].1, syms[c].0, syms[c].1]);
    assert(is_market_triangle(syms[a], syms[b], syms[c]));
    law_market_catalog_complete(syms, a, b, c);
}

/// Every catalog entry is a route of three of the markets whose first and
/// third markets trade `USDT` (as base or as quote), whose second does not,
/// and in which each market has a coin in common with the next.
pub proof fn law_catalog_entries_are_usdt_triangles(syms: Seq<MarketView>, q: int)
    requires
        0 <= q < market_catalog(syms).len(),
    ensures
        exists|a: int, b: int, c: int|
            0 <= a < syms.len() && 0 <= b < syms.len() && 0 <= c < syms.len()
                && #[trigger] market_catalog(syms)[q] == seq![syms[a], syms[b], syms[c]]
                && trades_usdt(syms[a]) && !trades_usdt(syms[b]) && trades_usdt(syms[c])
                && (syms[b].0 == syms[a].0 || syms[b].0 == syms[a].1 || syms[b].1 == syms[a].0
                || syms[b].1 == syms[a].1)
                && (syms[c].0 == syms[b].0 || syms[c].0 == syms[b].1 || syms[c].1 == syms[b].0
                || syms[c].1 == syms[b].1),
{
    law_market_catalog_sound(syms);
    let t = market_catalog(syms)[q];
    assert(is_market_triangle_entry(syms, t));
    let (i, j, k) = choose|i: int, j: int, k: int|
        0 <= i < syms.len() && 0 <= j < syms.len() && 0 <= k < syms.len() && is_market_triangle(
            syms[i],
            syms[j],
            syms[k],
        ) && t == #[trigger] seq_of3(syms[i], syms[j], syms[k]);
    assert(stable_coin() =~= seq!['U', 'S', 'D', 'T']);
    assert(t == seq![syms[i], syms[j], syms[k]]);
}

/// The side of an order.
#[derive(Debug, Clone, Copy, PartialEq, Eq)]
pub enum OrderSide {
    Buy,
    Sell,
}

/// A leg on market `a` followed by market `next` buys when the base coin of
/// `a` is traded on `next`.
pub open spec fn buys_into(a: MarketView, next: MarketView) -> bool {
    a.0 == next.0 || a.0 == next.1
}

pub open spec fn side_of(a: MarketView, next: MarketView) -> OrderSide {
    if buys_into(a, next) {
        OrderSide::Buy
    } else {
        OrderSide::Sell
    }
}

fn leg_side(a: &Symbol, next: &Symbol) -> (r: (Symbol, OrderSide))
    requires
        shares_market(a@, next@),
    ensures
        r.0 == *a,
        r.1 == side_of(a@, next@),
{
    if a.pair1 == next.pair1 || a.pair1 == next.pair2 {
        (clone_symbol(a), OrderSide::Buy)
    } else {
        (clone_symbol(a), OrderSide::Sell)
    }
}

/// The side of each leg of a triangle: each market is bought when its base
/// coin is traded on the following market (the first market follows the
/// third), and sold otherwise.
pub fn find_order_order(pairs: &[Symbol; 3]) -> (r: [(Symbol, OrderSide); 3])
    requires
        shares_market(pairs@[0]@, pairs@[1]@),
        shares_market(pairs@[1]@, pairs@[2]@),
        shares_market(pairs@[2]@, pairs@[0]@),
    ensures
        forall|q: int|
            0 <= q < 3 ==> (#[trigger] r@[q]).0 == pairs@[q] && r@[q].1 == side_of(
                pairs@[q]@,
                pairs@[(q + 1) % 3]@,
            ),
{
    let first = leg_side(&pairs[0], &pairs[1]);
    let second = leg_side(&pairs[1], &pairs[2]);
    let third = leg_side(&pairs[2], &pairs[0]);
    let r = [first, second, third];
    assert(r@[0] == first && r@[1] == second && r@[2] == third);
    r
}

/// Each leg of a routed triangle buys exactly when the base coin of its
/// market is the base or the quote of the next market (the first market
/// follows the third), and sells otherwise; the legs keep the markets in order.
pub proof fn law_leg_sides(pairs: Seq<Symbol>, r: Seq<(Symbol, OrderSide)>)
    requires
        pairs.len() == 3,
        r.len() == 3,
        forall|q: int|
            0 <= q < 3 ==> (#[trigger] r[q]).0 == pairs[q] && r[q].1 == side_of(
                pairs[q]@,
                pairs[(q + 1) % 3]@,
            ),
    ensures
        forall|q: int|
            0 <= q < 3 ==> (#[trigger] r[q]).0 == pairs[q] && ((r[q].1 == OrderSide::Buy) <==> (
            pairs[q].pair1@ == pairs[(q + 1) % 3].pair1@ || pairs[q].pair1@ == pairs[(q + 1) % 3].pair2@))
                && (r[q].1 == OrderSide::Buy || r[q].1 == OrderSide::Sell),
{
}

/// Every catalog triangle can be routed: each market shares a coin with the
/// next one, the third with the first included.
pub proof fn law_catalog_triangles_route(m: Seq<MarketView>, q: int)
    requires
        0 <= q < market_catalog(m).len(),
    ensures
        shares_market(market_catalog(m)[q][0], market_catalog(m)[q][1]),
        shares_market(market_catalog(m)[q][1], market_catalog(m)[q][2]),
        shares_market(market_catalog(m)[q][2], market_catalog(m)[q][0]),
{
    law_market_catalog_sound(m);
    let t = market_catalog(m)[q];
    assert(is_market_triangle_entry(m, t));
    let (i, j, k) = choose|i: int, j: int, k: int|
        0 <= i < m.len() && 0 <= j < m.len() && 0 <= k < m.len() && is_market_triangle(
            m[i],
            m[j],
            m[k],
        ) && t == #[trigger] seq_of3(m[i], m[j], m[k]);
    assert(t[0] == m[i] && t[1] == m[j] && t[2] == m[k]);
}

/// The market is kept for trading: it is not the US dollar quoted in itself.
pub open spec fn kept_market(m: MarketView) -> bool {
    !(m.0 == "USD"@ && m.1 == "USD"@)
}

/// The kept markets, in the exchange's order.
pub open spec fn kept_markets(ms: Seq<MarketView>) -> Seq<MarketView>
    decreases ms.len(),
{
    if ms.len() == 0 {
        seq![]
    } else if kept_market(ms.last()) {
        kept_markets(ms.drop_last()).push(ms.last())
    } else {
        kept_markets(ms.drop_last())
    }
}

/// The markets kept for trading are exactly the listed markets other than
/// the US dollar quoted in itself, and no more of them than were listed.
pub proof fn law_kept_markets(ms: Seq<MarketView>)
    ensures
        forall|x: MarketView|
            #[trigger] kept_markets(ms).contains(x) <==> (ms.contains(x) && !(x.0 == seq!['U', 'S', 'D'] && x.1
                == seq!['U', 'S', 'D'])),
        kept_markets(ms).len() <= ms.len(),
    decreases ms.len(),
{
    assert("USD"@ =~= seq!['U', 'S', 'D']) by {
        reveal_strlit("USD");
    }
    if ms.len() > 0 {
        let init = ms.drop_last();
        law_kept_markets(init);
        assert forall|x: MarketView|
            #[trigger] kept_markets(ms).contains(x) <==> (ms.contains(x) && !(x.0 == seq!['U', 'S', 'D'] && x.1
                == seq!['U', 'S', 'D'])) by {
            lemma_contains_push(init, ms.last(), x);
            assert(init.push(ms.last()) =~= ms);
            if kept_market(ms.last()) {
                lemma_contains_push(kept_markets(init), ms.last(), x);
            }
        }
    }
}

/// `c` is the base or the quote coin of one of the markets.
pub open spec fn coin_listed(ms: Seq<MarketView>, c: Seq<char>) -> bool {
    exists|i: int| 0 <= i < ms.len() && (#[trigger] ms[i].0 == c || ms[i].1 == c)
}

/// Each name comes before the next in the order of `String`: the names are
/// sorted and none repeats.
pub open spec fn strictly_ascending(s: Seq<Seq<char>>) -> bool {
    forall|i: int, j: int| 0 <= i < j < s.len() ==> lex_lt(#[trigger] s[i], #[trigger] s[j])
}

pub open spec fn name_pairs(v: Seq<(String, String)>) -> Seq<MarketView> {
    v.map_values(|p: (String, String)| (p.0@, p.1@))
}

/// Adds `c` to the sorted names unless it is there already.
fn insert_coin(coins: &mut Vec<String>, c: &String)
    requires
        strictly_ascending(string_views(old(coins)@)),
    ensures
        strictly_ascending(string_views(final(coins)@)),
        forall|x: Seq<char>| #[trigger] string_views(final(coins)@).contains(x) <==> (string_views(old(coins)@).contains(x) || x == c@),
{
    let ghost v0 = string_views(coins@);
    let n = coins.len();
    let mut i: usize = 0;
    while i < n
        invariant
            n == coins@.len(),
            i <= n,
            v0 == string_views(coins@),
            forall|j: int| 0 <= j < i ==> lex_lt(#[trigger] v0[j], c@),
        ensures
            i <= n,
            forall|j: int| 0 <= j < i ==> lex_lt(#[trigger] v0[j], c@),
            i < n ==> !lex_lt(v0[i as int], c@),
        decreases n - i,
    {
        if !str_less(coins[i].as_str(), c.as_str()) {
            break;
        }
        i = i + 1;
    }
    if i < n && coins[i] == *c {
        assert(v0[i as int] == c@);
        assert forall|x: Seq<char>| #[trigger] v0.contains(x) <==> (v0.contains(x) || x == c@) by {
            if x == c@ {
                assert(v0[i as int] == x);
            }
        }
        return;
    }
    proof {
        if i < n {
            assert(!lex_lt(v0[i as int], c@));
            assert(v0[i as int] != c@);
            lemma_lex_total(v0[i as int], c@);
        }
    }
    coins.insert(i, c.clone());
    let ghost v1 = string_views(coins@);
    assert(v1 =~= v0.insert(i as int, c@));
    assert forall|a: int, b: int| 0 <= a < b < v1.len() implies lex_lt(#[trigger] v1[a], #[trigger] v1[b]) by {
        if b < i {
            assert(v1[a] == v0[a] && v1[b] == v0[b]);
        } else if b == i {
            assert(v1[a] == v0[a]);
        } else if a < i {
            assert(v1[a] == v0[a] && v1[b] == v0[b - 1]);
            assert(lex_lt(v0[a], c@));
            assert(lex_lt(c@, v0[i as int]));
            if b - 1 > i {
                assert(lex_lt(v0[i as int], v0[b - 1]));
                lemma_lex_transitive(c@, v0[i as int], v0[b - 1]);
            }
            lemma_lex_transitive(v0[a], c@, v0[b - 1]);
        } else if a == i {
            assert(v1[b] == v0[b - 1]);
            if b - 1 > i {
                assert(lex_lt(v0[i as int], v0[b - 1]));
                lemma_lex_transitive(c@, v0[i as int], v0[b - 1]);
            }
        } else {
            assert(v1[a] == v0[a - 1] && v1[b] == v0[b - 1]);
        }
    }
    assert forall|x: Seq<char>| #[trigger] v1.contains(x) <==> (v0.contains(x) || x == c@) by {
        if v1.contains(x) {
            let k = choose|k: int| 0 <= k < v1.len() && v1[k] == x;
            if k < i {
                assert(v0[k] == x);
            } else if k > i {
                assert(v0[k - 1] == x);
            }
        }
        if v0.contains(x) {
            let k = choose|k: int| 0 <= k < v0.len() && v0[k] == x;
            if k < i {
                assert(v1[k] == x);
            } else {
                assert(v1[k + 1] == x);
            }
        }
        if x == c@ {
            assert(v1[i as int] == x);
        }
    }
}

/// The markets to trade and their coins: every market but the US dollar
/// quoted in itself, in the exchange's order, and the coins of those
/// markets, sorted and without repeats.
pub fn pairs_and_coins(markets: &Vec<(String, String)>) -> (r: (Vec<Symbol>, Vec<String>))
    ensures
        markets_view(r.0@) == kept_markets(name_pairs(markets@)),
        strictly_ascending(string_views(r.1@)),
        forall|c: Seq<char>| #[trigger] string_views(r.1@).contains(c) <==> coin_listed(kept_markets(name_pairs(markets@)), c),
{
    let usd = String::from_str("USD");
    let mut pairs: Vec<Symbol> = Vec::new();
    let mut coins: Vec<String> = Vec::new();
    let n = markets.len();
    let mut k: usize = 0;
    assert(markets_view(pairs@) =~= seq![]);
    while k < n
        invariant
            n == markets@.len(),
            k <= n,
            usd@ == "USD"@,
            markets_view(pairs@) == kept_markets(name_pairs(markets@).subrange(0, k as int)),
            strictly_ascending(string_views(coins@)),
            forall|c: Seq<char>| #[trigger] string_views(coins@).contains(c) <==> coin_listed(kept_markets(name_pairs(markets@).subrange(0, k as int)), c),
        decreases n - k,
    {
        let ghost before = kept_markets(name_pairs(markets@).subrange(0, k as int));
        let ghost m = name_pairs(markets@)[k as int];
        assert(name_pairs(markets@).subrange(0, k + 1).drop_last() =~= name_pairs(markets@).subrange(0, k as int));
        assert(name_pairs(markets@).subrange(0, k + 1).last() == m);
        let base = &markets[k].0;
        let quote = &markets[k].1;
        assert(m == (base@, quote@));
        if !(*base == usd) || !(*quote == usd) {
            assert(kept_market(m));
            let ghost old_coins = string_views(coins@);
            pairs.push(Symbol::new(base.as_str(), quote.as_str()));
            insert_coin(&mut coins, base);
            insert_coin(&mut coins, quote);
            let ghost after = before.push(m);
            assert(markets_view(pairs@) =~= after);
            assert forall|c: Seq<char>| #[trigger] string_views(coins@).contains(c) <==> coin_listed(after, c) by {
                if coin_listed(before, c) {
                    let i = choose|i: int| 0 <= i < before.len() && (#[trigger] before[i].0 == c || before[i].1 == c);
                    assert(after[i] == before[i]);
                }
                if coin_listed(after, c) {
                    let i = choose|i: int| 0 <= i < after.len() && (#[trigger] after[i].0 == c || after[i].1 == c);
                    if i < before.len() {
                        assert(after[i] == before[i]);
                        assert(coin_listed(before, c));
                    } else {
                        assert(after[i] == m);
                    }
                }
                if c == m.0 || c == m.1 {
                    assert(after[before.len() as int] == m);
                }
            }
        } else {
            assert(!kept_market(m));
        }
        k = k + 1;
    }
    assert(name_pairs(markets@).subrange(0, n as int) =~= name_pairs(markets@));
    (pairs, coins)
}

/// The market has a book to start from: its name holds no `4`.
pub fn has_starter_book(symbol: &Symbol) -> (r: bool)
    ensures
        r == !has_substring(pair_name(symbol@), "4"@),
{
    let name = symbol.pair();
    !str_contains(name.as_str(), "4")
}

} // verus!
