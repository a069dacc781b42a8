//! Triangles of KuCoin symbols (`BASE-QUOTE` strings): the catalog of coin
//! triangles that start and end in the stable coin, and the side of each leg.
use vstd::prelude::*;
use crate::text::{
    has_substring, splits_in_two, left_part, right_part, str_contains, split_pair,
};

verus! {

/// The stable coin that every triangle starts from and returns to.
pub open spec fn stable_coin() -> Seq<char> {
    seq!['U', 'S', 'D', 'T']
}

/// A symbol names the stable coin somewhere in its text.
pub open spec fn is_stable_symbol(s: Seq<char>) -> bool {
    has_substring(s, stable_coin())
}

/// Two symbols have a coin in common (compared part by part).
pub open spec fn shares_coin(a: Seq<char>, b: Seq<char>) -> bool {
    ||| left_part(b) == left_part(a)
    ||| left_part(b) == right_part(a)
    ||| right_part(b) == left_part(a)
    ||| right_part(b) == right_part(a)
}

/// The six coin names of a triangle of symbols, in order.
pub open spec fn six_parts(a: Seq<char>, b: Seq<char>, c: Seq<char>) -> Seq<Seq<char>> {
    seq![left_part(a), right_part(a), left_part(b), right_part(b), left_part(c), right_part(c)]
}

/// How many entries of `p` equal `x`.
pub open spec fn occurrences(p: Seq<Seq<char>>, x: Seq<char>) -> nat
    decreases p.len(),
{
    if p.len() == 0 {
        0
    } else {
        occurrences(p.drop_last(), x) + if p.last() == x { 1nat } else { 0nat }
    }
}

/// The occurrences of a name in a list are its multiplicity among the
/// list's names.
pub proof fn law_occurrences_count(p: Seq<Seq<char>>, x: Seq<char>)
    ensures
        occurrences(p, x) == p.to_multiset().count(x),
    decreases p.len(),
{
    broadcast use vstd::multiset::group_multiset_axioms;
    if p.len() == 0 {
        assert(p.to_multiset() =~= vstd::multiset::Multiset::<Seq<char>>::empty()) by {
            vstd::seq_lib::to_multiset_len(p);
        }
    } else {
        let init = p.drop_last();
        law_occurrences_count(init, x);
        assert(init.push(p.last()) =~= p);
        vstd::seq_lib::to_multiset_build(init, p.last());
    }
}

/// Every name of `p` occurs in it exactly twice.
pub open spec fn each_twice(p: Seq<Seq<char>>) -> bool {
    forall|i: int| 0 <= i < p.len() ==> occurrences(p, #[trigger] p[i]) == 2
}

/// `a`, `b`, `c` form a catalog triangle: `a` and `c` trade the stable coin,
/// `b` does not, consecutive legs share a coin, the three symbols differ, and
/// every coin is named exactly twice.
pub open spec fn is_triangle(a: Seq<char>, b: Seq<char>, c: Seq<char>) -> bool {
    &&& is_stable_symbol(a)
    &&& b != a
    &&& !is_stable_symbol(b)
    &&& shares_coin(a, b)
    &&& c != b
    &&& c != a
    &&& is_stable_symbol(c)
    &&& shares_coin(b, c)
    &&& each_twice(six_parts(a, b, c))
}

/// A catalog entry as plain values: the three symbols and their six parts.
pub type EntryView = (Seq<Seq<char>>, Seq<Seq<char>>);

pub open spec fn entry_of(a: Seq<char>, b: Seq<char>, c: Seq<char>) -> EntryView {
    (seq![a, b, c], six_parts(a, b, c))
}

pub open spec fn string_views(v: Seq<String>) -> Seq<Seq<char>> {
    v.map_values(|s: String| s@)
}

pub open spec fn entry_view(e: ([String; 3], [String; 6])) -> EntryView {
    (string_views(e.0@), string_views(e.1@))
}

pub open spec fn entries_view(v: Seq<([String; 3], [String; 6])>) -> Seq<EntryView> {
    v.map_values(|e: ([String; 3], [String; 6])| entry_view(e))
}

/// Triangles `(i, j, k')` for all `k' < k`, in increasing `k'`.
pub open spec fn third_legs(syms: Seq<Seq<char>>, i: int, j: int, k: int) -> Seq<EntryView>
    decreases k,
{
    if k <= 0 {
        seq![]
    } else {
        third_legs(syms, i, j, k - 1) + if is_triangle(syms[i], syms[j], syms[k - 1]) {
            seq![entry_of(syms[i], syms[j], syms[k - 1])]
        } else {
            seq![]
        }
    }
}

/// Triangles `(i, j', k)` for all `j' < j`, in the order of the nested loops.
pub open spec fn second_legs(syms: Seq<Seq<char>>, i: int, j: int) -> Seq<EntryView>
    decreases j,
{
    if j <= 0 {
        seq![]
    } else {
        second_legs(syms, i, j - 1) + third_legs(syms, i, j - 1, syms.len() as int)
    }
}

/// Triangles `(i', j, k)` for all `i' < i`, in the order of the nested loops.
pub open spec fn first_legs(syms: Seq<Seq<char>>, i: int) -> Seq<EntryView>
    decreases i,
{
    if i <= 0 {
        seq![]
    } else {
        first_legs(syms, i - 1) + second_legs(syms, i - 1, syms.len() as int)
    }
}

/// The catalog of a list of symbols: every triangle, ordered by the index of
/// its first, then second, then third symbol.
pub open spec fn catalog(syms: Seq<Seq<char>>) -> Seq<EntryView> {
    first_legs(syms, syms.len() as int)
}

/// The catalog can be built without a symbol failing to split: when some
/// symbol trades the stable coin, every symbol holds exactly one dash.
pub open spec fn catalog_defined(syms: Seq<Seq<char>>) -> bool {
    (exists|i: int| 0 <= i < syms.len() && is_stable_symbol(#[trigger] syms[i])) ==> forall|j: int|
        0 <= j < syms.len() ==> splits_in_two(#[trigger] syms[j])
}

/// Whether a symbol trades the stable coin, as `symbol.contains("USDT")` answers.
pub fn contains_stable_coin(s: &str) -> (r: bool)
    ensures
        r == is_stable_symbol(s@),
{
    let coin = "USDT";
    proof {
        reveal_strlit("USDT");
        assert(coin@ =~= stable_coin());
    }
    str_contains(s, coin)
}

proof fn lemma_occurrences_push(p: Seq<Seq<char>>, y: Seq<char>, x: Seq<char>)
    ensures
        occurrences(p.push(y), x) == occurrences(p, x) + if y == x { 1nat } else { 0nat },
{
    assert(p.push(y).drop_last() =~= p);
}

/// Whether every one of the six names occurs exactly twice among them (the
/// count that the catalog takes with a map from name to number of uses).
pub fn each_appears_twice(parts: &[String; 6]) -> (r: bool)
    ensures
        r == each_twice(string_views(parts@)),
{
    let ghost p = string_views(parts@);
    let mut x: usize = 0;
    while x < 6
        invariant
            x <= 6,
            p == string_views(parts@),
            p.len() == 6,
            forall|q: int| 0 <= q < x ==> occurrences(p, #[trigger] p[q]) == 2,
        decreases 6 - x,
    {
        let mut count: usize = 0;
        let mut y: usize = 0;
        while y < 6
            invariant
                x < 6,
                y <= 6,
                p == string_views(parts@),
                p.len() == 6,
                count == occurrences(p.subrange(0, y as int), p[x as int]),
                count <= y,
            decreases 6 - y,
        {
            proof {
                assert(p.subrange(0, y + 1) =~= p.subrange(0, y as int).push(p[y as int]));
                lemma_occurrences_push(p.subrange(0, y as int), p[y as int], p[x as int]);
            }
            if parts[y] == parts[x] {
                count = count + 1;
            }
            y = y + 1;
        }
        assert(p.subrange(0, 6) =~= p);
        if count != 2 {
            return false;
        }
        x = x + 1;
    }
    true
}

proof fn lemma_entries_push(v: Seq<([String; 3], [String; 6])>, e: ([String; 3], [String; 6]))
    ensures
        entries_view(v.push(e)) == entries_view(v).push(entry_view(e)),
{
    assert(entries_view(v.push(e)) =~= entries_view(v).push(entry_view(e)));
}

/// Appends every triangle whose first two symbols are `tickers[i]` and
/// `tickers[j]` (split into `a0-a1` and `b0-b1`), trying third symbols in order.
fn push_third_legs(
    tickers: &Vec<String>,
    i: usize,
    j: usize,
    a0: &String,
    a1: &String,
    b0: &String,
    b1: &String,
    out: &mut Vec<([String; 3], [String; 6])>,
)
    requires
        i < tickers@.len(),
        j < tickers@.len(),
        catalog_defined(string_views(tickers@)),
        is_stable_symbol(tickers@[i as int]@),
        tickers@[j as int]@ != tickers@[i as int]@,
        !is_stable_symbol(tickers@[j as int]@),
        shares_coin(tickers@[i as int]@, tickers@[j as int]@),
        a0@ == left_part(tickers@[i as int]@),
        a1@ == right_part(tickers@[i as int]@),
        b0@ == left_part(tickers@[j as int]@),
        b1@ == right_part(tickers@[j as int]@),
    ensures
        entries_view(final(out)@) == entries_view(old(out)@) + third_legs(
            string_views(tickers@),
            i as int,
            j as int,
            tickers@.len() as int,
        ),
{
    let ghost syms = string_views(tickers@);
    let n = tickers.len();
    assert(syms[i as int] == tickers@[i as int]@);
    assert(syms[j as int] == tickers@[j as int]@);
    let mut k: usize = 0;
    while k < n
        invariant
            n == tickers@.len(),
            syms == string_views(tickers@),
            syms.len() == n,
            i < n,
            j < n,
            k <= n,
            catalog_defined(syms),
            is_stable_symbol(syms[i as int]),
            syms[j as int] != syms[i as int],
            !is_stable_symbol(syms[j as int]),
            shares_coin(syms[i as int], syms[j as int]),
            syms[i as int] == tickers@[i as int]@,
            syms[j as int] == tickers@[j as int]@,
            a0@ == left_part(syms[i as int]),
            a1@ == right_part(syms[i as int]),
            b0@ == left_part(syms[j as int]),
            b1@ == right_part(syms[j as int]),
            entries_view(out@) == entries_view(old(out)@) + third_legs(syms, i as int, j as int, k as int),
        decreases n - k,
    {
        let ghost before = out@;
        assert(syms[k as int] == tickers@[k as int]@);
        let third = &tickers[k];
        if *third == tickers[j] || *third == tickers[i] || !contains_stable_coin(third.as_str()) {
            assert(!is_triangle(syms[i as int], syms[j as int], syms[k as int]));
            assert(third_legs(syms, i as int, j as int, k + 1) =~= third_legs(syms, i as int, j as int, k as int));
            k = k + 1;
            continue;
        }
        assert(splits_in_two(syms[k as int]));
        let (c0, c1) = match split_pair(third.as_str()) {
            Some(parts) => parts,
            None => { proof { assert(false); } return; }
        };
        if !(c0 == *b0) && !(c0 == *b1) && !(c1 == *b0) && !(c1 == *b1) {
            assert(!is_triangle(syms[i as int], syms[j as int], syms[k as int]));
            assert(third_legs(syms, i as int, j as int, k + 1) =~= third_legs(syms, i as int, j as int, k as int));
            k = k + 1;
            continue;
        }
        let names: [String; 3] = [tickers[i].clone(), tickers[j].clone(), third.clone()];
        let parts: [String; 6] = [a0.clone(), a1.clone(), b0.clone(), b1.clone(), c0, c1];
        let ghost e = entry_of(syms[i as int], syms[j as int], syms[k as int]);
        assert(string_views(names@) =~= e.0);
        assert(string_views(parts@) =~= e.1);
        if each_appears_twice(&parts) {
            assert(is_triangle(syms[i as int], syms[j as int], syms[k as int]));
            proof {
                lemma_entries_push(out@, (names, parts));
            }
            out.push((names, parts));
            assert(third_legs(syms, i as int, j as int, k + 1) =~= third_legs(syms, i as int, j as int, k as int).push(e));
        } else {
            assert(!is_triangle(syms[i as int], syms[j as int], syms[k as int]));
            assert(third_legs(syms, i as int, j as int, k + 1) =~= third_legs(syms, i as int, j as int, k as int));
        }
        k = k + 1;
    }
}

proof fn lemma_third_legs_empty(syms: Seq<Seq<char>>, i: int, j: int, k: int)
    requires
        forall|q: int| 0 <= q < k ==> !is_triangle(syms[i], syms[j], #[trigger] syms[q]),
    ensures
        third_legs(syms, i, j, k) == Seq::<EntryView>::empty(),
    decreases k,
{
    if k > 0 {
        lemma_third_legs_empty(syms, i, j, k - 1);
        assert(third_legs(syms, i, j, k) =~= third_legs(syms, i, j, k - 1));
    }
}

proof fn lemma_second_legs_empty(syms: Seq<Seq<char>>, i: int, j: int)
    requires
        !is_stable_symbol(syms[i]),
    ensures
        second_legs(syms, i, j) == Seq::<EntryView>::empty(),
    decreases j,
{
    if j > 0 {
        lemma_second_legs_empty(syms, i, j - 1);
        lemma_third_legs_empty(syms, i, j - 1, syms.len() as int);
        assert(second_legs(syms, i, j) =~= second_legs(syms, i, j - 1));
    }
}

/// Appends every triangle whose first symbol is `tickers[i]` (split into
/// `a0-a1`), trying second symbols in order.
fn push_second_legs(
    tickers: &Vec<String>,
    i: usize,
    a0: &String,
    a1: &String,
    out: &mut Vec<([String; 3], [String; 6])>,
)
    requires
        i < tickers@.len(),
        catalog_defined(string_views(tickers@)),
        is_stable_symbol(tickers@[i as int]@),
        a0@ == left_part(tickers@[i as int]@),
        a1@ == right_part(tickers@[i as int]@),
    ensures
        entries_view(final(out)@) == entries_view(old(out)@) + second_legs(
            string_views(tickers@),
            i as int,
            tickers@.len() as int,
        ),
{
    let ghost syms = string_views(tickers@);
    let n = tickers.len();
    assert(syms[i as int] == tickers@[i as int]@);
    let mut j: usize = 0;
    while j < n
        invariant
            n == tickers@.len(),
            syms == string_views(tickers@),
            syms.len() == n,
            i < n,
            j <= n,
            catalog_defined(syms),
            is_stable_symbol(syms[i as int]),
            syms[i as int] == tickers@[i as int]@,
            a0@ == left_part(syms[i as int]),
            a1@ == right_part(syms[i as int]),
            entries_view(out@) == entries_view(old(out)@) + second_legs(syms, i as int, j as int),
        decreases n - j,
    {
        assert(syms[j as int] == tickers@[j as int]@);
        let second = &tickers[j];
        if *second == tickers[i] || contains_stable_coin(second.as_str()) {
            proof {
                lemma_third_legs_empty(syms, i as int, j as int, n as int);
            }
            assert(second_legs(syms, i as int, j + 1) =~= second_legs(syms, i as int, j as int));
            j = j + 1;
            continue;
        }
        assert(splits_in_two(syms[j as int]));
        let (b0, b1) = match split_pair(second.as_str()) {
            Some(parts) => parts,
            None => { proof { assert(false); } return; }
        };
        if !(b0 == *a0) && !(b0 == *a1) && !(b1 == *a0) && !(b1 == *a1) {
            proof {
                lemma_third_legs_empty(syms, i as int, j as int, n as int);
            }
            assert(second_legs(syms, i as int, j + 1) =~= second_legs(syms, i as int, j as int));
            j = j + 1;
            continue;
        }
        push_third_legs(tickers, i, j, a0, a1, &b0, &b1, out);
        assert(second_legs(syms, i as int, j + 1) =~= second_legs(syms, i as int, j as int)
            + third_legs(syms, i as int, j as int, n as int));
        j = j + 1;
    }
}

/// Builds the catalog of triangles over the symbols of a ticker list: for each
/// stable first leg, each other non-stable second leg sharing a coin with it,
/// and each third stable leg sharing a coin with the second, keeps the
/// triangle when every coin is named exactly twice. Each entry holds the three
/// symbols and their six coin names.
pub fn create_valid_pairs_catalog(tickers: &Vec<String>) -> (r: Vec<([String; 3], [String; 6])>)
    requires
        catalog_defined(string_views(tickers@)),
    ensures
        entries_view(r@) == catalog(string_views(tickers@)),
{
    let ghost syms = string_views(tickers@);
    let n = tickers.len();
    let mut out: Vec<([String; 3], [String; 6])> = Vec::new();
    let mut i: usize = 0;
    assert(entries_view(out@) =~= first_legs(syms, 0));
    while i < n
        invariant
            n == tickers@.len(),
            syms == string_views(tickers@),
            syms.len() == n,
            i <= n,
            catalog_defined(syms),
            entries_view(out@) == first_legs(syms, i as int),
        decreases n - i,
    {
        assert(syms[i as int] == tickers@[i as int]@);
        let first = &tickers[i];
        if !contains_stable_coin(first.as_str()) {
            proof {
                lemma_second_legs_empty(syms, i as int, n as int);
            }
            assert(first_legs(syms, i + 1) =~= first_legs(syms, i as int));
            i = i + 1;
            continue;
        }
        assert(splits_in_two(syms[i as int]));
        let (a0, a1) = match split_pair(first.as_str()) {
            Some(parts) => parts,
            None => { proof { assert(false); } return out; }
        };
        push_second_legs(tickers, i, &a0, &a1, &mut out);
        assert(first_legs(syms, i + 1) =~= first_legs(syms, i as int) + second_legs(syms, i as int, n as int));
        i = i + 1;
    }
    out
}

/// `e` is the entry of some triangle of `syms`.
pub open spec fn is_triangle_entry(syms: Seq<Seq<char>>, e: EntryView) -> bool {
    exists|i: int, j: int, k: int|
        0 <= i < syms.len() && 0 <= j < syms.len() && 0 <= k < syms.len() && is_triangle(
            syms[i],
            syms[j],
            syms[k],
        ) && e == #[trigger] entry_of(syms[i], syms[j], syms[k])
}

proof fn lemma_third_legs_sound(syms: Seq<Seq<char>>, i: int, j: int, k: int)
    requires
        0 <= i < syms.len(),
        0 <= j < syms.len(),
        k <= syms.len(),
    ensures
        forall|q: int|
            0 <= q < third_legs(syms, i, j, k).len() ==> is_triangle_entry(
                syms,
                #[trigger] third_legs(syms, i, j, k)[q],
            ),
    decreases k,
{
    if k > 0 {
        lemma_third_legs_sound(syms, i, j, k - 1);
        let prev = third_legs(syms, i, j, k - 1);
        let all = third_legs(syms, i, j, k);
        assert forall|q: int| 0 <= q < all.len() implies is_triangle_entry(syms, #[trigger] all[q]) by {
            if q < prev.len() {
                assert(all[q] == prev[q]);
            } else {
                let e = entry_of(syms[i], syms[j], syms[k - 1]);
                assert(all[q] == e);
                assert(is_triangle_entry(syms, e));
            }
        }
    }
}

proof fn lemma_second_legs_sound(syms: Seq<Seq<char>>, i: int, j: int)
    requires
        0 <= i < syms.len(),
        j <= syms.len(),
    ensures
        forall|q: int|
            0 <= q < second_legs(syms, i, j).len() ==> is_triangle_entry(
                syms,
                #[trigger] second_legs(syms, i, j)[q],
            ),
    decreases j,
{
    if j > 0 {
        lemma_second_legs_sound(syms, i, j - 1);
        lemma_third_legs_sound(syms, i, j - 1, syms.len() as int);
        let prev = second_legs(syms, i, j - 1);
        let rest = third_legs(syms, i, j - 1, syms.len() as int);
        let all = second_legs(syms, i, j);
        assert forall|q: int| 0 <= q < all.len() implies is_triangle_entry(syms, #[trigger] all[q]) by {
            if q < prev.len() {
                assert(all[q] == prev[q]);
            } else {
                assert(all[q] == rest[q - prev.len()]);
            }
        }
    }
}

proof fn lemma_first_legs_sound(syms: Seq<Seq<char>>, i: int)
    requires
        i <= syms.len(),
    ensures
        forall|q: int|
            0 <= q < first_legs(syms, i).len() ==> is_triangle_entry(
                syms,
                #[trigger] first_legs(syms, i)[q],
            ),
    decreases i,
{
    if i > 0 {
        lemma_first_legs_sound(syms, i - 1);
        lemma_second_legs_sound(syms, i - 1, syms.len() as int);
        let prev = first_legs(syms, i - 1);
        let rest = second_legs(syms, i - 1, syms.len() as int);
        let all = first_legs(syms, i);
        assert forall|q: int| 0 <= q < all.len() implies is_triangle_entry(syms, #[trigger] all[q]) by {
            if q < prev.len() {
                assert(all[q] == prev[q]);
            } else {
                assert(all[q] == rest[q - prev.len()]);
            }
        }
    }
}

/// Every catalog entry is a triangle of the given symbols: the first and third
/// symbols trade the stable coin, the second does not, consecutive symbols
/// share a coin, and every coin of the route is named exactly twice.
pub proof fn law_catalog_sound(syms: Seq<Seq<char>>)
    ensures
        forall|q: int|
            0 <= q < catalog(syms).len() ==> is_triangle_entry(syms, #[trigger] catalog(syms)[q]),
{
    lemma_first_legs_sound(syms, syms.len() as int);
}

proof fn lemma_third_legs_complete(syms: Seq<Seq<char>>, i: int, j: int, k: int, c: int)
    requires
        0 <= c < k,
        is_triangle(syms[i], syms[j], syms[c]),
    ensures
        third_legs(syms, i, j, k).contains(entry_of(syms[i], syms[j], syms[c])),
    decreases k,
{
    let e = entry_of(syms[i], syms[j], syms[c]);
    if c == k - 1 {
        let prev = third_legs(syms, i, j, k - 1);
        assert(third_legs(syms, i, j, k)[prev.len() as int] == e);
    } else {
        lemma_third_legs_complete(syms, i, j, k - 1, c);
        let w = choose|w: int| 0 <= w < third_legs(syms, i, j, k - 1).len()
            && #[trigger] third_legs(syms, i, j, k - 1)[w] == e;
        assert(third_legs(syms, i, j, k)[w] == e);
    }
}

proof fn lemma_second_legs_complete(syms: Seq<Seq<char>>, i: int, j: int, b: int, c: int)
    requires
        0 <= b < j,
        0 <= c < syms.len(),
        is_triangle(syms[i], syms[b], syms[c]),
    ensures
        second_legs(syms, i, j).contains(entry_of(syms[i], syms[b], syms[c])),
    decreases j,
{
    let e = entry_of(syms[i], syms[b], syms[c]);
    let prev = second_legs(syms, i, j - 1);
    if b == j - 1 {
        lemma_third_legs_complete(syms, i, b, syms.len() as int, c);
        let w = choose|w: int| 0 <= w < third_legs(syms, i, b, syms.len() as int).len()
            && #[trigger] third_legs(syms, i, b, syms.len() as int)[w] == e;
        assert(second_legs(syms, i, j)[prev.len() + w] == e);
    } else {
        lemma_second_legs_complete(syms, i, j - 1, b, c);
        let w = choose|w: int| 0 <= w < prev.len() && #[trigger] prev[w] == e;
        assert(second_legs(syms, i, j)[w] == e);
    }
}

proof fn lemma_first_legs_complete(syms: Seq<Seq<char>>, i: int, a: int, b: int, c: int)
    requires
        0 <= a < i,
        0 <= b < syms.len(),
        0 <= c < syms.len(),
        is_triangle(syms[a], syms[b], syms[c]),
    ensures
        first_legs(syms, i).contains(entry_of(syms[a], syms[b], syms[c])),
    decreases i,
{
    let e = entry_of(syms[a], syms[b], syms[c]);
    let prev = first_legs(syms, i - 1);
    if a == i - 1 {
        lemma_second_legs_complete(syms, a, syms.len() as int, b, c);
        let w = choose|w: int| 0 <= w < second_legs(syms, a, syms.len() as int).len()
            && #[trigger] second_legs(syms, a, syms.len() as int)[w] == e;
        assert(first_legs(syms, i)[prev.len() + w] == e);
    } else {
        lemma_first_legs_complete(syms, i - 1, a, b, c);
        let w = choose|w: int| 0 <= w < prev.len() && #[trigger] prev[w] == e;
        assert(first_legs(syms, i)[w] == e);
    }
}

/// Every triangle of the given symbols appears in the catalog.
pub proof fn law_catalog_complete(syms: Seq<Seq<char>>, a: int, b: int, c: int)
    requires
        0 <= a < syms.len(),
        0 <= b < syms.len(),
        0 <= c < syms.len(),
        is_triangle(syms[a], syms[b], syms[c]),
    ensures
        catalog(syms).contains(entry_of(syms[a], syms[b], syms[c])),
{
    lemma_first_legs_complete(syms, syms.len() as int, a, b, c);
}

/// The text `s` holds `USDT` somewhere.
pub open spec fn names_usdt(s: Seq<char>) -> bool {
    exists|i: int| 0 <= i && i + 4 <= s.len() && #[trigger] s.subrange(i, i + 4) == seq!['U', 'S', 'D', 'T']
}

proof fn lemma_names_usdt(s: Seq<char>)
    ensures
        names_usdt(s) <==> is_stable_symbol(s),
{
    assert(stable_coin().len() == 4);
    if names_usdt(s) {
        let i = choose|i: int| 0 <= i && i + 4 <= s.len() && #[trigger] s.subrange(i, i + 4) == seq!['U', 'S', 'D', 'T'];
        assert(s.subrange(i, i + stable_coin().len()) == stable_coin());
    }
    if is_stable_symbol(s) {
        let i = choose|i: int| 0 <= i && i + stable_coin().len() <= s.len() && #[trigger] s.subrange(i, i + stable_coin().len()) == stable_coin();
        assert(s.subrange(i, i + 4) == seq!['U', 'S', 'D', 'T']);
    }
}

/// The catalog holds every route of three symbols whose first and third
/// symbols hold `USDT` in their text and whose second does not, the three
/// symbols differ, each symbol has a coin (left or right of its dash) in
/// common with the next, and every coin is named exactly twice; each entry
/// lists the three symbols and their six coins in order.
pub proof fn law_catalog_takes_every_usdt_route(syms: Seq<Seq<char>>, a: int, b: int, c: int)
    requires
        0 <= a < syms.len(),
        0 <= b < syms.len(),
        0 <= c < syms.len(),
        names_usdt(syms[a]),
        !names_usdt(syms[b]),
        names_usdt(syms[c]),
        syms[a] != syms[b],
        syms[b] != syms[c],
        syms[a] != syms[c],
        left_part(syms[b]) == left_part(syms[a]) || left_part(syms[b]) == right_part(syms[a]) || right_part(
            syms[b],
        ) == left_part(syms[a]) || right_part(syms[b]) == right_part(syms[a]),
        left_part(syms[c]) == left_part(syms[b]) || left_part(syms[c]) == right_part(syms[b]) || right_part(
            syms[c],
        ) == left_part(syms[b]) || right_part(syms[c]) == right_part(syms[b]),
        each_twice(
            seq![
                left_part(syms[a]),
                right_part(syms[a]),
                left_part(syms[b]),
                right_part(syms[b]),
                left_part(syms[c]),
                right_part(syms[c]),
            ],
        ),
    ensures
        catalog(syms).contains(
            (
                seq![syms[a], syms[b], syms[c]],
                seq![
                    left_part(syms[a]),
                    right_part(syms[a]),
                    left_part(syms[b]),
                    right_part(syms[b]),
                    left_part(syms[c]),
                    right_part(syms[c]),
                ],
            ),
        ),
{
    lemma_names_usdt(syms[a]);
    lemma_names_usdt(syms[b]);
    lemma_names_usdt(syms[c]);
    assert(six_parts(syms[a], syms[b], syms[c]) =~= seq![
        left_part(syms[a]),
        right_part(syms[a]),
        left_part(syms[b]),
        right_part(syms[b]),
        left_part(syms[c]),
        right_part(syms[c]),
    ]);
    law_catalog_complete(syms, a, b, c);
}

/// Every catalog entry is a route of three symbols whose first and third
/// hold `USDT` in their text and whose second does not.
pub proof fn law_catalog_entries_name_usdt(syms: Seq<Seq<char>>, q: int)
    requires
        0 <= q < catalog(syms).len(),
    ensures
        names_usdt((#[trigger] catalog(syms)[q]).0[0]),
        !names_usdt(catalog(syms)[q].0[1]),
        names_usdt(catalog(syms)[q].0[2]),
        catalog(syms)[q].0.len() == 3,
{
    law_catalog_sound(syms);
    let e = catalog(syms)[q];
    assert(is_triangle_entry(syms, e));
    let (i, j, k) = choose|i: int, j: int, k: int|
        0 <= i < syms.len() && 0 <= j < syms.len() && 0 <= k < syms.len() && is_triangle(syms[i], syms[j], syms[k])
            && e == #[trigger] entry_of(syms[i], syms[j], syms[k]);
    lemma_names_usdt(syms[i]);
    lemma_names_usdt(syms[j]);
    lemma_names_usdt(syms[k]);
}

/// One leg of a route: buy or sell on the market `base-quote`.
#[derive(Debug, Clone)]
pub enum ArbOrd {
    Buy(String, String),
    Sell(String, String),
}

/// A leg as plain values: whether it buys, and the two coin names.
pub type LegView = (bool, Seq<char>, Seq<char>);

pub open spec fn arb_view(o: ArbOrd) -> LegView {
    match o {
        ArbOrd::Buy(a, b) => (true, a@, b@),
        ArbOrd::Sell(a, b) => (false, a@, b@),
    }
}

pub open spec fn arbs_view(v: Seq<ArbOrd>) -> Seq<LegView> {
    v.map_values(|o: ArbOrd| arb_view(o))
}

/// The side of the leg on the market `p[x]-p[y]`, judged against the next
/// market `p[nx]-p[ny]`: buy when the base is traded next, sell when the
/// quote is, and no leg when neither is.
pub open spec fn leg_of(p: Seq<Seq<char>>, x: int, y: int, nx: int, ny: int) -> Seq<LegView> {
    if p[x] == p[nx] || p[x] == p[ny] {
        seq![(true, p[x], p[y])]
    } else if p[y] == p[nx] || p[y] == p[ny] {
        seq![(false, p[x], p[y])]
    } else {
        seq![]
    }
}

/// The legs of a route given by its six coin names.
pub open spec fn order_of(p: Seq<Seq<char>>) -> Seq<LegView> {
    leg_of(p, 0, 1, 2, 3) + leg_of(p, 2, 3, 4, 5) + leg_of(p, 4, 5, 0, 1)
}

fn push_leg(p: &Vec<String>, x: usize, y: usize, nx: usize, ny: usize, out: &mut Vec<ArbOrd>)
    requires
        x < p@.len(),
        y < p@.len(),
        nx < p@.len(),
        ny < p@.len(),
    ensures
        arbs_view(final(out)@) == arbs_view(old(out)@) + leg_of(
            string_views(p@),
            x as int,
            y as int,
            nx as int,
            ny as int,
        ),
{
    let ghost v = string_views(p@);
    assert(v[x as int] == p@[x as int]@ && v[y as int] == p@[y as int]@);
    assert(v[nx as int] == p@[nx as int]@ && v[ny as int] == p@[ny as int]@);
    if p[x] == p[nx] || p[x] == p[ny] {
        let leg = ArbOrd::Buy(p[x].clone(), p[y].clone());
        out.push(leg);
    } else if p[y] == p[nx] || p[y] == p[ny] {
        let leg = ArbOrd::Sell(p[x].clone(), p[y].clone());
        out.push(leg);
    }
    assert(arbs_view(out@) =~= arbs_view(old(out)@) + leg_of(v, x as int, y as int, nx as int, ny as int));
}

/// The side of each leg of a route given by its six coin names
/// (`[base1, quote1, base2, quote2, base3, quote3]`).
pub fn find_order_order(coin_pair: Vec<String>) -> (r: Vec<ArbOrd>)
    requires
        coin_pair@.len() >= 6,
    ensures
        arbs_view(r@) == order_of(string_views(coin_pair@)),
{
    let mut order: Vec<ArbOrd> = Vec::new();
    assert(arbs_view(order@) =~= Seq::<LegView>::empty());
    push_leg(&coin_pair, 0, 1, 2, 3, &mut order);
    push_leg(&coin_pair, 2, 3, 4, 5, &mut order);
    push_leg(&coin_pair, 4, 5, 0, 1, &mut order);
    assert(arbs_view(order@) =~= order_of(string_views(coin_pair@)));
    order
}

/// Every catalog triangle is a closed route of three legs: each symbol's side
/// is decided by the next symbol, the third against the first.
pub proof fn law_triangle_has_three_legs(a: Seq<char>, b: Seq<char>, c: Seq<char>)
    requires
        is_triangle(a, b, c),
    ensures
        order_of(six_parts(a, b, c)).len() == 3,
{
    let p = six_parts(a, b, c);
    reveal_with_fuel(occurrences, 7);
    assert(p.drop_last() =~= seq![p[0], p[1], p[2], p[3], p[4]]);
    assert(p.drop_last().drop_last() =~= seq![p[0], p[1], p[2], p[3]]);
    assert(p.drop_last().drop_last().drop_last() =~= seq![p[0], p[1], p[2]]);
    assert(p.drop_last().drop_last().drop_last().drop_last() =~= seq![p[0], p[1]]);
    assert(p.drop_last().drop_last().drop_last().drop_last().drop_last() =~= seq![p[0]]);
    assert(occurrences(p, p[0]) == 2);
    assert(occurrences(p, p[1]) == 2);
    assert(occurrences(p, p[4]) == 2);
    assert(occurrences(p, p[5]) == 2);
}

/// For a route given by its six coins `[base1, quote1, base2, quote2,
/// base3, quote3]` in which each market has a coin on the next one (the
/// first following the third), there is one leg per market, in order, on
/// that market's base and quote; a leg buys exactly when its base coin is
/// the base or the quote of the next market.
pub proof fn law_kucoin_leg_sides(p: Seq<Seq<char>>, r: Seq<LegView>)
    requires
        p.len() >= 6,
        r == order_of(p),
        p[0] == p[2] || p[0] == p[3] || p[1] == p[2] || p[1] == p[3],
        p[2] == p[4] || p[2] == p[5] || p[3] == p[4] || p[3] == p[5],
        p[4] == p[0] || p[4] == p[1] || p[5] == p[0] || p[5] == p[1],
    ensures
        r.len() == 3,
        r[0] == (p[0] == p[2] || p[0] == p[3], p[0], p[1]),
        r[1] == (p[2] == p[4] || p[2] == p[5], p[2], p[3]),
        r[2] == (p[4] == p[0] || p[4] == p[1], p[4], p[5]),
{
}

/// The market a leg trades on, written `BASE-QUOTE` as Kucoin names it.
pub open spec fn leg_symbol(leg: LegView) -> Seq<char> {
    leg.1 + "-"@ + leg.2
}

/// The side of a leg as Kucoin writes it in an order.
pub open spec fn leg_side_name(leg: LegView) -> Seq<char> {
    if leg.0 {
        "buy"@
    } else {
        "sell"@
    }
}

/// The market of a leg, `BASE-QUOTE`.
pub fn order_symbol(leg: &ArbOrd) -> (r: String)
    ensures
        r@ == leg_symbol(arb_view(*leg)),
{
    match leg {
        ArbOrd::Buy(a, b) => a.clone().concat("-").concat(b.as_str()),
        ArbOrd::Sell(a, b) => a.clone().concat("-").concat(b.as_str()),
    }
}

/// The side of a leg in an order: `buy` or `sell`.
pub fn order_side(leg: &ArbOrd) -> (r: &'static str)
    ensures
        r@ == leg_side_name(arb_view(*leg)),
{
    match leg {
        ArbOrd::Buy(..) => "buy",
        ArbOrd::Sell(..) => "sell",
    }
}

} // verus!
