//! Character-level helpers on symbol strings: substring search, splitting a
//! `BASE-QUOTE` symbol at its dash, and counting occurrences.
use vstd::prelude::*;

verus! {

/// `t` occurs in `s` as a contiguous run of characters.
pub open spec fn has_substring(s: Seq<char>, t: Seq<char>) -> bool {
    exists|i: int| 0 <= i && i + t.len() <= s.len() && #[trigger] s.subrange(i, i + t.len()) == t
}

/// `t` occurs in `s` starting exactly at position `i`.
pub open spec fn occurs_at(s: Seq<char>, t: Seq<char>, i: int) -> bool {
    0 <= i && i + t.len() <= s.len() && forall|k: int| 0 <= k < t.len() ==> #[trigger] s[i + k] == t[k]
}

/// Number of positions of `s` that hold the character `c`.
pub open spec fn count_char(s: Seq<char>, c: char) -> nat
    decreases s.len(),
{
    if s.len() == 0 {
        0
    } else {
        count_char(s.drop_last(), c) + if s.last() == c { 1nat } else { 0nat }
    }
}

/// The dash that separates the two coins of a symbol.
pub open spec fn dash() -> char {
    '-'
}

/// A symbol splits into exactly two parts at `-`: it holds exactly one dash.
pub open spec fn splits_in_two(s: Seq<char>) -> bool {
    count_char(s, dash()) == 1
}

/// Position of the first dash of `s` (the length of `s` when there is none).
pub open spec fn first_dash(s: Seq<char>) -> int
    decreases s.len(),
{
    if s.len() == 0 {
        0
    } else if s[0] == dash() {
        0
    } else {
        1 + first_dash(s.drop_first())
    }
}

proof fn lemma_first_dash_bounds(s: Seq<char>)
    ensures
        0 <= first_dash(s) <= s.len(),
        forall|k: int| 0 <= k < first_dash(s) ==> s[k] != '-',
        first_dash(s) < s.len() ==> s[first_dash(s)] == '-',
    decreases s.len(),
{
    if s.len() > 0 && s[0] != dash() {
        lemma_first_dash_bounds(s.drop_first());
        assert forall|k: int| 0 <= k < first_dash(s) implies s[k] != '-' by {
            if k > 0 {
                assert(s[k] == s.drop_first()[k - 1]);
            }
        }
    }
}

proof fn lemma_count_prefix(s: Seq<char>, c: char, a: int, b: int)
    requires
        0 <= a <= b <= s.len(),
    ensures
        count_char(s.subrange(0, a), c) <= count_char(s.subrange(0, b), c),
        b > 0 && s[b - 1] == c ==> count_char(s.subrange(0, b), c) == count_char(s.subrange(0, b - 1), c) + 1,
    decreases b - a,
{
    if b > 0 {
        assert(s.subrange(0, b).drop_last() =~= s.subrange(0, b - 1));
    }
    if a < b {
        lemma_count_prefix(s, c, a, b - 1);
    }
}

proof fn lemma_count_none(s: Seq<char>, c: char)
    requires
        forall|k: int| 0 <= k < s.len() ==> s[k] != c,
    ensures
        count_char(s, c) == 0,
    decreases s.len(),
{
    if s.len() > 0 {
        lemma_count_none(s.drop_last(), c);
    }
}

/// A symbol that holds exactly one dash is its left part, the dash, and its
/// right part, and neither part holds a dash.
pub proof fn law_split_at_the_dash(s: Seq<char>)
    requires
        splits_in_two(s),
    ensures
        s == left_part(s) + seq!['-'] + right_part(s),
        forall|k: int| 0 <= k < left_part(s).len() ==> left_part(s)[k] != '-',
        forall|k: int| 0 <= k < right_part(s).len() ==> right_part(s)[k] != '-',
{
    lemma_first_dash_bounds(s);
    let d = first_dash(s);
    if d == s.len() {
        lemma_count_none(s, '-');
    }
    assert(s[d] == '-');
    assert(s =~= left_part(s) + seq!['-'] + right_part(s));
    assert forall|k: int| 0 <= k < right_part(s).len() implies right_part(s)[k] != '-' by {
        let j = d + 1 + k;
        if s[j] == '-' {
            lemma_count_prefix(s, '-', d + 1, j + 1);
            lemma_count_prefix(s, '-', j + 1, s.len() as int);
            lemma_count_prefix(s, '-', 0, d + 1);
            lemma_count_prefix(s, '-', 0, d);
            lemma_count_prefix(s, '-', d + 1, j);
            assert(s.subrange(0, s.len() as int) =~= s);
        }
    }
}

/// The part of a symbol before its dash.
pub open spec fn left_part(s: Seq<char>) -> Seq<char> {
    s.subrange(0, first_dash(s))
}

/// The part of a symbol after its dash.
pub open spec fn right_part(s: Seq<char>) -> Seq<char> {
    s.subrange(first_dash(s) + 1, s.len() as int)
}

proof fn lemma_occurs_at_subrange(s: Seq<char>, t: Seq<char>, i: int)
    requires
        0 <= i,
        i + t.len() <= s.len(),
    ensures
        occurs_at(s, t, i) <==> s.subrange(i, i + t.len()) == t,
{
    if occurs_at(s, t, i) {
        assert forall|k: int| 0 <= k < t.len() implies #[trigger] s.subrange(i, i + t.len())[k]
            == t[k] by {
            assert(s[i + k] == t[k]);
        }
        assert(s.subrange(i, i + t.len()) =~= t);
    }
    if s.subrange(i, i + t.len()) == t {
        assert forall|k: int| 0 <= k < t.len() implies #[trigger] s[i + k] == t[k] by {
            assert(s.subrange(i, i + t.len())[k] == s[i + k]);
        }
    }
}

/// Whether `t` occurs in `s`, as `str::contains` with a string pattern answers.
pub fn str_contains(s: &str, t: &str) -> (r: bool)
    ensures
        r == has_substring(s@, t@),
{
    let n = s.unicode_len();
    let m = t.unicode_len();
    if m > n {
        assert(!has_substring(s@, t@));
        return false;
    }
    let mut i: usize = 0;
    while i <= n - m
        invariant
            n == s@.len(),
            m == t@.len(),
            m <= n,
            i <= n - m + 1,
            forall|j: int| 0 <= j < i ==> !occurs_at(s@, t@, j),
        decreases n - i,
    {
        let mut k: usize = 0;
        let mut matched = true;
        while k < m
            invariant
                n == s@.len(),
                m == t@.len(),
                i + m <= n,
                k <= m,
                matched ==> forall|q: int| 0 <= q < k ==> #[trigger] s@[i + q] == t@[q],
                !matched ==> !occurs_at(s@, t@, i as int),
            decreases m - k,
        {
            if matched && s.get_char(i + k) != t.get_char(k) {
                matched = false;
            }
            k = k + 1;
        }
        if matched {
            proof {
                lemma_occurs_at_subrange(s@, t@, i as int);
            }
            return true;
        }
        i = i + 1;
    }
    proof {
        assert forall|j: int|
            0 <= j && j + t@.len() <= s@.len() implies #[trigger] s@.subrange(j, j + t@.len())
            != t@ by {
            lemma_occurs_at_subrange(s@, t@, j);
        }
    }
    false
}

proof fn lemma_first_dash(s: Seq<char>, k: int)
    requires
        0 <= k <= s.len(),
        forall|j: int| 0 <= j < k ==> s[j] != dash(),
        k < s.len() ==> s[k] == dash(),
    ensures
        first_dash(s) == k,
    decreases k,
{
    if k > 0 {
        assert(s[0] != dash());
        lemma_first_dash(s.drop_first(), k - 1);
    }
}

/// Splits a symbol at its dash, as `split('-')` collected into exactly two
/// parts does; `None` when the symbol does not hold exactly one dash.
pub fn split_pair(s: &str) -> (r: Option<(String, String)>)
    ensures
        r is Some <==> splits_in_two(s@),
        r matches Some((a, b)) ==> a@ == left_part(s@) && b@ == right_part(s@),
{
    let n = s.unicode_len();
    let mut k: usize = 0;
    let mut dashes: usize = 0;
    let mut pos: usize = 0;
    while k < n
        invariant
            n == s@.len(),
            k <= n,
            dashes == count_char(s@.subrange(0, k as int), dash()),
            dashes <= k,
            dashes == 0 ==> forall|j: int| 0 <= j < k ==> s@[j] != dash(),
            dashes > 0 ==> pos < k && s@[pos as int] == dash() && forall|j: int|
                0 <= j < pos ==> s@[j] != dash(),
        decreases n - k,
    {
        assert(s@.subrange(0, k + 1).drop_last() =~= s@.subrange(0, k as int));
        if s.get_char(k) == '-' {
            if dashes == 0 {
                pos = k;
            }
            dashes = dashes + 1;
        }
        k = k + 1;
    }
    assert(s@.subrange(0, n as int) =~= s@);
    if dashes != 1 {
        return None;
    }
    proof {
        lemma_first_dash(s@, pos as int);
    }
    let left = s.substring_char(0, pos).to_owned();
    let right = s.substring_char(pos + 1, n).to_owned();
    Some((left, right))
}

/// `a` comes before `b` in the order of `String`: character by character by
/// code point, a proper prefix first.
pub open spec fn lex_lt(a: Seq<char>, b: Seq<char>) -> bool
    decreases a.len(),
{
    if a.len() == 0 {
        b.len() > 0
    } else if b.len() == 0 {
        false
    } else if a[0] != b[0] {
        (a[0] as int) < (b[0] as int)
    } else {
        lex_lt(a.drop_first(), b.drop_first())
    }
}

/// `a` comes before `b` exactly when `a` is a proper prefix of `b`, or at the
/// first position where they differ `a` holds the smaller code point.
pub proof fn law_lex_order(a: Seq<char>, b: Seq<char>)
    ensures
        lex_lt(a, b) <==> (a.len() < b.len() && a == b.subrange(0, a.len() as int)) || exists|i: int|
            0 <= i < a.len() && i < b.len() && a.subrange(0, i) == b.subrange(0, i) && (#[trigger] a[i] as int)
                < (b[i] as int),
    decreases a.len(),
{
    if a.len() == 0 {
        assert(a =~= b.subrange(0, 0));
    } else if b.len() == 0 {
    } else if a[0] != b[0] {
        if (a[0] as int) < (b[0] as int) {
            assert(a.subrange(0, 0) =~= b.subrange(0, 0));
            assert((a[0] as int) < (b[0] as int));
        } else {
            if exists|i: int|
                0 <= i < a.len() && i < b.len() && a.subrange(0, i) == b.subrange(0, i) && (#[trigger] a[i] as int)
                    < (b[i] as int) {
                let i = choose|i: int|
                    0 <= i < a.len() && i < b.len() && a.subrange(0, i) == b.subrange(0, i) && (#[trigger] a[i] as int)
                        < (b[i] as int);
                if i > 0 {
                    assert(a.subrange(0, i)[0] == b.subrange(0, i)[0]);
                }
            }
            if a.len() < b.len() && a == b.subrange(0, a.len() as int) {
                assert(a[0] == b.subrange(0, a.len() as int)[0]);
            }
        }
    } else {
        let (a1, b1) = (a.drop_first(), b.drop_first());
        law_lex_order(a1, b1);
        if a1.len() < b1.len() && a1 == b1.subrange(0, a1.len() as int) {
            assert forall|k: int| 0 <= k < a.len() implies #[trigger] a[k] == b.subrange(0, a.len() as int)[k] by {
                if k > 0 {
                    assert(a[k] == a1[k - 1]);
                    assert(b1.subrange(0, a1.len() as int)[k - 1] == b[k]);
                }
            }
            assert(a =~= b.subrange(0, a.len() as int));
        }
        if a.len() < b.len() && a == b.subrange(0, a.len() as int) {
            assert(a1 =~= b1.subrange(0, a1.len() as int));
        }
        if exists|i: int|
            0 <= i < a1.len() && i < b1.len() && a1.subrange(0, i) == b1.subrange(0, i) && (#[trigger] a1[i] as int)
                < (b1[i] as int) {
            let i = choose|i: int|
                0 <= i < a1.len() && i < b1.len() && a1.subrange(0, i) == b1.subrange(0, i) && (#[trigger] a1[i] as int)
                    < (b1[i] as int);
            assert(a.subrange(0, i + 1) =~= b.subrange(0, i + 1)) by {
                assert forall|k: int| 0 <= k < i + 1 implies #[trigger] a.subrange(0, i + 1)[k] == b.subrange(0, i + 1)[k] by {
                    if k > 0 {
                        assert(a1.subrange(0, i)[k - 1] == b1.subrange(0, i)[k - 1]);
                    }
                }
            }
            assert(a[i + 1] == a1[i]);
        }
        if exists|i: int|
            0 <= i < a.len() && i < b.len() && a.subrange(0, i) == b.subrange(0, i) && (#[trigger] a[i] as int)
                < (b[i] as int) {
            let i = choose|i: int|
                0 <= i < a.len() && i < b.len() && a.subrange(0, i) == b.subrange(0, i) && (#[trigger] a[i] as int)
                    < (b[i] as int);
            assert(i > 0);
            assert(a1.subrange(0, i - 1) =~= b1.subrange(0, i - 1)) by {
                assert forall|k: int| 0 <= k < i - 1 implies #[trigger] a1.subrange(0, i - 1)[k] == b1.subrange(0, i - 1)[k] by {
                    assert(a.subrange(0, i)[k + 1] == b.subrange(0, i)[k + 1]);
                }
            }
            assert(a1[i - 1] == a[i]);
        }
    }
}

pub proof fn lemma_lex_transitive(a: Seq<char>, b: Seq<char>, c: Seq<char>)
    requires
        lex_lt(a, b),
        lex_lt(b, c),
    ensures
        lex_lt(a, c),
    decreases a.len(),
{
    if a.len() > 0 && b.len() > 0 && c.len() > 0 && a[0] == b[0] && b[0] == c[0] {
        lemma_lex_transitive(a.drop_first(), b.drop_first(), c.drop_first());
    }
}

pub proof fn lemma_lex_total(a: Seq<char>, b: Seq<char>)
    requires
        a != b,
    ensures
        lex_lt(a, b) || lex_lt(b, a),
    decreases a.len(),
{
    if a.len() > 0 && b.len() > 0 && a[0] == b[0] {
        if a.drop_first() == b.drop_first() {
            assert(a =~= seq![a[0]] + a.drop_first());
            assert(b =~= seq![b[0]] + b.drop_first());
        }
        lemma_lex_total(a.drop_first(), b.drop_first());
    } else if a.len() == 0 && b.len() == 0 {
        assert(a =~= b);
    }
}

proof fn lemma_lex_from(a: Seq<char>, b: Seq<char>, k: int)
    requires
        0 <= k <= a.len(),
        k <= b.len(),
        a.subrange(0, k) == b.subrange(0, k),
    ensures
        lex_lt(a, b) == lex_lt(a.subrange(k, a.len() as int), b.subrange(k, b.len() as int)),
    decreases k,
{
    if k > 0 {
        assert(a[0] == a.subrange(0, k)[0]);
        assert(b[0] == b.subrange(0, k)[0]);
        assert(a.drop_first().subrange(0, k - 1) =~= a.subrange(0, k).drop_first());
        assert(b.drop_first().subrange(0, k - 1) =~= b.subrange(0, k).drop_first());
        lemma_lex_from(a.drop_first(), b.drop_first(), k - 1);
        assert(a.drop_first().subrange(k - 1, a.len() - 1) =~= a.subrange(k, a.len() as int));
        assert(b.drop_first().subrange(k - 1, b.len() - 1) =~= b.subrange(k, b.len() as int));
    } else {
        assert(a.subrange(0, a.len() as int) =~= a);
        assert(b.subrange(0, b.len() as int) =~= b);
    }
}

/// `a < b` on strings.
pub fn str_less(a: &str, b: &str) -> (r: bool)
    ensures
        r == lex_lt(a@, b@),
{
    let n = a.unicode_len();
    let m = b.unicode_len();
    let mut k: usize = 0;
    while k < n && k < m
        invariant
            n == a@.len(),
            m == b@.len(),
            k <= n,
            k <= m,
            a@.subrange(0, k as int) == b@.subrange(0, k as int),
        decreases n - k,
    {
        let x = a.get_char(k);
        let y = b.get_char(k);
        if x != y {
            proof {
                lemma_lex_from(a@, b@, k as int);
                assert(a@.subrange(k as int, n as int)[0] == x);
                assert(b@.subrange(k as int, m as int)[0] == y);
            }
            return (x as u32) < (y as u32);
        }
        assert(a@.subrange(0, k + 1) =~= a@.subrange(0, k as int).push(x));
        assert(b@.subrange(0, k + 1) =~= b@.subrange(0, k as int).push(y));
        k = k + 1;
    }
    proof {
        lemma_lex_from(a@, b@, k as int);
    }
    k == n && k < m
}

} // verus!
