//! Exact decimal numbers as plain values (a mantissa and a count of decimal
//! places), and the arithmetic of `rust_decimal` on them.
use vstd::prelude::*;
use rust_decimal::Decimal;

verus! {

/// A decimal number `mantissa / 10^scale`, as `rust_decimal::Decimal` holds it.
#[derive(Debug, Clone, Copy, PartialEq, Eq, Structural)]
pub struct Dec {
    pub mantissa: i128,
    pub scale: u32,
}

/// The largest mantissa a decimal holds: `2^96 - 1`.
pub const MAX_MANTISSA: i128 = 79228162514264337593543950335;

/// The largest number of decimal places a decimal holds.
pub const MAX_SCALE: u32 = 28;

pub open spec fn pow10(n: nat) -> int
    decreases n,
{
    if n == 0 {
        1
    } else {
        10 * pow10((n - 1) as nat)
    }
}

/// Division rounding toward zero, as integer division in Rust does.
pub open spec fn tz_div(m: int, d: int) -> int {
    if m >= 0 {
        m / d
    } else {
        -((-m) / d)
    }
}

/// `m1 / 10^s1` and `m2 / 10^s2` are the same number.
pub open spec fn same_value(m1: int, s1: nat, m2: int, s2: nat) -> bool {
    m1 * pow10(s2) == m2 * pow10(s1)
}

/// `m1 / 10^s1` is less than `m2 / 10^s2`.
pub open spec fn less_value(m1: int, s1: nat, m2: int, s2: nat) -> bool {
    m1 * pow10(s2) < m2 * pow10(s1)
}

impl Dec {
    /// The mantissa fits in 96 bits and the scale is at most 28.
    pub open spec fn wf(self) -> bool {
        -MAX_MANTISSA <= self.mantissa <= MAX_MANTISSA && self.scale <= MAX_SCALE
    }

    pub open spec fn m(self) -> int {
        self.mantissa as int
    }

    pub open spec fn s(self) -> nat {
        self.scale as nat
    }

    /// `self` and `other` are the same number.
    pub open spec fn eq_value(self, other: Dec) -> bool {
        same_value(self.m(), self.s(), other.m(), other.s())
    }

    /// `self` is less than `other`.
    pub open spec fn lt_value(self, other: Dec) -> bool {
        less_value(self.m(), self.s(), other.m(), other.s())
    }
}

/// The sum `a + b` written at the larger of the two scales.
pub open spec fn sum_at_common_scale(a: Dec, b: Dec, negate_b: bool) -> (int, nat) {
    let s = if a.s() >= b.s() { a.s() } else { b.s() };
    let mb = if negate_b { -b.m() } else { b.m() };
    (a.m() * pow10((s - a.s()) as nat) + mb * pow10((s - b.s()) as nat), s)
}

/// A mantissa and scale that a decimal can hold.
pub open spec fn fits(n: (int, nat)) -> bool {
    -MAX_MANTISSA <= n.0 <= MAX_MANTISSA && n.1 <= MAX_SCALE
}

/// What `Decimal::checked_add` returns for `a` and `b`.
pub uninterp spec fn decimal_checked_add(a: Dec, b: Dec) -> Option<Dec>;

/// What `Decimal::checked_sub` returns for `a` and `b`.
pub uninterp spec fn decimal_checked_sub(a: Dec, b: Dec) -> Option<Dec>;

/// What `Decimal::checked_mul` returns for `a` and `b`.
pub uninterp spec fn decimal_checked_mul(a: Dec, b: Dec) -> Option<Dec>;

/// What `Decimal::trunc_with_scale` returns for `a` and `scale`.
pub uninterp spec fn decimal_trunc_with_scale(a: Dec, scale: u32) -> Dec;

/// What `Decimal::fract` returns for `a`.
pub uninterp spec fn decimal_fract(a: Dec) -> Dec;

/// The integer part of `a`, rounded toward zero, at scale 0.
pub open spec fn trunc_of(a: Dec) -> Dec {
    Dec { mantissa: tz_div(a.m(), pow10(a.s())) as i128, scale: 0 }
}

/// The largest integer not above `a`, at scale 0.
pub open spec fn floor_of(a: Dec) -> Dec {
    Dec { mantissa: (a.m() / pow10(a.s())) as i128, scale: 0 }
}

/// `a` is a whole multiple of `b`: written at a common scale, `b` divides `a`.
pub open spec fn divides(b: Dec, a: Dec) -> bool {
    (a.m() * pow10(b.s())) % (b.m() * pow10(a.s())) == 0
}

/// `Decimal::checked_add`: the sum, or `None` when it overflows. The sum is
/// exact whenever it can be held at the larger of the two scales; otherwise
/// the crate rounds it, and which value comes out is left to the name.
#[verifier::external_body]
pub(crate) fn checked_add(a: Dec, b: Dec) -> (r: Option<Dec>)
    requires
        a.wf(),
        b.wf(),
    ensures
        r == decimal_checked_add(a, b),
        r matches Some(x) ==> x.wf(),
        fits(sum_at_common_scale(a, b, false)) ==> r is Some && same_value(
            r.unwrap().m(),
            r.unwrap().s(),
            sum_at_common_scale(a, b, false).0,
            sum_at_common_scale(a, b, false).1,
        ),
{
    let x = Decimal::from_i128_with_scale(a.mantissa, a.scale);
    let y = Decimal::from_i128_with_scale(b.mantissa, b.scale);
    match x.checked_add(y) {
        Some(z) => Some(Dec { mantissa: z.mantissa(), scale: z.scale() }),
        None => None,
    }
}

/// `Decimal::checked_sub`: the difference, or `None` when it overflows. The
/// difference is exact whenever it can be held at the larger of the two
/// scales; otherwise the crate rounds it, and which value comes out is left to
/// the name.
#[verifier::external_body]
pub(crate) fn checked_sub(a: Dec, b: Dec) -> (r: Option<Dec>)
    requires
        a.wf(),
        b.wf(),
    ensures
        r == decimal_checked_sub(a, b),
        r matches Some(x) ==> x.wf(),
        fits(sum_at_common_scale(a, b, true)) ==> r is Some && same_value(
            r.unwrap().m(),
            r.unwrap().s(),
            sum_at_common_scale(a, b, true).0,
            sum_at_common_scale(a, b, true).1,
        ),
{
    let x = Decimal::from_i128_with_scale(a.mantissa, a.scale);
    let y = Decimal::from_i128_with_scale(b.mantissa, b.scale);
    match x.checked_sub(y) {
        Some(z) => Some(Dec { mantissa: z.mantissa(), scale: z.scale() }),
        None => None,
    }
}

/// `Decimal::checked_mul`: the product, or `None` when it overflows. The
/// product is exact whenever the product of the mantissas fits in 96 bits and
/// the sum of the scales is at most 28; otherwise the crate rounds it, and
/// which value comes out is left to the name.
#[verifier::external_body]
pub(crate) fn checked_mul(a: Dec, b: Dec) -> (r: Option<Dec>)
    requires
        a.wf(),
        b.wf(),
    ensures
        r == decimal_checked_mul(a, b),
        r matches Some(x) ==> x.wf(),
        fits((a.m() * b.m(), a.s() + b.s())) ==> r is Some && same_value(
            r.unwrap().m(),
            r.unwrap().s(),
            a.m() * b.m(),
            a.s() + b.s(),
        ),
{
    let x = Decimal::from_i128_with_scale(a.mantissa, a.scale);
    let y = Decimal::from_i128_with_scale(b.mantissa, b.scale);
    match x.checked_mul(y) {
        Some(z) => Some(Dec { mantissa: z.mantissa(), scale: z.scale() }),
        None => None,
    }
}

/// `a % b` on decimals: the exact remainder of dividing `a` by a nonzero
/// `b`, so it is zero exactly when `b` divides `a`. Which digits and scale
/// the crate writes a nonzero remainder with is left unsaid.
#[verifier::external_body]
pub(crate) fn rem(a: Dec, b: Dec) -> (r: Dec)
    requires
        a.wf(),
        b.wf(),
        b.mantissa != 0,
    ensures
        r.wf(),
        r.eq_value(Dec { mantissa: 0, scale: 0 }) <==> divides(b, a),
{
    let x = Decimal::from_i128_with_scale(a.mantissa, a.scale);
    let y = Decimal::from_i128_with_scale(b.mantissa, b.scale);
    let z = x % y;
    Dec { mantissa: z.mantissa(), scale: z.scale() }
}

/// `a < b` on decimals, which compares the numbers themselves.
#[verifier::external_body]
pub(crate) fn lt(a: Dec, b: Dec) -> (r: bool)
    requires
        a.wf(),
        b.wf(),
    ensures
        r == a.lt_value(b),
{
    Decimal::from_i128_with_scale(a.mantissa, a.scale) < Decimal::from_i128_with_scale(b.mantissa, b.scale)
}

/// `a == b` on decimals, which compares the numbers themselves (`1.0 == 1`).
#[verifier::external_body]
pub(crate) fn eq(a: Dec, b: Dec) -> (r: bool)
    requires
        a.wf(),
        b.wf(),
    ensures
        r == a.eq_value(b),
{
    Decimal::from_i128_with_scale(a.mantissa, a.scale) == Decimal::from_i128_with_scale(b.mantissa, b.scale)
}

/// `Decimal::trunc`: the integer part, rounded toward zero, at scale 0.
#[verifier::external_body]
pub(crate) fn trunc(a: Dec) -> (r: Dec)
    requires
        a.wf(),
    ensures
        r == trunc_of(a),
        r.wf(),
        r.scale == 0,
        r.m() == tz_div(a.m(), pow10(a.s())),
{
    let z = Decimal::from_i128_with_scale(a.mantissa, a.scale).trunc();
    Dec { mantissa: z.mantissa(), scale: z.scale() }
}

/// `Decimal::trunc_with_scale`: the number cut (toward zero) to `scale`
/// decimal places.
#[verifier::external_body]
pub(crate) fn trunc_with_scale(a: Dec, scale: u32) -> (r: Dec)
    requires
        a.wf(),
        scale <= MAX_SCALE,
    ensures
        r == decimal_trunc_with_scale(a, scale),
        r.wf(),
        same_value(r.m(), r.s(), tz_div(a.m() * pow10(scale as nat), pow10(a.s())), scale as nat),
        r.scale <= a.scale || r.scale <= scale,
{
    let z = Decimal::from_i128_with_scale(a.mantissa, a.scale).trunc_with_scale(scale);
    Dec { mantissa: z.mantissa(), scale: z.scale() }
}

/// `Decimal::fract`: the number minus its integer part.
#[verifier::external_body]
pub(crate) fn fract(a: Dec) -> (r: Dec)
    requires
        a.wf(),
    ensures
        r == decimal_fract(a),
        r.wf(),
        same_value(r.m(), r.s(), a.m() - tz_div(a.m(), pow10(a.s())) * pow10(a.s()), a.s()),
        r.scale <= a.scale,
{
    let z = Decimal::from_i128_with_scale(a.mantissa, a.scale).fract();
    Dec { mantissa: z.mantissa(), scale: z.scale() }
}

/// `Decimal::normalize`: the same number with trailing zero places removed.
#[verifier::external_body]
pub(crate) fn normalize(a: Dec) -> (r: Dec)
    requires
        a.wf(),
    ensures
        r.wf(),
        r.eq_value(a),
        r.scale == 0 || r.mantissa % 10 != 0,
{
    let z = Decimal::from_i128_with_scale(a.mantissa, a.scale).normalize();
    Dec { mantissa: z.mantissa(), scale: z.scale() }
}

/// `Decimal::floor`: the largest integer not above the number, at scale 0.
#[verifier::external_body]
pub(crate) fn floor(a: Dec) -> (r: Dec)
    requires
        a.wf(),
    ensures
        r == floor_of(a),
        r.wf(),
        r.scale == 0,
        r.m() == a.m() / pow10(a.s()),
{
    let z = Decimal::from_i128_with_scale(a.mantissa, a.scale).floor();
    Dec { mantissa: z.mantissa(), scale: z.scale() }
}

pub proof fn lemma_pow10_positive(n: nat)
    ensures
        pow10(n) >= 1,
    decreases n,
{
    if n > 0 {
        lemma_pow10_positive((n - 1) as nat);
    }
}

pub proof fn lemma_pow10_add(a: nat, b: nat)
    ensures
        pow10(a + b) == pow10(a) * pow10(b),
    decreases b,
{
    if b > 0 {
        lemma_pow10_add(a, (b - 1) as nat);
        assert(pow10(a + b) == 10 * pow10((a + b - 1) as nat));
        assert(pow10(a) * pow10(b) == pow10(a) * (10 * pow10((b - 1) as nat)));
        assert(pow10(a) * (10 * pow10((b - 1) as nat)) == 10 * (pow10(a) * pow10((b - 1) as nat)))
            by (nonlinear_arith);
    }
}

pub proof fn lemma_pow10_mono(a: nat, b: nat)
    requires
        a <= b,
    ensures
        pow10(a) <= pow10(b),
{
    lemma_pow10_add(a, (b - a) as nat);
    lemma_pow10_positive(a);
    lemma_pow10_positive((b - a) as nat);
    assert(pow10(a) <= pow10(a) * pow10((b - a) as nat)) by (nonlinear_arith)
        requires
            pow10(a) >= 1,
            pow10((b - a) as nat) >= 1,
    ;
}

/// Splitting off the integer part commutes with shifting the decimal point.
pub proof fn lemma_tz_div_split(m: int, d: int, t: int)
    requires
        d > 0,
        t > 0,
    ensures
        tz_div(m * t, d) == tz_div(m, d) * t + tz_div((m - tz_div(m, d) * d) * t, d),
{
    let n = if m >= 0 { m } else { -m };
    let q = n / d;
    let r = n - q * d;
    vstd::arithmetic::div_mod::lemma_fundamental_div_mod(n, d);
    assert(q * d == d * q) by (nonlinear_arith);
    assert(r == n % d);
    assert(0 <= r < d) by {
        vstd::arithmetic::div_mod::lemma_mod_pos_bound(n, d);
    }
    assert(n * t == r * t + (q * t) * d) by (nonlinear_arith)
        requires
            n == d * q + r,
    ;
    assert(r * t >= 0) by (nonlinear_arith)
        requires
            r >= 0,
            t > 0,
    ;
    vstd::arithmetic::div_mod::lemma_hoist_over_denominator(r * t, q * t, d as nat);
    assert((n * t) / d == (r * t) / d + q * t);
    assert(n * t >= 0) by (nonlinear_arith)
        requires
            n >= 0,
            t > 0,
    ;
    if m >= 0 {
        assert(m - tz_div(m, d) * d == r);
    } else {
        assert(m * t == -(n * t)) by (nonlinear_arith)
            requires
                n == -m,
        ;
        assert(tz_div(m, d) == -q);
        assert((-q) * d == -(q * d)) by (nonlinear_arith);
        assert(m - tz_div(m, d) * d == -r);
        assert((-r) * t == -(r * t)) by (nonlinear_arith);
        if r * t == 0 {
            assert(tz_div((-r) * t, d) == 0);
        } else {
            assert(tz_div((-r) * t, d) == -((r * t) / d));
        }
        assert((-q) * t == -(q * t)) by (nonlinear_arith);
    }
}

/// Cancelling a common positive factor leaves a truncated quotient alone.
pub proof fn lemma_tz_div_cancel(x: int, d: int, c: int)
    requires
        d > 0,
        c > 0,
    ensures
        tz_div(x * c, d * c) == tz_div(x, d),
{
    let n = if x >= 0 { x } else { -x };
    assert(n * c >= 0) by (nonlinear_arith)
        requires
            n >= 0,
            c > 0,
    ;
    vstd::arithmetic::div_mod::lemma_div_denominator(n * c, c, d);
    assert((n * c) / (c * d) == ((n * c) / c) / d);
    vstd::arithmetic::div_mod::lemma_div_multiples_vanish(n, c);
    assert(c * n == n * c) by (nonlinear_arith);
    assert(c * d == d * c) by (nonlinear_arith);
    if x < 0 {
        assert(x * c == -(n * c)) by (nonlinear_arith)
            requires
                n == -x,
        ;
    }
}

/// A truncated quotient is no larger in size than the exact one.
pub proof fn lemma_tz_div_bound(x: int, d: int)
    requires
        d > 0,
    ensures
        (if tz_div(x, d) >= 0 { tz_div(x, d) } else { -tz_div(x, d) }) * d <= (if x >= 0 {
            x
        } else {
            -x
        }),
{
    let n = if x >= 0 { x } else { -x };
    vstd::arithmetic::div_mod::lemma_fundamental_div_mod(n, d);
    vstd::arithmetic::div_mod::lemma_mod_pos_bound(n, d);
    vstd::arithmetic::div_mod::lemma_div_pos_is_pos(n, d);
    assert((n / d) * d <= n) by (nonlinear_arith)
        requires
            n == d * (n / d) + n % d,
            n % d >= 0,
    ;
}

/// Ordering of decimals by value is transitive (`a <= b <= c`).
pub proof fn lemma_le_trans(a: Dec, b: Dec, c: Dec)
    requires
        !b.lt_value(a),
        !c.lt_value(b),
    ensures
        !c.lt_value(a),
{
    lemma_pow10_positive(a.s());
    lemma_pow10_positive(b.s());
    lemma_pow10_positive(c.s());
    let (pa, pb, pc) = (pow10(a.s()), pow10(b.s()), pow10(c.s()));
    assert(a.m() * pc <= c.m() * pa) by (nonlinear_arith)
        requires
            a.m() * pb <= b.m() * pa,
            b.m() * pc <= c.m() * pb,
            pa >= 1,
            pb >= 1,
            pc >= 1,
    ;
}

/// `a < b <= c` gives `a < c`.
pub proof fn lemma_lt_le_trans(a: Dec, b: Dec, c: Dec)
    requires
        a.lt_value(b),
        !c.lt_value(b),
    ensures
        a.lt_value(c),
{
    lemma_pow10_positive(a.s());
    lemma_pow10_positive(b.s());
    lemma_pow10_positive(c.s());
    let (pa, pb, pc) = (pow10(a.s()), pow10(b.s()), pow10(c.s()));
    assert(a.m() * pc < c.m() * pa) by (nonlinear_arith)
        requires
            a.m() * pb < b.m() * pa,
            b.m() * pc <= c.m() * pb,
            pa >= 1,
            pb >= 1,
            pc >= 1,
    ;
}

/// The mantissa and scale are ones a decimal can hold.
pub fn is_wf(a: Dec) -> (r: bool)
    ensures
        r == a.wf(),
{
    -MAX_MANTISSA <= a.mantissa && a.mantissa <= MAX_MANTISSA && a.scale <= MAX_SCALE
}

/// A decimal with a non-negative mantissa is at least zero.
pub open spec fn nonneg(a: Dec) -> bool {
    a.mantissa >= 0
}

} // verus!
