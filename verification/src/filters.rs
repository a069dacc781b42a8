//! Exchange trading rules on order amounts: cutting an amount to the step of a
//! market's lot size, and the lookups of a market's filters, fee and precision.
use vstd::prelude::*;
use crate::func::{Symbol, pair_name};
use crate::decimal::{
    Dec, pow10, tz_div, same_value, lemma_pow10_positive, lemma_pow10_add, lemma_pow10_mono,
    lemma_tz_div_split, lemma_tz_div_cancel, lemma_tz_div_bound, MAX_MANTISSA, nonneg, lt, fract,
    normalize, trunc, trunc_with_scale, floor, checked_add, decimal_checked_add, trunc_of,
    decimal_trunc_with_scale, decimal_fract, floor_of, sum_at_common_scale, fits, rem,
    divides, eq,
};

verus! {

/// The fractional part of `a`, written at the scale of `a`.
pub open spec fn frac_numerator(a: Dec) -> int {
    a.m() - tz_div(a.m(), pow10(a.s())) * pow10(a.s())
}

/// The least `t` from `t` upward (at most `s`) such that `n / 10^s` has at
/// most `t` decimal places.
pub open spec fn min_places(n: int, s: nat, t: nat) -> nat
    decreases s - t,
{
    if t >= s || (n * pow10(t)) % pow10(s) == 0 {
        t
    } else {
        min_places(n, s, t + 1)
    }
}

/// The number of decimal places of the fractional part of a step size
/// (`0.001` has 3, `0.25` has 2, `1.0` has 0).
pub open spec fn step_places(step: Dec) -> nat {
    min_places(frac_numerator(step), step.s(), 0)
}

/// `a` cut toward zero to `t` decimal places, as a numerator over `10^t`.
pub open spec fn cut_to_places(a: Dec, t: nat) -> int {
    tz_div(a.m() * pow10(t), pow10(a.s()))
}

proof fn lemma_not_divisible(n: int, s: nat, xm: int, xs: nat, t: nat)
    requires
        xm * pow10(s) == n * pow10(xs),
        t < xs,
        xm % 10 != 0,
    ensures
        (n * pow10(t)) % pow10(s) != 0,
{
    lemma_pow10_positive(s);
    lemma_pow10_positive(t);
    lemma_pow10_positive((xs - t - 1) as nat);
    if (n * pow10(t)) % pow10(s) == 0 {
        let k = (n * pow10(t)) / pow10(s);
        vstd::arithmetic::div_mod::lemma_fundamental_div_mod(n * pow10(t), pow10(s));
        assert(n * pow10(t) == k * pow10(s)) by (nonlinear_arith)
            requires
                n * pow10(t) == pow10(s) * k + (n * pow10(t)) % pow10(s),
                (n * pow10(t)) % pow10(s) == 0,
        ;
        lemma_pow10_add(t, (xs - t) as nat);
        assert(pow10(xs) == pow10(t) * pow10((xs - t) as nat));
        assert(xm * pow10(s) * pow10(t) == k * pow10(s) * pow10(xs)) by (nonlinear_arith)
            requires
                xm * pow10(s) == n * pow10(xs),
                n * pow10(t) == k * pow10(s),
        ;
        assert(xm * pow10(t) == k * pow10(t) * pow10((xs - t) as nat)) by (nonlinear_arith)
            requires
                xm * pow10(s) * pow10(t) == k * pow10(s) * pow10(xs),
                pow10(xs) == pow10(t) * pow10((xs - t) as nat),
                pow10(s) >= 1,
        ;
        assert(xm == k * pow10((xs - t) as nat)) by (nonlinear_arith)
            requires
                xm * pow10(t) == k * pow10(t) * pow10((xs - t) as nat),
                pow10(t) >= 1,
        ;
        assert(pow10((xs - t) as nat) == 10 * pow10((xs - t - 1) as nat));
        assert(xm == (k * pow10((xs - t - 1) as nat)) * 10) by (nonlinear_arith)
            requires
                xm == k * pow10((xs - t) as nat),
                pow10((xs - t) as nat) == 10 * pow10((xs - t - 1) as nat),
        ;
        vstd::arithmetic::div_mod::lemma_mod_multiples_basic(k * pow10((xs - t - 1) as nat), 10);
    }
}

proof fn lemma_min_places_from(n: int, s: nat, t: nat, xs: nat)
    requires
        t <= xs <= s,
        (n * pow10(xs)) % pow10(s) == 0,
        forall|u: nat| u < xs ==> (#[trigger] (n * pow10(u))) % pow10(s) != 0,
    ensures
        min_places(n, s, t) == xs,
    decreases xs - t,
{
    if t < xs {
        lemma_min_places_from(n, s, t + 1, xs);
    }
}

/// The scale of a normalized decimal is the number of decimal places of its
/// value.
proof fn lemma_normalized_places(n: int, s: nat, xm: int, xs: nat)
    requires
        xm * pow10(s) == n * pow10(xs),
        xs == 0 || xm % 10 != 0,
    ensures
        min_places(n, s, 0) == xs,
{
    lemma_pow10_positive(s);
    assert forall|u: nat| u < xs implies (#[trigger] (n * pow10(u))) % pow10(s) != 0 by {
        lemma_not_divisible(n, s, xm, xs, u);
    }
    assert((n * pow10(s)) % pow10(s) == 0) by {
        vstd::arithmetic::div_mod::lemma_mod_multiples_basic(n, pow10(s));
    }
    if xs > s {
        assert((n * pow10(s)) % pow10(s) != 0);
    }
    assert((n * pow10(xs)) % pow10(s) == 0) by {
        assert(n * pow10(xs) == xm * pow10(s));
        vstd::arithmetic::div_mod::lemma_mod_multiples_basic(xm, pow10(s));
    }
    lemma_min_places_from(n, s, 0, xs);
}

/// The larger of two naturals.
pub open spec fn max_nat(a: nat, b: nat) -> nat {
    if a >= b { a } else { b }
}

/// The amount can be written with the larger of its own decimal places and
/// those of the step.
pub open spec fn fits_step_places(amount: Dec, step: Dec) -> bool {
    fits_places(amount, step_places(step))
}

pub open spec fn one() -> Dec {
    Dec { mantissa: 1, scale: 0 }
}

proof fn lemma_cut_sum(amount: Dec, t: nat, whole: Dec, fr: Dec, part: Dec)
    requires
        amount.wf(),
        t <= 28,
        fits_places(amount, t),
        whole.scale == 0,
        whole.m() == tz_div(amount.m(), pow10(amount.s())),
        same_value(fr.m(), fr.s(), frac_numerator(amount), amount.s()),
        fr.scale <= amount.scale,
        same_value(part.m(), part.s(), tz_div(fr.m() * pow10(t), pow10(fr.s())), t),
        part.scale <= fr.scale || part.scale <= t,
        part.wf(),
    ensures
        fits(sum_at_common_scale(whole, part, false)),
        same_value(
            sum_at_common_scale(whole, part, false).0,
            sum_at_common_scale(whole, part, false).1,
            cut_to_places(amount, t),
            t,
        ),
{
    let m = amount.m();
    let s = amount.s();
    let d = pow10(s);
    let tt = pow10(t);
    let q = whole.m();
    let r0 = frac_numerator(amount);
    lemma_pow10_positive(s);
    lemma_pow10_positive(t);
    lemma_pow10_positive(fr.s());
    lemma_pow10_positive(part.s());
    lemma_pow10_positive((s - fr.s()) as nat);
    // The fraction written at its own scale is the fraction at the amount's scale.
    lemma_pow10_add(fr.s(), (s - fr.s()) as nat);
    assert(d == pow10(fr.s()) * pow10((s - fr.s()) as nat));
    assert(fr.m() * pow10((s - fr.s()) as nat) == r0) by (nonlinear_arith)
        requires
            fr.m() * d == r0 * pow10(fr.s()),
            d == pow10(fr.s()) * pow10((s - fr.s()) as nat),
            pow10(fr.s()) >= 1,
    ;
    lemma_tz_div_cancel(fr.m() * tt, pow10(fr.s()), pow10((s - fr.s()) as nat));
    assert(fr.m() * tt * pow10((s - fr.s()) as nat) == r0 * tt) by (nonlinear_arith)
        requires
            fr.m() * pow10((s - fr.s()) as nat) == r0,
    ;
    let g = tz_div(r0 * tt, d);
    assert(tz_div(fr.m() * tt, pow10(fr.s())) == g);
    // Whole part and cut fraction add up to the cut amount.
    lemma_tz_div_split(m, d, tt);
    let k = cut_to_places(amount, t);
    assert(k == q * tt + g);
    // The sum at the common scale of the two parts.
    let ps = part.s();
    assert(sum_at_common_scale(whole, part, false).1 == ps);
    assert(sum_at_common_scale(whole, part, false).0 == q * pow10(ps) + part.m());
    let n = q * pow10(ps) + part.m();
    assert(part.m() * tt == g * pow10(ps));
    assert(n * tt == k * pow10(ps)) by (nonlinear_arith)
        requires
            n == q * pow10(ps) + part.m(),
            part.m() * tt == g * pow10(ps),
            k == q * tt + g,
    ;
    // Size of the sum.
    lemma_tz_div_bound(m * tt, d);
    let am = if m >= 0 { m } else { -m };
    let ak = if k >= 0 { k } else { -k };
    let an = if n >= 0 { n } else { -n };
    assert(am * tt == (if m * tt >= 0 { m * tt } else { -(m * tt) })) by (nonlinear_arith)
        requires
            tt >= 1,
            am == (if m >= 0 { m } else { -m }),
    ;
    assert(ak * d <= am * tt);
    assert(an * tt == ak * pow10(ps)) by (nonlinear_arith)
        requires
            n * tt == k * pow10(ps),
            an == (if n >= 0 { n } else { -n }),
            ak == (if k >= 0 { k } else { -k }),
            tt >= 1,
            pow10(ps) >= 1,
    ;
    let big = max_nat(s, t);
    assert(ps <= big);
    lemma_pow10_mono(ps, big);
    lemma_pow10_add(s, (big - s) as nat);
    assert(pow10(big) == d * pow10((big - s) as nat));
    assert(am * pow10((big - s) as nat) <= MAX_MANTISSA);
    assert(an <= MAX_MANTISSA) by (nonlinear_arith)
        requires
            an * tt == ak * pow10(ps),
            ak * d <= am * tt,
            pow10(ps) <= pow10(big),
            pow10(big) == d * pow10((big - s) as nat),
            am * pow10((big - s) as nat) <= MAX_MANTISSA,
            tt >= 1,
            d >= 1,
            an >= 0,
            ak >= 0,
            am >= 0,
    ;
}

/// An amount that cannot be written with `t` places has fewer: cutting it to
/// `t` places changes nothing.
proof fn lemma_unfit_cut(amount: Dec, t: nat)
    requires
        amount.wf(),
        !fits_places(amount, t),
    ensures
        same_value(amount.m(), amount.s(), cut_to_places(amount, t), t),
{
    let s = amount.s();
    if t <= s {
        assert(((max_nat(s, t) - s) as nat) == 0);
        assert(pow10(0) == 1);
        let am = if amount.m() >= 0 { amount.m() } else { -amount.m() };
        assert(am * pow10(0) == am);
        assert(false);
    }
    let d = (t - s) as nat;
    lemma_pow10_add(s, d);
    lemma_pow10_positive(s);
    lemma_pow10_positive(d);
    assert(pow10(t) == pow10(s) * pow10(d));
    let m = amount.m();
    assert(m * pow10(t) == (m * pow10(d)) * pow10(s)) by (nonlinear_arith)
        requires
            pow10(t) == pow10(s) * pow10(d),
    ;
    lemma_tz_div_cancel(m * pow10(d), 1, pow10(s));
    assert(tz_div(m * pow10(d), 1) == m * pow10(d));
    assert((m * pow10(d)) * 1 == m * pow10(d));
    assert(cut_to_places(amount, t) == m * pow10(d));
    assert(m * pow10(t) == (m * pow10(d)) * pow10(s));
}

/// The amount can be written with `t` more places where it has fewer.
pub open spec fn fits_places(amount: Dec, t: nat) -> bool {
    (if amount.m() >= 0 { amount.m() } else { -amount.m() }) * pow10(
        (max_nat(amount.s(), t) - amount.s()) as nat,
    ) <= MAX_MANTISSA
}

/// What [`round_step_size`] returns: below a step of one, the integer part of
/// the amount plus its fraction cut to the places of the step's fraction
/// (the amount itself when the cut cannot be written with those places: it
/// then has fewer places, so its value is already the cut); otherwise the
/// floor of the amount.
pub open spec fn rounded(amount: Dec, step: Dec) -> Dec {
    if step.lt_value(one()) {
        if fits_step_places(amount, step) {
            decimal_checked_add(
                trunc_of(amount),
                decimal_trunc_with_scale(decimal_fract(amount), step_places(step) as u32),
            ).unwrap()
        } else {
            amount
        }
    } else {
        floor_of(amount)
    }
}

/// Whether `amount` can be written with `t` places where it has fewer.
fn fits_with_places(amount: Dec, t: u32) -> (r: bool)
    requires
        amount.wf(),
        t <= 28,
    ensures
        r == fits_places(amount, t as nat),
{
    let am: u128 = if amount.mantissa < 0 { (-amount.mantissa) as u128 } else { amount.mantissa as u128 };
    let ghost a = if amount.m() >= 0 { amount.m() } else { -amount.m() };
    assert(am == a);
    if t <= amount.scale {
        assert(max_nat(amount.s(), t as nat) - amount.s() == 0);
        assert(pow10(0) == 1);
        return true;
    }
    let d: u32 = t - amount.scale;
    let mut p: u128 = 1;
    let mut k: u32 = 0;
    while k < d
        invariant
            k <= d,
            d <= 28,
            p == pow10(k as nat),
            p <= 10000000000000000000000000000u128,
        decreases d - k,
    {
        proof {
            lemma_pow10_mono((k + 1) as nat, 28);
            assert(pow10(28) == 10000000000000000000000000000) by {
                reveal_with_fuel(pow10, 29);
            }
        }
        p = p * 10;
        k = k + 1;
    }
    proof {
        lemma_pow10_positive(d as nat);
        assert(max_nat(amount.s(), t as nat) - amount.s() == d);
    }
    let bound: u128 = 79228162514264337593543950335u128 / p;
    proof {
        let q = 79228162514264337593543950335int / (p as int);
        let rm = 79228162514264337593543950335int % (p as int);
        vstd::arithmetic::div_mod::lemma_fundamental_div_mod(79228162514264337593543950335int, p as int);
        vstd::arithmetic::div_mod::lemma_mod_pos_bound(79228162514264337593543950335int, p as int);
        assert((am as int) <= q <==> (am as int) * (p as int) <= 79228162514264337593543950335int) by (nonlinear_arith)
            requires
                79228162514264337593543950335int == (p as int) * q + rm,
                0 <= rm < p,
                p >= 1,
                am >= 0,
        ;
    }
    am <= bound
}

/// Cuts an amount to a market's step size: to the decimal places of the
/// step's fraction when the step is below one, and down to a whole number
/// otherwise.
pub fn round_step_size(amount: Dec, step_size: Dec) -> (r: Dec)
    requires
        amount.wf(),
        step_size.wf(),
    ensures
        r == rounded(amount, step_size),
        r.wf(),
        step_size.lt_value(one()) ==> same_value(
            r.m(),
            r.s(),
            cut_to_places(amount, step_places(step_size)),
            step_places(step_size),
        ),
        !step_size.lt_value(one()) ==> r.scale == 0 && r.m() == amount.m() / pow10(amount.s()),
{
    if lt(step_size, Dec { mantissa: 1, scale: 0 }) {
        let step_fraction = fract(step_size);
        let normalized = normalize(step_fraction);
        let shift = normalized.scale;
        proof {
            lemma_pow10_positive(step_fraction.s());
            lemma_pow10_positive(normalized.s());
            lemma_pow10_positive(step_size.s());
            let n = frac_numerator(step_size);
            assert(normalized.m() * pow10(step_size.s()) == n * pow10(normalized.s()))
                by (nonlinear_arith)
                requires
                    normalized.m() * pow10(step_fraction.s()) == step_fraction.m() * pow10(normalized.s()),
                    step_fraction.m() * pow10(step_size.s()) == n * pow10(step_fraction.s()),
                    pow10(step_fraction.s()) >= 1,
            ;
            lemma_normalized_places(n, step_size.s(), normalized.m(), normalized.s());
            assert(shift == step_places(step_size));
        }
        if !fits_with_places(amount, shift) {
            proof {
                lemma_unfit_cut(amount, shift as nat);
            }
            return amount;
        }
        let whole = trunc(amount);
        let fraction = fract(amount);
        let part = trunc_with_scale(fraction, shift);
        proof {
            lemma_cut_sum(amount, shift as nat, whole, fraction, part);
        }
        match checked_add(whole, part) {
            Some(sum) => {
                proof {
                    let c = sum_at_common_scale(whole, part, false);
                    let k = cut_to_places(amount, shift as nat);
                    lemma_pow10_positive(c.1);
                    assert(sum.m() * pow10(shift as nat) == k * pow10(sum.s())) by (nonlinear_arith)
                        requires
                            sum.m() * pow10(c.1) == c.0 * pow10(sum.s()),
                            c.0 * pow10(shift as nat) == k * pow10(c.1),
                            pow10(c.1) >= 1,
                    ;
                }
                sum
            },
            None => {
                proof {
                    assert(false);
                }
                whole
            },
        }
    } else {
        floor(amount)
    }
}

/// What [`round_step_size`] returns for `amount` and `step`, up to how the
/// number is written.
pub open spec fn is_step_rounding(r: Dec, amount: Dec, step: Dec) -> bool {
    &&& r.wf()
    &&& step.lt_value(one()) ==> same_value(
        r.m(),
        r.s(),
        cut_to_places(amount, step_places(step)),
        step_places(step),
    )
    &&& !step.lt_value(one()) ==> r.scale == 0 && r.m() == amount.m() / pow10(amount.s())
}

/// The places found by `min_places` are enough: `n / 10^s` written with them
/// is whole in units of `10^-t`.
proof fn lemma_min_places_divides(n: int, s: nat, t: nat)
    ensures
        (n * pow10(min_places(n, s, t))) % pow10(s) == 0,
    decreases s - t,
{
    lemma_pow10_positive(s);
    if t >= s {
        lemma_pow10_add(s, (t - s) as nat);
        assert(n * pow10(t) == (n * pow10((t - s) as nat)) * pow10(s)) by (nonlinear_arith)
            requires
                pow10(t) == pow10(s) * pow10((t - s) as nat),
        ;
        vstd::arithmetic::div_mod::lemma_mod_multiples_basic(n * pow10((t - s) as nat), pow10(s));
    } else if (n * pow10(t)) % pow10(s) != 0 {
        lemma_min_places_divides(n, s, t + 1);
    }
}

/// The value `a.m / 10^a.s - r.m / 10^r.s` is less than `step`.
pub open spec fn less_than_a_step_below(r: Dec, a: Dec, step: Dec) -> bool {
    a.m() * pow10(r.s()) * pow10(step.s()) - r.m() * pow10(a.s()) * pow10(step.s())
        < step.m() * pow10(a.s()) * pow10(r.s())
}

/// Cutting a non-negative amount to a positive step gives at most the amount
/// and less than one step below it.
pub proof fn law_round_step_size_bounds(r: Dec, amount: Dec, step: Dec)
    requires
        amount.wf(),
        step.wf(),
        nonneg(amount),
        zero().lt_value(step),
        is_step_rounding(r, amount, step),
    ensures
        !amount.lt_value(r),
        less_than_a_step_below(r, amount, step),
{
    lemma_rounding_bounds(r, amount, step);
    let m = amount.m();
    let pa = pow10(amount.s());
    let pr = pow10(r.s());
    let ps = pow10(step.s());
    lemma_pow10_positive(amount.s());
    lemma_pow10_positive(r.s());
    lemma_pow10_positive(step.s());
    assert(pow10(0) == 1);
    assert(step.m() > 0) by (nonlinear_arith)
        requires
            0 * ps < step.m() * 1,
    ;
    if step.lt_value(one()) {
        let t = step_places(step);
        let pt = pow10(t);
        lemma_pow10_positive(t);
        let c = cut_to_places(amount, t);
        // the cut is less than one unit of 10^-t below the amount
        assert(m * pt >= 0) by (nonlinear_arith)
            requires
                m >= 0,
                pt >= 1,
        ;
        vstd::arithmetic::div_mod::lemma_fundamental_div_mod(m * pt, pa);
        vstd::arithmetic::div_mod::lemma_mod_pos_bound(m * pt, pa);
        assert(c == (m * pt) / pa);
        assert(m * pt - c * pa < pa) by (nonlinear_arith)
            requires
                m * pt == pa * ((m * pt) / pa) + (m * pt) % pa,
                (m * pt) % pa < pa,
                c == (m * pt) / pa,
        ;
        // the step is at least one unit of 10^-t
        assert(step.m() < ps) by (nonlinear_arith)
            requires
                step.m() * 1 < 1 * ps,
        ;
        vstd::arithmetic::div_mod::lemma_div_pos_is_pos(step.m(), ps);
        assert(step.m() / ps == 0) by {
            vstd::arithmetic::div_mod::lemma_basic_div(step.m(), ps);
        }
        assert(frac_numerator(step) == step.m());
        lemma_min_places_divides(step.m(), step.s(), 0);
        let k = (step.m() * pt) / ps;
        vstd::arithmetic::div_mod::lemma_fundamental_div_mod(step.m() * pt, ps);
        assert(step.m() * pt == ps * k);
        assert(k >= 1) by (nonlinear_arith)
            requires
                step.m() * pt == ps * k,
                step.m() > 0,
                pt >= 1,
                ps >= 1,
        ;
        // the value of r is c / 10^t
        assert(r.m() * pt == c * pr);
        let gap = m * pr * ps - r.m() * pa * ps;
        let rm = r.m();
        assert(gap * pt == m * pr * ps * pt - (rm * pt) * pa * ps) by (nonlinear_arith)
            requires
                gap == m * pr * ps - rm * pa * ps,
        ;
        assert((rm * pt) * pa * ps == (c * pr) * pa * ps) by {
            assert(rm * pt == c * pr);
        }
        let w = pr * ps;
        vstd::arithmetic::mul::lemma_mul_is_distributive_sub(w, m * pt, c * pa);
        assert(w * (m * pt) == m * pr * ps * pt) by (nonlinear_arith)
            requires
                w == pr * ps,
        ;
        assert(w * (c * pa) == (c * pr) * pa * ps) by (nonlinear_arith)
            requires
                w == pr * ps,
        ;
        assert(gap * pt == pr * ps * (m * pt - c * pa));
        assert(pr * ps >= 1) by (nonlinear_arith)
            requires
                pr >= 1,
                ps >= 1,
        ;
        assert(pr * ps * (m * pt - c * pa) < pr * ps * pa) by (nonlinear_arith)
            requires
                m * pt - c * pa < pa,
                pr * ps >= 1,
        ;
        assert(pr * ps * pa <= step.m() * pt * pa * pr) by (nonlinear_arith)
            requires
                step.m() * pt == ps * k,
                k >= 1,
                pa >= 1,
                pr >= 1,
                ps >= 1,
        ;
        assert(gap * pt < step.m() * pa * pr * pt) by (nonlinear_arith)
            requires
                gap * pt == pr * ps * (m * pt - c * pa),
                pr * ps * (m * pt - c * pa) < pr * ps * pa,
                pr * ps * pa <= step.m() * pt * pa * pr,
        ;
        assert(gap < step.m() * pa * pr) by (nonlinear_arith)
            requires
                gap * pt < step.m() * pa * pr * pt,
                pt >= 1,
        ;
        assert(less_than_a_step_below(r, amount, step));
    } else {
        vstd::arithmetic::div_mod::lemma_fundamental_div_mod(m, pa);
        vstd::arithmetic::div_mod::lemma_mod_pos_bound(m, pa);
        assert(r.m() == m / pa);
        assert(r.s() == 0);
        assert(step.m() >= ps) by (nonlinear_arith)
            requires
                !(step.m() * 1 < 1 * ps),
        ;
        let d = m - r.m() * pa;
        assert(0 <= d < pa);
        assert(d * ps < pa * ps) by (nonlinear_arith)
            requires
                0 <= d < pa,
                ps >= 1,
        ;
        assert(pa * ps <= step.m() * pa) by (nonlinear_arith)
            requires
                step.m() >= ps,
                pa >= 1,
        ;
        assert(m * pr * ps - r.m() * pa * ps == d * ps) by (nonlinear_arith)
            requires
                pr == 1,
                d == m - r.m() * pa,
        ;
        assert(step.m() * pa * pr == step.m() * pa) by (nonlinear_arith)
            requires
                pr == 1,
        ;
        assert(less_than_a_step_below(r, amount, step));
    }
}

/// Cutting to a step twice gives the same number as cutting once.
pub proof fn law_round_step_size_idempotent(r: Dec, r2: Dec, amount: Dec, step: Dec)
    requires
        is_step_rounding(r, amount, step),
        is_step_rounding(r2, r, step),
    ensures
        r2.eq_value(r),
{
    let pr = pow10(r.s());
    lemma_pow10_positive(r.s());
    lemma_pow10_positive(r2.s());
    if step.lt_value(one()) {
        let t = step_places(step);
        let pt = pow10(t);
        lemma_pow10_positive(t);
        let c = cut_to_places(amount, t);
        let c2 = cut_to_places(r, t);
        lemma_tz_div_cancel(c, 1, pr);
        assert(r.m() * pt == c * pr);
        assert(c * 1 == c);
        assert(1 * pr == pr);
        assert(c2 == tz_div(c * pr, pr));
        assert(tz_div(c, 1) == c);
        assert(r2.m() * pt == c2 * pow10(r2.s()));
        assert(r2.m() * pr == r.m() * pow10(r2.s())) by (nonlinear_arith)
            requires
                r2.m() * pt == c * pow10(r2.s()),
                r.m() * pt == c * pr,
                pt >= 1,
        ;
    } else {
        assert(pow10(0) == 1);
        assert(r.s() == 0);
        assert(r2.m() == r.m() / 1);
        assert(r2.s() == 0);
    }
}

/// A step of `10^-k` (`0.1`, `0.01`, ...) has `k` decimal places, so cutting
/// to it truncates the amount to `k` decimals, and the step divides the cut.
pub proof fn law_round_step_size_power_of_ten(r: Dec, amount: Dec, step: Dec, k: nat)
    requires
        step.wf(),
        k >= 1,
        same_value(step.m(), step.s(), 1, k),
        is_step_rounding(r, amount, step),
    ensures
        step.lt_value(one()),
        step_places(step) == k,
        same_value(r.m(), r.s(), cut_to_places(amount, k), k),
        divides(step, r),
{
    let ps = pow10(step.s());
    let pk = pow10(k);
    let pr = pow10(r.s());
    lemma_pow10_positive(step.s());
    lemma_pow10_positive(r.s());
    lemma_pow10_mono(1, k);
    assert(pow10(1) == 10) by {
        reveal_with_fuel(pow10, 2);
    }
    assert(pow10(0) == 1);
    assert(step.m() * pk == 1 * ps);
    assert(step.m() > 0 && step.m() < ps) by (nonlinear_arith)
        requires
            step.m() * pk == ps,
            pk >= 10,
            ps >= 1,
    ;
    assert(step.m() * pow10(0) == step.m());
    assert(step.lt_value(one()));
    assert(tz_div(step.m(), ps) == 0) by {
        vstd::arithmetic::div_mod::lemma_basic_div(step.m(), ps);
    }
    assert(frac_numerator(step) == step.m());
    lemma_normalized_places(step.m(), step.s(), 1, k);
    assert(step_places(step) == k);
    let c = cut_to_places(amount, k);
    assert(r.m() * pk == c * pr);
    assert(r.m() * ps == c * (step.m() * pr)) by (nonlinear_arith)
        requires
            r.m() * pk == c * pr,
            step.m() * pk == ps,
    ;
    assert(step.m() * pr > 0) by (nonlinear_arith)
        requires
            step.m() > 0,
            pr >= 1,
    ;
    vstd::arithmetic::div_mod::lemma_mod_multiples_basic(c, step.m() * pr);
}

/// A trading rule of a market. Only the lot size is read; the others are
/// carried as `Other`.
#[derive(Debug, Clone, Copy)]
pub enum Filter {
    LotSize { min_qty: Dec, max_qty: Dec, step_size: Dec },
    Other,
}

/// A market as the exchange describes it.
#[derive(Debug)]
pub struct ExchangeSymbol {
    pub symbol: String,
    pub base_asset_precision: u64,
    pub quote_precision: u64,
    pub filters: Vec<Filter>,
}

/// The markets of the exchange.
#[derive(Debug)]
pub struct ExchangeInformation {
    pub symbols: Vec<ExchangeSymbol>,
}

/// The fee of a market.
#[derive(Debug)]
pub struct TradeFee {
    pub symbol: String,
    pub taker_commission: Dec,
}

/// Index of the first market of `symbols` named `name`, if any.
pub open spec fn first_named(symbols: Seq<ExchangeSymbol>, name: Seq<char>) -> Option<int>
    decreases symbols.len(),
{
    if symbols.len() == 0 {
        None
    } else {
        match first_named(symbols.drop_last(), name) {
            Some(i) => Some(i),
            None => if symbols.last().symbol@ == name {
                Some(symbols.len() - 1)
            } else {
                None
            },
        }
    }
}

proof fn lemma_first_named_prefix(symbols: Seq<ExchangeSymbol>, name: Seq<char>, k: int)
    requires
        0 <= k < symbols.len(),
        first_named(symbols.subrange(0, k), name) is None,
    ensures
        first_named(symbols.subrange(0, k + 1), name) == if symbols[k].symbol@ == name {
            Some(k)
        } else {
            None
        },
{
    assert(symbols.subrange(0, k + 1).drop_last() =~= symbols.subrange(0, k));
}

/// The filters of the market named like `symbol`: those of the first such
/// market of the exchange, or `None` when it lists none.
pub fn symbol_filters(symbol: &Symbol, exchange_info: &ExchangeInformation) -> (r: Option<Vec<Filter>>)
    ensures
        match first_named(exchange_info.symbols@, pair_name(symbol@)) {
            Some(i) => r matches Some(f) && f@ == exchange_info.symbols@[i].filters@,
            None => r is None,
        },
{
    let name = symbol.pair();
    let symbols = &exchange_info.symbols;
    let mut k: usize = 0;
    while k < symbols.len()
        invariant
            symbols == &exchange_info.symbols,
            k <= symbols@.len(),
            name@ == pair_name(symbol@),
            first_named(symbols@.subrange(0, k as int), name@) is None,
        decreases symbols@.len() - k,
    {
        proof {
            lemma_first_named_prefix(symbols@, name@, k as int);
        }
        if name == symbols[k].symbol {
            let filters = &symbols[k].filters;
            let mut copy: Vec<Filter> = Vec::new();
            let mut j: usize = 0;
            while j < filters.len()
                invariant
                    j <= filters@.len(),
                    copy@ == filters@.subrange(0, j as int),
                decreases filters@.len() - j,
            {
                copy.push(filters[j]);
                j = j + 1;
                assert(copy@ =~= filters@.subrange(0, j as int));
            }
            assert(filters@.subrange(0, filters@.len() as int) =~= filters@);
            proof {
                lemma_first_named_extend(symbols@, name@, k as int + 1);
            }
            return Some(copy);
        }
        k = k + 1;
    }
    assert(symbols@.subrange(0, symbols@.len() as int) =~= symbols@);
    None
}

proof fn lemma_first_named_extend(symbols: Seq<ExchangeSymbol>, name: Seq<char>, k: int)
    requires
        0 <= k <= symbols.len(),
        first_named(symbols.subrange(0, k), name) is Some,
    ensures
        first_named(symbols, name) == first_named(symbols.subrange(0, k), name),
    decreases symbols.len() - k,
{
    if k < symbols.len() {
        assert(symbols.subrange(0, k + 1).drop_last() =~= symbols.subrange(0, k));
        lemma_first_named_extend(symbols, name, k + 1);
    } else {
        assert(symbols.subrange(0, k) =~= symbols);
    }
}

/// Index of the first lot-size rule among `filters`, if any.
pub open spec fn first_lot_size(filters: Seq<Filter>) -> Option<int>
    decreases filters.len(),
{
    if filters.len() == 0 {
        None
    } else {
        match first_lot_size(filters.drop_last()) {
            Some(i) => Some(i),
            None => if filters.last() is LotSize {
                Some(filters.len() - 1)
            } else {
                None
            },
        }
    }
}

/// The amount after the maximum of a lot-size rule caps it.
pub open spec fn capped(amount: Dec, max_qty: Dec) -> Dec {
    if max_qty.lt_value(amount) {
        max_qty
    } else {
        amount
    }
}

/// The decimal zero.
pub open spec fn zero() -> Dec {
    Dec { mantissa: 0, scale: 0 }
}

/// The lot-size rule `f` can be applied to `amount`: all numbers are
/// decimals, and the step is not zero when the amount reaches the minimum
/// (the remainder by a zero step has no value).
pub open spec fn lot_size_applies(f: Filter, amount: Dec) -> bool {
    match f {
        Filter::LotSize { min_qty, max_qty, step_size } => {
            &&& amount.wf()
            &&& min_qty.wf()
            &&& max_qty.wf()
            &&& step_size.wf()
            &&& !amount.lt_value(min_qty) ==> step_size.mantissa != 0
        },
        Filter::Other => true,
    }
}

/// The filters of the market named like `symbol`, when the exchange lists it.
pub open spec fn market_filters(exchange_info: ExchangeInformation, name: Seq<char>) -> Option<
    Seq<Filter>,
> {
    match first_named(exchange_info.symbols@, name) {
        Some(i) => Some(exchange_info.symbols@[i].filters@),
        None => None,
    }
}

/// The deciding lot-size rule of the market, when there is one, can be applied.
pub open spec fn filters_apply(exchange_info: ExchangeInformation, name: Seq<char>, amount: Dec) -> bool {
    match market_filters(exchange_info, name) {
        Some(f) => match first_lot_size(f) {
            Some(j) => lot_size_applies(f[j], amount),
            None => true,
        },
        None => true,
    }
}

/// What the lot-size rule `f` makes of `amount`: `None` below the minimum,
/// otherwise the amount capped at the maximum, and cut to the step when the
/// step does not divide it.
pub open spec fn lot_size_result(f: Filter, amount: Dec) -> Option<Dec> {
    match f {
        Filter::LotSize { min_qty, max_qty, step_size } => if amount.lt_value(min_qty) {
            None
        } else {
            let a = capped(amount, max_qty);
            if divides(step_size, a) {
                Some(a)
            } else {
                Some(rounded(a, step_size))
            }
        },
        Filter::Other => None,
    }
}

/// What [`adhere_filters`] returns: the outcome of the first lot-size rule of
/// the market, or `None` when the market or such a rule is missing.
pub open spec fn adhere_result(exchange_info: ExchangeInformation, name: Seq<char>, amount: Dec) -> Option<Dec> {
    match market_filters(exchange_info, name) {
        Some(f) => match first_lot_size(f) {
            Some(j) => lot_size_result(f[j], amount),
            None => None,
        },
        None => None,
    }
}

proof fn lemma_first_lot_size_prefix(filters: Seq<Filter>, k: int)
    requires
        0 <= k < filters.len(),
        first_lot_size(filters.subrange(0, k)) is None,
    ensures
        first_lot_size(filters.subrange(0, k + 1)) == if filters[k] is LotSize {
            Some(k)
        } else {
            None
        },
{
    assert(filters.subrange(0, k + 1).drop_last() =~= filters.subrange(0, k));
}

proof fn lemma_first_lot_size_extend(filters: Seq<Filter>, k: int)
    requires
        0 <= k <= filters.len(),
        first_lot_size(filters.subrange(0, k)) is Some,
    ensures
        first_lot_size(filters) == first_lot_size(filters.subrange(0, k)),
    decreases filters.len() - k,
{
    if k < filters.len() {
        assert(filters.subrange(0, k + 1).drop_last() =~= filters.subrange(0, k));
        lemma_first_lot_size_extend(filters, k + 1);
    } else {
        assert(filters.subrange(0, k) =~= filters);
    }
}

/// Applies the exchange's lot-size rule of a market to an amount: `None` when
/// the market or its lot-size rule is unknown or the amount is below the
/// minimum; otherwise the amount capped at the maximum and, when the step does
/// not divide it, cut to the step.
pub fn adhere_filters(exchange_info: &ExchangeInformation, symbol: &Symbol, amount: Dec, price: Dec) -> (r: Option<Dec>)
    requires
        filters_apply(*exchange_info, pair_name(symbol@), amount),
    ensures
        r == adhere_result(*exchange_info, pair_name(symbol@), amount),
        r matches Some(x) ==> x.wf() && (!amount.lt_value(x) || !zero().lt_value(x)),
        r matches Some(x) ==> (lot_rule(*exchange_info, pair_name(symbol@)) matches Some(
            Filter::LotSize { min_qty, max_qty, step_size },
        ) ==> (nonneg(amount) && nonneg(max_qty) && zero().lt_value(step_size) ==> !capped(
            amount,
            max_qty,
        ).lt_value(x) && less_than_a_step_below(x, capped(amount, max_qty), step_size))),
        r matches Some(x) ==> (lot_rule(*exchange_info, pair_name(symbol@)) matches Some(
            Filter::LotSize { min_qty: _, max_qty, step_size },
        ) ==> (!divides(step_size, capped(amount, max_qty)) ==> is_step_rounding(
            x,
            capped(amount, max_qty),
            step_size,
        ))),
{
    let filters = match symbol_filters(symbol, exchange_info) {
        Some(f) => f,
        None => return None,
    };
    let mut j: usize = 0;
    while j < filters.len()
        invariant
            j <= filters@.len(),
            market_filters(*exchange_info, pair_name(symbol@)) == Some(filters@),
            filters_apply(*exchange_info, pair_name(symbol@), amount),
            first_lot_size(filters@.subrange(0, j as int)) is None,
        decreases filters@.len() - j,
    {
        proof {
            lemma_first_lot_size_prefix(filters@, j as int);
        }
        match filters[j] {
            Filter::LotSize { min_qty, max_qty, step_size } => {
                proof {
                    lemma_first_lot_size_extend(filters@, j + 1);
                }
                if lt(amount, min_qty) {
                    return None;
                }
                let mut capped_amount = amount;
                if lt(max_qty, amount) {
                    capped_amount = max_qty;
                }
                assert(!amount.lt_value(capped_amount)) by {
                    lemma_pow10_positive(amount.s());
                    lemma_pow10_positive(max_qty.s());
                }
                assert(lot_rule(*exchange_info, pair_name(symbol@)) == Some(filters@[j as int]));
                assert(capped_amount == capped(amount, max_qty));
                if !eq(rem(capped_amount, step_size), Dec { mantissa: 0, scale: 0 }) {
                    let cut = round_step_size(capped_amount, step_size);
                    proof {
                        if nonneg(amount) && nonneg(max_qty) && zero().lt_value(step_size) {
                            law_round_step_size_bounds(cut, capped_amount, step_size);
                        }
                        lemma_rounding_bounds(cut, capped_amount, step_size);
                        if !capped_amount.lt_value(cut) {
                            crate::decimal::lemma_le_trans(cut, capped_amount, amount);
                        }
                    }
                    return Some(cut);
                } else {
                    proof {
                        if zero().lt_value(step_size) {
                            lemma_pow10_positive(capped_amount.s());
                            lemma_pow10_positive(step_size.s());
                            let pa = pow10(capped_amount.s());
                            let ps = pow10(step_size.s());
                            let ma = capped_amount.m();
                            assert(pow10(0) == 1);
                            assert(step_size.m() > 0) by (nonlinear_arith)
                                requires
                                    0 * ps < step_size.m() * 1,
                            ;
                            assert(ma * pa * ps - ma * pa * ps == 0);
                            assert(step_size.m() * pa * pa > 0) by (nonlinear_arith)
                                requires
                                    step_size.m() > 0,
                                    pa >= 1,
                            ;
                        }
                    }
                    return Some(capped_amount);
                }
            },
            Filter::Other => {},
        }
        j = j + 1;
    }
    assert(filters@.subrange(0, filters@.len() as int) =~= filters@);
    None
}

/// A market is found by name at the first listed market of that name, and
/// not at all when none has it.
pub proof fn law_market_found_first(symbols: Seq<ExchangeSymbol>, name: Seq<char>)
    ensures
        first_named(symbols, name) is None <==> forall|i: int| 0 <= i < symbols.len() ==> (#[trigger] symbols[i]).symbol@ != name,
        first_named(symbols, name) matches Some(i) ==> 0 <= i < symbols.len() && symbols[i].symbol@ == name && forall|j: int|
            0 <= j < i ==> (#[trigger] symbols[j]).symbol@ != name,
    decreases symbols.len(),
{
    if symbols.len() > 0 {
        let init = symbols.drop_last();
        law_market_found_first(init, name);
        if first_named(init, name) is None {
            assert forall|i: int| 0 <= i < init.len() implies (#[trigger] symbols[i]).symbol@ != name by {
                assert(init[i] == symbols[i]);
            }
        } else {
            let i = first_named(init, name)->Some_0;
            assert(init[i] == symbols[i]);
            assert forall|j: int| 0 <= j < i implies (#[trigger] symbols[j]).symbol@ != name by {
                assert(init[j] == symbols[j]);
            }
        }
        if forall|i: int| 0 <= i < symbols.len() ==> (#[trigger] symbols[i]).symbol@ != name {
            assert forall|i: int| 0 <= i < init.len() implies (#[trigger] init[i]).symbol@ != name by {
                assert(init[i] == symbols[i]);
            }
            assert(symbols[symbols.len() - 1] == symbols.last());
        }
    }
}

/// The fee of a market is the taker commission of the first fee listed under
/// its name, and there is none when no fee has that name.
pub proof fn law_fee_found_first(fees: Seq<TradeFee>, name: Seq<char>)
    ensures
        fee_of(fees, name) is None <==> forall|i: int| 0 <= i < fees.len() ==> (#[trigger] fees[i]).symbol@ != name,
        fee_of(fees, name) matches Some(f) ==> exists|i: int|
            0 <= i < fees.len() && (#[trigger] fees[i]).symbol@ == name && fees[i].taker_commission == f && forall|j: int|
                0 <= j < i ==> (#[trigger] fees[j]).symbol@ != name,
    decreases fees.len(),
{
    if fees.len() > 0 {
        let init = fees.drop_last();
        law_fee_found_first(init, name);
        let last = fees.len() - 1;
        assert(fees[last] == fees.last());
        if fee_of(init, name) is None {
            assert forall|i: int| 0 <= i < init.len() implies (#[trigger] fees[i]).symbol@ != name by {
                assert(init[i] == fees[i]);
            }
            if fees.last().symbol@ == name {
                assert(fees[last].symbol@ == name);
            }
        } else {
            let f = fee_of(init, name)->Some_0;
            let i = choose|i: int|
                0 <= i < init.len() && (#[trigger] init[i]).symbol@ == name && init[i].taker_commission == f && forall|j: int|
                    0 <= j < i ==> (#[trigger] init[j]).symbol@ != name;
            assert(init[i] == fees[i]);
            assert forall|j: int| 0 <= j < i implies (#[trigger] fees[j]).symbol@ != name by {
                assert(init[j] == fees[j]);
            }
        }
        if forall|i: int| 0 <= i < fees.len() ==> (#[trigger] fees[i]).symbol@ != name {
            assert forall|i: int| 0 <= i < init.len() implies (#[trigger] init[i]).symbol@ != name by {
                assert(init[i] == fees[i]);
            }
        }
    }
}

/// The deciding lot-size rule among a market's filters is the first one that
/// is a lot-size rule.
pub proof fn law_first_lot_size_rule(filters: Seq<Filter>)
    ensures
        first_lot_size(filters) is None <==> forall|i: int| 0 <= i < filters.len() ==> !((#[trigger] filters[i]) is LotSize),
        first_lot_size(filters) matches Some(j) ==> 0 <= j < filters.len() && filters[j] is LotSize && forall|i: int|
            0 <= i < j ==> !((#[trigger] filters[i]) is LotSize),
    decreases filters.len(),
{
    if filters.len() > 0 {
        let init = filters.drop_last();
        law_first_lot_size_rule(init);
        let last = filters.len() - 1;
        assert(filters[last] == filters.last());
        if first_lot_size(init) is None {
            assert forall|i: int| 0 <= i < init.len() implies !((#[trigger] filters[i]) is LotSize) by {
                assert(init[i] == filters[i]);
            }
        } else {
            let j = first_lot_size(init)->Some_0;
            assert(init[j] == filters[j]);
            assert forall|i: int| 0 <= i < j implies !((#[trigger] filters[i]) is LotSize) by {
                assert(init[i] == filters[i]);
            }
        }
        if forall|i: int| 0 <= i < filters.len() ==> !((#[trigger] filters[i]) is LotSize) {
            assert forall|i: int| 0 <= i < init.len() implies !((#[trigger] init[i]) is LotSize) by {
                assert(init[i] == filters[i]);
            }
        }
    }
}

/// The lot-size rule of a market refuses exactly the amounts below its
/// minimum. Any other amount is capped at the maximum; the capped amount is
/// kept when the step divides it, and otherwise, for a step of one or more,
/// cut down to its whole part (toward minus infinity) at scale 0.
pub proof fn law_adhere_filters_result(
    info: ExchangeInformation,
    name: Seq<char>,
    amount: Dec,
    min_qty: Dec,
    max_qty: Dec,
    step_size: Dec,
)
    requires
        lot_rule(info, name) == Some(Filter::LotSize { min_qty, max_qty, step_size }),
    ensures
        amount.lt_value(min_qty) <==> adhere_result(info, name, amount) is None,
        !amount.lt_value(min_qty) && divides(step_size, if max_qty.lt_value(amount) { max_qty } else { amount })
            ==> adhere_result(info, name, amount) == Some(if max_qty.lt_value(amount) { max_qty } else { amount }),
        !amount.lt_value(min_qty) && max_qty.lt_value(amount) && !divides(step_size, max_qty)
            && !step_size.lt_value(Dec { mantissa: 1, scale: 0 }) ==> adhere_result(info, name, amount) == Some(
            Dec { mantissa: (max_qty.m() / pow10(max_qty.s())) as i128, scale: 0 },
        ),
        !amount.lt_value(min_qty) && !max_qty.lt_value(amount) && !divides(step_size, amount)
            && !step_size.lt_value(Dec { mantissa: 1, scale: 0 }) ==> adhere_result(info, name, amount) == Some(
            Dec { mantissa: (amount.m() / pow10(amount.s())) as i128, scale: 0 },
        ),
{
}

/// The deciding lot-size rule of the market named `name`: the first one among
/// its filters, when the market is listed and has one.
pub open spec fn lot_rule(exchange_info: ExchangeInformation, name: Seq<char>) -> Option<Filter> {
    match market_filters(exchange_info, name) {
        Some(f) => match first_lot_size(f) {
            Some(j) => Some(f[j]),
            None => None,
        },
        None => None,
    }
}

/// The deciding lot-size rule of the market named like `symbol`.
pub fn market_lot_size(exchange_info: &ExchangeInformation, symbol: &Symbol) -> (r: Option<Filter>)
    ensures
        r == lot_rule(*exchange_info, pair_name(symbol@)),
{
    let filters = match symbol_filters(symbol, exchange_info) {
        Some(f) => f,
        None => return None,
    };
    let mut j: usize = 0;
    while j < filters.len()
        invariant
            j <= filters@.len(),
            market_filters(*exchange_info, pair_name(symbol@)) == Some(filters@),
            first_lot_size(filters@.subrange(0, j as int)) is None,
        decreases filters@.len() - j,
    {
        proof {
            lemma_first_lot_size_prefix(filters@, j as int);
        }
        if let Filter::LotSize { .. } = filters[j] {
            proof {
                lemma_first_lot_size_extend(filters@, j + 1);
            }
            return Some(filters[j]);
        }
        j = j + 1;
    }
    assert(filters@.subrange(0, filters@.len() as int) =~= filters@);
    None
}

/// Cutting an amount to a step never raises it above both the amount and
/// zero: a non-negative amount stays non-negative and is not raised; a
/// negative one, cut toward zero, stays at most zero.
pub proof fn lemma_rounding_bounds(r: Dec, amount: Dec, step: Dec)
    requires
        is_step_rounding(r, amount, step),
        amount.wf(),
    ensures
        !amount.lt_value(r) || !zero().lt_value(r),
        nonneg(amount) ==> nonneg(r) && !amount.lt_value(r),
{
    let m = amount.m();
    let s = amount.s();
    lemma_pow10_positive(s);
    lemma_pow10_positive(r.s());
    if step.lt_value(one()) {
        let t = step_places(step);
        lemma_pow10_positive(t);
        let c = cut_to_places(amount, t);
        if m >= 0 {
            assert(m * pow10(t) >= 0) by (nonlinear_arith)
                requires
                    m >= 0,
                    pow10(t) >= 1,
            ;
            lemma_tz_div_bound(m * pow10(t), pow10(s));
            vstd::arithmetic::div_mod::lemma_div_pos_is_pos(m * pow10(t), pow10(s));
            assert(c >= 0);
            assert(c * pow10(s) <= m * pow10(t));
            assert(r.m() >= 0) by (nonlinear_arith)
                requires
                    r.m() * pow10(t) == c * pow10(r.s()),
                    c >= 0,
                    pow10(t) >= 1,
                    pow10(r.s()) >= 1,
            ;
            assert(r.m() * pow10(s) <= m * pow10(r.s())) by (nonlinear_arith)
                requires
                    r.m() * pow10(t) == c * pow10(r.s()),
                    c * pow10(s) <= m * pow10(t),
                    pow10(t) >= 1,
                    pow10(r.s()) >= 1,
                    pow10(s) >= 1,
            ;
        } else {
            assert(-m * pow10(t) >= 0) by (nonlinear_arith)
                requires
                    m < 0,
                    pow10(t) >= 1,
            ;
            assert(m * pow10(t) < 0 || m * pow10(t) == 0) by (nonlinear_arith)
                requires
                    m < 0,
                    pow10(t) >= 1,
            ;
            vstd::arithmetic::div_mod::lemma_div_pos_is_pos(-(m * pow10(t)), pow10(s));
            assert(c <= 0);
            assert(r.m() <= 0) by (nonlinear_arith)
                requires
                    r.m() * pow10(t) == c * pow10(r.s()),
                    c <= 0,
                    pow10(t) >= 1,
                    pow10(r.s()) >= 1,
            ;
            assert(pow10(0) == 1);
            assert(0 * pow10(r.s()) == 0);
            assert(r.m() * pow10(0) == r.m());
        }
    } else {
        vstd::arithmetic::div_mod::lemma_fundamental_div_mod(m, pow10(s));
        vstd::arithmetic::div_mod::lemma_mod_bound(m, pow10(s));
        assert(pow10(0) == 1);
        assert(r.m() * pow10(s) <= m) by (nonlinear_arith)
            requires
                m == pow10(s) * (m / pow10(s)) + m % pow10(s),
                m % pow10(s) >= 0,
                r.m() == m / pow10(s),
        ;
        assert(pow10(r.s()) == 1);
        if m >= 0 {
            vstd::arithmetic::div_mod::lemma_div_pos_is_pos(m, pow10(s));
        }
    }
}

/// The taker fee of the first fee entry of `fees` for the market `name`.
pub open spec fn fee_of(fees: Seq<TradeFee>, name: Seq<char>) -> Option<Dec>
    decreases fees.len(),
{
    if fees.len() == 0 {
        None
    } else {
        match fee_of(fees.drop_last(), name) {
            Some(f) => Some(f),
            None => if fees.last().symbol@ == name {
                Some(fees.last().taker_commission)
            } else {
                None
            },
        }
    }
}

proof fn lemma_fee_of_prefix(fees: Seq<TradeFee>, name: Seq<char>, k: int)
    requires
        0 <= k < fees.len(),
        fee_of(fees.subrange(0, k), name) is None,
    ensures
        fee_of(fees.subrange(0, k + 1), name) == if fees[k].symbol@ == name {
            Some(fees[k].taker_commission)
        } else {
            None
        },
{
    assert(fees.subrange(0, k + 1).drop_last() =~= fees.subrange(0, k));
}

proof fn lemma_fee_of_extend(fees: Seq<TradeFee>, name: Seq<char>, k: int)
    requires
        0 <= k <= fees.len(),
        fee_of(fees.subrange(0, k), name) is Some,
    ensures
        fee_of(fees, name) == fee_of(fees.subrange(0, k), name),
    decreases fees.len() - k,
{
    if k < fees.len() {
        assert(fees.subrange(0, k + 1).drop_last() =~= fees.subrange(0, k));
        lemma_fee_of_extend(fees, name, k + 1);
    } else {
        assert(fees.subrange(0, k) =~= fees);
    }
}

/// The taker fee of the market named like `symbol`: that of the first fee
/// entry for it, or `None` when there is none.
pub fn find_fee(trade_fees: &Vec<TradeFee>, symbol: &Symbol) -> (r: Option<Dec>)
    ensures
        r == fee_of(trade_fees@, pair_name(symbol@)),
{
    let name = symbol.pair();
    let mut k: usize = 0;
    while k < trade_fees.len()
        invariant
            k <= trade_fees@.len(),
            name@ == pair_name(symbol@),
            fee_of(trade_fees@.subrange(0, k as int), name@) is None,
        decreases trade_fees@.len() - k,
    {
        proof {
            lemma_fee_of_prefix(trade_fees@, name@, k as int);
        }
        if trade_fees[k].symbol == name {
            proof {
                lemma_fee_of_extend(trade_fees@, name@, k + 1);
            }
            return Some(trade_fees[k].taker_commission);
        }
        k = k + 1;
    }
    assert(trade_fees@.subrange(0, trade_fees@.len() as int) =~= trade_fees@);
    None
}

/// The base and quote precisions of the market named `symbol` (each cut to
/// a byte), or `None` when the exchange does not list it.
pub fn get_precision(symbol: &String, exchange_info: &ExchangeInformation) -> (r: Option<(u8, u8)>)
    ensures
        match first_named(exchange_info.symbols@, symbol@) {
            Some(i) => r == Some(
                (
                    exchange_info.symbols@[i].base_asset_precision as u8,
                    exchange_info.symbols@[i].quote_precision as u8,
                ),
            ),
            None => r is None,
        },
{
    let symbols = &exchange_info.symbols;
    let mut k: usize = 0;
    while k < symbols.len()
        invariant
            symbols == &exchange_info.symbols,
            k <= symbols@.len(),
            first_named(symbols@.subrange(0, k as int), symbol@) is None,
        decreases symbols@.len() - k,
    {
        proof {
            lemma_first_named_prefix(symbols@, symbol@, k as int);
        }
        if *symbol == symbols[k].symbol {
            proof {
                lemma_first_named_extend(symbols@, symbol@, k + 1);
            }
            return Some((symbols[k].base_asset_precision as u8, symbols[k].quote_precision as u8));
        }
        k = k + 1;
    }
    assert(symbols@.subrange(0, symbols@.len() as int) =~= symbols@);
    None
}

} // verus!
