use crate::coprime::coprime;
use crate::coprime::count_where;
use crate::coprime::lemma_count_agree;
use crate::coprime::lemma_count_multiples;
use crate::coprime::lemma_count_none;
use crate::coprime::totient;
use crate::numbers::gcd;
use crate::numbers::lcm;
use crate::numbers::lemma_gcd_divides;
use crate::numbers::lemma_gcd_less_multiple;
use crate::numbers::lemma_gcd_positive;
use crate::numbers::lemma_gcd_scales;
use crate::numbers::lemma_lcm_with_rest;
use crate::summation::closed_form;
use crate::summation::cofactor;
use crate::summation::grouped_sum;
use crate::summation::inner_sum;
use vstd::arithmetic::div_mod::lemma_basic_div;
use vstd::arithmetic::div_mod::lemma_fundamental_div_mod;
use vstd::arithmetic::div_mod::lemma_fundamental_div_mod_converse;
use vstd::arithmetic::div_mod::lemma_small_mod;
use vstd::prelude::*;

verus! {

/// For a fixed `s = a + b` and `c = n - s`: the sum of `lcm(gcd(a, b), c)`
/// over `a` from 1 to `m`, with `b = s - a`.
pub open spec fn pair_sum(n: nat, s: nat, m: nat) -> nat
    decreases m,
{
    if m == 0 {
        0
    } else {
        pair_sum(n, s, (m - 1) as nat) + lcm(gcd(m, (s - m) as nat), (n - s) as nat)
    }
}

/// The sum of `lcm(gcd(a, b), c)` over the triples of positive integers with
/// `a + b + c = n` and `a + b <= t`.
pub open spec fn triple_sum_upto(n: nat, t: nat) -> nat
    decreases t,
{
    if t < 2 {
        0
    } else {
        triple_sum_upto(n, (t - 1) as nat) + pair_sum(n, t, (t - 1) as nat)
    }
}

/// The sum of `lcm(gcd(a, b), c)` over all ordered triples of positive
/// integers `(a, b, c)` with `a + b + c = n`, one triple after the other.
pub open spec fn triple_sum(n: nat) -> nat {
    if n == 0 {
        0
    } else {
        triple_sum_upto(n, (n - 1) as nat)
    }
}

/// The sum of `cofactor(n, gcd(a, s))` over `a` from 1 to `m`.
pub open spec fn cofactor_sum(n: nat, s: nat, m: nat) -> nat
    decreases m,
{
    if m == 0 {
        0
    } else {
        cofactor_sum(n, s, (m - 1) as nat) + cofactor(n, gcd(m, s))
    }
}

/// How many `a` from 1 to `m` have `gcd(a, s) = g`.
pub open spec fn class_size(s: nat, g: nat, m: nat) -> nat {
    count_where(|a: nat| gcd(a, s) == g, m)
}

/// The sum of `cofactor(n, g)`, over `g` from 1 to `top`, each taken as
/// often as `g` is the greatest common divisor of `s` and an `a` up to `m`.
pub open spec fn sum_by_class(n: nat, s: nat, m: nat, top: nat) -> nat
    decreases top,
{
    if top == 0 {
        0
    } else {
        sum_by_class(n, s, m, (top - 1) as nat) + cofactor(n, top) * class_size(s, top, m)
    }
}

/// The sum of `cofactor(n, g) * totient(s / g)` over the divisors `g` of `s`
/// that are at most `top` and below `s`.
pub open spec fn divisor_sum(n: nat, s: nat, top: nat) -> nat
    decreases top,
{
    if top == 0 {
        0
    } else {
        divisor_sum(n, s, (top - 1) as nat) + if s % top == 0 && top < s {
            cofactor(n, top) * totient(s / top)
        } else {
            0
        }
    }
}

/// With `c = n - s`, each summand `lcm(gcd(a, s - a), c)` is
/// `cofactor(n, gcd(a, s)) * c`.
proof fn lemma_pair_sum_by_cofactor(n: nat, s: nat, m: nat)
    requires
        m < s < n,
    ensures
        pair_sum(n, s, m) == (n - s) * cofactor_sum(n, s, m),
    decreases m,
{
    if m > 0 {
        let h = (m - 1) as nat;
        lemma_pair_sum_by_cofactor(n, s, h);
        assert(m % m == 0) by (nonlinear_arith)
            requires
                m > 0,
        ;
        lemma_gcd_less_multiple(m, s, m);
        let g = gcd(m, s);
        lemma_gcd_positive(m, s);
        lemma_gcd_divides(m, s);
        lemma_lcm_with_rest(g, s, n);
        let c = (n - s) as nat;
        let x = cofactor_sum(n, s, h);
        let y = cofactor(n, g);
        assert(c * x + y * c == c * (x + y)) by (nonlinear_arith);
    } else {
        assert((n - s) * 0 == 0) by (nonlinear_arith);
    }
}

/// Taking in one more `a` adds its class's cofactor, once.
proof fn lemma_sum_by_class_step(n: nat, s: nat, m: nat, top: nat)
    requires
        m >= 1,
    ensures
        sum_by_class(n, s, m, top) == sum_by_class(n, s, (m - 1) as nat, top) + if 1 <= gcd(m, s)
            <= top {
            cofactor(n, gcd(m, s))
        } else {
            0
        },
    decreases top,
{
    if top > 0 {
        lemma_sum_by_class_step(n, s, m, (top - 1) as nat);
        let f = cofactor(n, top);
        let before = class_size(s, top, (m - 1) as nat);
        let now = class_size(s, top, m);
        if gcd(m, s) == top {
            assert(now == before + 1);
            assert(f * now == f * before + f) by (nonlinear_arith)
                requires
                    now == before + 1,
            ;
        } else {
            assert(now == before);
        }
    }
}

/// With no `a` taken in, every class is empty.
proof fn lemma_sum_by_class_empty(n: nat, s: nat, top: nat)
    ensures
        sum_by_class(n, s, 0, top) == 0,
    decreases top,
{
    if top > 0 {
        lemma_sum_by_class_empty(n, s, (top - 1) as nat);
        assert(cofactor(n, top) * 0 == 0) by (nonlinear_arith);
    }
}

/// The cofactors summed one `a` after the other, or class by class.
proof fn lemma_cofactor_sum_by_class(n: nat, s: nat, m: nat)
    requires
        s >= 1,
    ensures
        cofactor_sum(n, s, m) == sum_by_class(n, s, m, s),
    decreases m,
{
    if m > 0 {
        lemma_cofactor_sum_by_class(n, s, (m - 1) as nat);
        lemma_sum_by_class_step(n, s, m, s);
        let g = gcd(m, s);
        lemma_gcd_positive(m, s);
        lemma_gcd_divides(m, s);
        if g > s {
            lemma_small_mod(s, g);
        }
    } else {
        lemma_sum_by_class_empty(n, s, s);
    }
}

/// Below `s`, the numbers whose greatest common divisor with `s` is `g` are
/// `totient(s / g)` many where `g` is a divisor of `s` other than `s`, and
/// none otherwise.
proof fn lemma_class_size(s: nat, g: nat)
    requires
        1 <= g <= s,
    ensures
        class_size(s, g, (s - 1) as nat) == if s % g == 0 && g < s {
            totient(s / g)
        } else {
            0
        },
{
    let in_class = |a: nat| gcd(a, s) == g;
    if s % g == 0 && g < s {
        let k = s / g;
        lemma_fundamental_div_mod(s as int, g as int);
        assert(s == g * k);
        assert(k >= 2) by (nonlinear_arith)
            requires
                s == g * k,
                g < s,
                g >= 1,
        ;
        assert(gcd(s, s) == s) by {
            reveal_with_fuel(gcd, 2);
            assert(s % s == 0) by (nonlinear_arith)
                requires
                    s > 0,
            ;
        }
        assert(count_where(in_class, s) == count_where(in_class, (s - 1) as nat));
        let multiples = |x: nat| in_class(x) && x % g == 0;
        assert forall|a: nat| 1 <= a <= s implies #[trigger] in_class(a) == multiples(a) by {
            lemma_gcd_divides(a, s);
        }
        lemma_count_agree(in_class, multiples, s);
        lemma_count_multiples(in_class, g, k);
        let scaled = |y: nat| in_class(g * y);
        let co = |x: nat| coprime(x, k);
        assert forall|y: nat| 1 <= y <= k implies #[trigger] scaled(y) == co(y) by {
            lemma_gcd_scales(g, y, k);
            let d = gcd(y, k);
            assert((g * d == g) == (d == 1)) by (nonlinear_arith)
                requires
                    g >= 1,
            ;
        }
        lemma_count_agree(scaled, co, k);
    } else {
        assert forall|a: nat| 0 < a <= 0 + (s - 1) as nat implies !#[trigger] in_class(a) by {
            if gcd(a, s) == g {
                lemma_gcd_divides(a, s);
                lemma_small_mod(a, s);
            }
        }
        lemma_count_none(in_class, 0, (s - 1) as nat);
    }
}

/// Class by class, the cofactors of the `a` below `s` add up to the sum over
/// the divisors of `s`.
proof fn lemma_sum_by_class_is_divisor_sum(n: nat, s: nat, top: nat)
    requires
        top <= s,
    ensures
        sum_by_class(n, s, (s - 1) as nat, top) == divisor_sum(n, s, top),
    decreases top,
{
    if top > 0 {
        lemma_sum_by_class_is_divisor_sum(n, s, (top - 1) as nat);
        lemma_class_size(s, top);
        assert(cofactor(n, top) * 0 == 0) by (nonlinear_arith);
    }
}

/// From `t - 1` to `t`, the quotient by `g` goes up by one where `g`
/// divides `t`, and stays otherwise.
proof fn lemma_quotient_step(t: nat, g: nat)
    requires
        t >= 1,
        g >= 1,
    ensures
        t / g == (t - 1) as nat / g + if t % g == 0 {
            1nat
        } else {
            0nat
        },
{
    lemma_fundamental_div_mod(t as int, g as int);
    let q = (t / g) as int;
    let r = (t % g) as int;
    if r == 0 {
        assert(t - 1 == (q - 1) * g + (g - 1)) by (nonlinear_arith)
            requires
                t == g * q + r,
                r == 0,
        ;
        lemma_fundamental_div_mod_converse(t - 1, g as int, q - 1, g - 1);
    } else {
        assert(t - 1 == q * g + (r - 1)) by (nonlinear_arith)
            requires
                t == g * q + r,
        ;
        lemma_fundamental_div_mod_converse(t - 1, g as int, q, r - 1);
    }
}

/// Letting `a + b` reach `t` adds, for each `g`, the pairs with
/// `a + b = t` and `gcd(a, b) = g`.
proof fn lemma_grouped_sum_step(n: nat, t: nat, top: nat)
    requires
        1 <= t < n,
    ensures
        grouped_sum(n, t, top) == grouped_sum(n, (t - 1) as nat, top) + (n - t) * divisor_sum(
            n,
            t,
            top,
        ),
    decreases top,
{
    let c = (n - t) as nat;
    if top > 0 {
        let below = (top - 1) as nat;
        lemma_grouped_sum_step(n, t, below);
        lemma_quotient_step(t, top);
        let f = cofactor(n, top);
        let m = t / top;
        let before = inner_sum(n, top, (t - 1) as nat / top);
        let now = inner_sum(n, top, m);
        let d = divisor_sum(n, t, below);
        if t % top == 0 && top < t {
            lemma_fundamental_div_mod(t as int, top as int);
            assert(m >= 2) by (nonlinear_arith)
                requires
                    t == top * m,
                    top < t,
                    top >= 1,
            ;
            let phi = totient(m);
            assert(now == before + phi * (n - top * m));
            assert(f * now + c * d == f * before + c * (d + f * phi)) by (nonlinear_arith)
                requires
                    now == before + phi * c,
            ;
        } else {
            if t % top == 0 {
                lemma_fundamental_div_mod(t as int, top as int);
                assert(m == 1) by (nonlinear_arith)
                    requires
                        t == top * m,
                        top >= t,
                        t >= 1,
                ;
                assert(now == 0 && before == 0);
            }
            assert(now == before);
        }
    } else {
        assert(c * 0 == 0) by (nonlinear_arith);
    }
}

/// The triples with `a + b <= t`, one after the other or grouped by
/// `gcd(a, b)`, add up to the same.
proof fn lemma_triple_sum_upto_grouped(n: nat, t: nat)
    requires
        t < n,
    ensures
        triple_sum_upto(n, t) == grouped_sum(n, t, t),
    decreases t,
{
    reveal_with_fuel(grouped_sum, 2);
    if t >= 2 {
        let h = (t - 1) as nat;
        lemma_triple_sum_upto_grouped(n, h);
        lemma_pair_sum_by_cofactor(n, t, h);
        lemma_cofactor_sum_by_class(n, t, h);
        lemma_sum_by_class_is_divisor_sum(n, t, t);
        lemma_grouped_sum_step(n, t, t);
        lemma_small_mod(h, t);
        lemma_basic_div(h as int, t as int);
        assert(h / t == 0);
        assert(inner_sum(n, t, 0) == 0);
        assert(cofactor(n, t) * 0 == 0) by (nonlinear_arith);
        assert(grouped_sum(n, h, t) == grouped_sum(n, h, h));
    } else if t == 1 {
        assert(inner_sum(n, 1, 1) == 0);
        assert(cofactor(n, 1) * 0 == 0) by (nonlinear_arith);
    }
}

/// A `g` above half of `t` has no `k >= 2` with `g * k <= t`: it adds
/// nothing.
proof fn lemma_grouped_sum_tail(n: nat, t: nat, top: nat)
    requires
        top >= t / 2,
    ensures
        grouped_sum(n, t, top) == grouped_sum(n, t, t / 2),
    decreases top,
{
    if top > t / 2 {
        lemma_grouped_sum_tail(n, t, (top - 1) as nat);
        assert(t / top < 2) by (nonlinear_arith)
            requires
                top > t / 2,
                top >= 1,
        ;
        assert(inner_sum(n, top, t / top) == 0);
        assert(cofactor(n, top) * 0 == 0) by (nonlinear_arith);
    }
}

/// Summing `lcm(gcd(a, b), c)` triple by triple gives what the sum grouped
/// by `gcd(a, b)` gives.
pub proof fn lemma_triple_sum_is_grouped(n: nat)
    ensures
        triple_sum(n) == closed_form(n),
{
    if n >= 1 {
        let t = (n - 1) as nat;
        lemma_triple_sum_upto_grouped(n, t);
        lemma_grouped_sum_tail(n, t, t);
    }
}

} // verus!
