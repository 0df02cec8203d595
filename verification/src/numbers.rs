use vstd::arithmetic::div_mod::lemma_div_multiples_vanish;
use vstd::arithmetic::div_mod::lemma_fundamental_div_mod;
use vstd::arithmetic::div_mod::lemma_mod_multiples_basic;
use vstd::arithmetic::div_mod::lemma_mod_multiples_vanish;
use vstd::arithmetic::div_mod::lemma_small_mod;
use vstd::arithmetic::div_mod::lemma_truncate_middle;
use vstd::prelude::*;

verus! {

/// The greatest common divisor of `a` and `b`, by Euclid's recurrence;
/// `gcd(0, 0)` is 0.
pub open spec fn gcd(a: nat, b: nat) -> nat
    decreases b,
{
    if b == 0 {
        a
    } else {
        gcd(b, a % b)
    }
}

/// The least common multiple of two positive numbers.
pub open spec fn lcm(a: nat, b: nat) -> nat {
    a * b / gcd(a, b)
}

/// `p` has no divisor strictly between 1 and itself.
pub open spec fn is_prime(p: nat) -> bool {
    p >= 2 && forall|d: nat| 1 < d < p ==> #[trigger] (p % d) != 0
}

/// The greatest common divisor is positive unless both numbers are zero.
pub proof fn lemma_gcd_positive(a: nat, b: nat)
    requires
        a > 0 || b > 0,
    ensures
        gcd(a, b) > 0,
    decreases b,
{
    if b != 0 {
        lemma_gcd_positive(b, a % b);
    }
}

/// The greatest common divisor divides both numbers.
pub proof fn lemma_gcd_divides(a: nat, b: nat)
    requires
        a > 0 || b > 0,
    ensures
        a % gcd(a, b) == 0,
        b % gcd(a, b) == 0,
    decreases b,
{
    lemma_gcd_positive(a, b);
    if b == 0 {
        assert(a % a == 0) by (nonlinear_arith)
            requires
                a > 0,
        ;
        assert(0nat % a == 0) by (nonlinear_arith)
            requires
                a > 0,
        ;
    } else {
        let r = a % b;
        let d = gcd(b, r);
        lemma_gcd_divides(b, r);
        lemma_gcd_positive(b, r);
        assert(a % d == 0) by (nonlinear_arith)
            requires
                d > 0,
                b > 0,
                b % d == 0,
                r % d == 0,
                r == a % b,
        {
            let q = a / b;
            let x = b / d;
            let y = r / d;
            assert(a == q * b + r);
            assert(b == x * d);
            assert(r == y * d);
            assert(a == (q * x + y) * d);
        }
    }
}

/// Divisibility is transitive.
pub proof fn lemma_divides_transitive(d: nat, b: nat, i: nat)
    requires
        d > 0,
        b > 0,
        b % d == 0,
        i % b == 0,
    ensures
        i % d == 0,
{
    assert(i % d == 0) by (nonlinear_arith)
        requires
            d > 0,
            b > 0,
            b % d == 0,
            i % b == 0,
    {
        let x = i / b;
        let y = b / d;
        assert(i == x * b);
        assert(b == y * d);
        assert(i == (x * y) * d);
    }
}

/// A multiple of a multiple of `p` is a multiple of `p`.
pub proof fn lemma_multiple_divisible(b: nat, y: nat, p: nat)
    requires
        p > 0,
        y % p == 0,
    ensures
        (b * y) % p == 0,
{
    lemma_fundamental_div_mod(y as int, p as int);
    let c = (y / p) as int;
    assert(b * y == (b * c) * p) by (nonlinear_arith)
        requires
            y == p * c,
    ;
    lemma_mod_multiples_basic(b * c, p as int);
}

/// Adding a multiple of `p` keeps the remainder by `p`.
pub proof fn lemma_add_multiple(lo: nat, x: nat, p: nat)
    requires
        p > 0,
        lo % p == 0,
    ensures
        (lo + x) % p == x % p,
{
    lemma_fundamental_div_mod(lo as int, p as int);
    lemma_mod_multiples_vanish((lo / p) as int, x as int, p as int);
}

/// Bezout's identity: the greatest common divisor is an integer combination
/// of the two numbers.
pub proof fn lemma_bezout(a: nat, b: nat) -> (r: (int, int))
    ensures
        r.0 * a + r.1 * b == gcd(a, b),
    decreases b,
{
    if b == 0 {
        (1, 0)
    } else {
        let (u, v) = lemma_bezout(b, a % b);
        let q = (a / b) as int;
        let rem = (a % b) as int;
        lemma_fundamental_div_mod(a as int, b as int);
        assert(v * a + (u - v * q) * b == u * b + v * rem) by (nonlinear_arith)
            requires
                a == b * q + rem,
        ;
        (v, u - v * q)
    }
}

/// A prime shares no divisor but 1 with a number that it does not divide.
pub proof fn lemma_prime_coprime(p: nat, a: nat)
    requires
        is_prime(p),
        a % p != 0,
    ensures
        gcd(p, a) == 1,
{
    let g = gcd(p, a);
    lemma_gcd_positive(p, a);
    lemma_gcd_divides(p, a);
    if g > p {
        lemma_small_mod(p, g);
    }
    if 1 < g < p {
        assert(p % g != 0);
    }
}

/// Euclid's lemma: a prime that divides a product divides one of the
/// factors.
pub proof fn lemma_prime_divides_product(p: nat, a: nat, y: nat)
    requires
        is_prime(p),
        a % p != 0,
        (a * y) % p == 0,
    ensures
        y % p == 0,
{
    lemma_prime_coprime(p, a);
    let (u, v) = lemma_bezout(p, a);
    let c = ((a * y) / p) as int;
    lemma_fundamental_div_mod((a * y) as int, p as int);
    let z = u * y + v * c;
    assert(y == z * p) by (nonlinear_arith)
        requires
            u * p + v * a == 1,
            a * y == p * c,
            z == u * y + v * c,
    ;
    lemma_mod_multiples_basic(z, p as int);
}

/// Every number from 2 upwards has a prime divisor.
pub proof fn lemma_prime_factor(d: nat) -> (p: nat)
    requires
        d >= 2,
    ensures
        is_prime(p),
        d % p == 0,
        p <= d,
    decreases d,
{
    if is_prime(d) {
        assert(d % d == 0) by (nonlinear_arith)
            requires
                d >= 2,
        ;
        d
    } else {
        let e = choose|e: nat| 1 < e < d && #[trigger] (d % e) == 0;
        let p = lemma_prime_factor(e);
        lemma_divides_transitive(p, e, d);
        p
    }
}

/// A common divisor of two numbers divides their greatest common divisor.
pub proof fn lemma_common_divisor_divides_gcd(a: nat, b: nat, d: nat)
    requires
        d > 0,
        a % d == 0,
        b % d == 0,
    ensures
        gcd(a, b) % d == 0,
{
    let (u, v) = lemma_bezout(a, b);
    lemma_fundamental_div_mod(a as int, d as int);
    lemma_fundamental_div_mod(b as int, d as int);
    let x = (a / d) as int;
    let y = (b / d) as int;
    let z = u * x + v * y;
    assert(gcd(a, b) == z * d) by (nonlinear_arith)
        requires
            u * a + v * b == gcd(a, b),
            a == d * x,
            b == d * y,
            z == u * x + v * y,
    ;
    lemma_mod_multiples_basic(z, d as int);
}

/// Two positive numbers that divide each other are equal.
pub proof fn lemma_divides_antisymmetric(x: nat, y: nat)
    requires
        x > 0,
        y > 0,
        x % y == 0,
        y % x == 0,
    ensures
        x == y,
{
    if x < y {
        lemma_small_mod(x, y);
    }
    if y < x {
        lemma_small_mod(y, x);
    }
}

/// Taking a multiple of `g` off `x` keeps the greatest common divisor with
/// `g`.
pub proof fn lemma_gcd_less_multiple(g: nat, x: nat, s: nat)
    requires
        g >= 1,
        s % g == 0,
        s <= x,
    ensures
        gcd(g, (x - s) as nat) == gcd(g, x),
{
    let rest = (x - s) as nat;
    let d1 = gcd(g, rest);
    let d2 = gcd(g, x);
    lemma_gcd_positive(g, rest);
    lemma_gcd_positive(g, x);
    lemma_gcd_divides(g, rest);
    lemma_gcd_divides(g, x);
    lemma_divides_transitive(d1, g, s);
    lemma_add_multiple(s, rest, d1);
    lemma_common_divisor_divides_gcd(g, x, d1);
    lemma_divides_transitive(d2, g, s);
    lemma_add_multiple(s, rest, d2);
    lemma_common_divisor_divides_gcd(g, rest, d2);
    lemma_divides_antisymmetric(d1, d2);
}

/// A common factor can be taken out of the greatest common divisor.
pub proof fn lemma_gcd_scales(g: nat, y: nat, k: nat)
    requires
        g >= 1,
    ensures
        gcd(g * y, g * k) == g * gcd(y, k),
    decreases k,
{
    if k == 0 {
        assert(g * 0 == 0) by (nonlinear_arith);
    } else {
        lemma_truncate_middle(y as int, g as int, k as int);
        lemma_gcd_scales(g, k, y % k);
        assert(g * k != 0) by (nonlinear_arith)
            requires
                g >= 1,
                k >= 1,
        ;
        assert(g * (y % k) >= 0) by (nonlinear_arith);
        assert(((g * y) % (g * k)) as nat == g * (y % k));
    }
}

/// With `d = gcd(g, n)` for a divisor `g` of `s < n`, the least common
/// multiple of `g` and `n - s` is `(g / d) * (n - s)`.
pub proof fn lemma_lcm_with_rest(g: nat, s: nat, n: nat)
    requires
        g >= 1,
        s % g == 0,
        s < n,
    ensures
        lcm(g, (n - s) as nat) == (g / gcd(g, n)) * (n - s),
{
    let c = (n - s) as nat;
    let d = gcd(g, n);
    lemma_gcd_less_multiple(g, n, s);
    lemma_gcd_positive(g, n);
    lemma_gcd_divides(g, n);
    lemma_fundamental_div_mod(g as int, d as int);
    let q = g / d;
    assert(g * c == d * (q * c)) by (nonlinear_arith)
        requires
            g == d * q,
    ;
    assert(q * c >= 0) by (nonlinear_arith);
    lemma_div_multiples_vanish((q * c) as int, d as int);
}

/// The greatest common divisor of two 128-bit numbers.
///
/// Calls `num_integer::gcd`, which for unsigned integers runs the binary
/// algorithm and returns the greatest common divisor of its arguments, the
/// other argument where one is zero. Its result is taken to be [`gcd`].
#[verifier::external_body]
pub(crate) fn gcd_u128(a: u128, b: u128) -> (d: u128)
    ensures
        d == gcd(a as nat, b as nat),
{
    num_integer::gcd(a, b)
}

} // verus!
