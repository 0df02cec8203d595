use crate::enumeration::lemma_triple_sum_is_grouped;
use crate::enumeration::triple_sum;
use crate::enumeration::triple_sum_upto;
use crate::error::ComputeError;
use crate::numbers::gcd;
use crate::numbers::gcd_u128;
use crate::numbers::lemma_gcd_positive;
use crate::prefix::lemma_prefix_sums_bounded;
use crate::prefix::prefix_sum;
use crate::prefix::sums;
use crate::prefix::weighted_prefix_sum;
use crate::coprime::lemma_totient_bounds;
use crate::coprime::totient;
use crate::totient::totient_sieve;
use vstd::prelude::*;

verus! {

/// The largest problem size that [`run_calculation`] accepts. Up to it the
/// three tables can be indexed on every machine and no sum or product leaves
/// 128 bits.
pub const MAX_N: u128 = 4_294_967_294;

/// What the pairs `(a, b)` with `gcd(a, b) = g` and `a + b = g * k`, for `k`
/// from 2 to `m`, add up to, before the division by `gcd(g, n)`: there are
/// `totient(k)` such pairs for each `k`, and each leaves `c = n - g * k`.
pub open spec fn inner_sum(n: nat, g: nat, m: nat) -> int
    decreases m,
{
    if m < 2 {
        0
    } else {
        inner_sum(n, g, (m - 1) as nat) + totient(m) * (n - g * m)
    }
}

/// `g` with what it shares with `n` divided out.
pub open spec fn cofactor(n: nat, g: nat) -> nat {
    g / gcd(g, n)
}

/// The contributions of `g` from 1 to `top`, with `a + b` at most `t`. The
/// pairs `(a, b)` with `gcd(a, b) = g` contribute
/// `lcm(g, n - g * k) = cofactor(n, g) * (n - g * k)` for each of the
/// `totient(k)` pairs of each `k >= 2` with `g * k <= t`.
pub open spec fn grouped_sum(n: nat, t: nat, top: nat) -> int
    decreases top,
{
    if top == 0 {
        0
    } else {
        grouped_sum(n, t, (top - 1) as nat) + cofactor(n, top) * inner_sum(n, top, t / top)
    }
}

/// The sum of `lcm(gcd(a, b), c)` over the positive `a + b + c = n`, grouped
/// by `g = gcd(a, b)` and `k = (a + b) / g`: the sum over `g >= 1` and
/// `k >= 2` with `g * k < n` of
/// `totient(k) * (g / gcd(g, n)) * (n - g * k)`. It is
/// [`crate::enumeration::triple_sum`], by
/// [`crate::enumeration::lemma_triple_sum_is_grouped`].
pub open spec fn closed_form(n: nat) -> int {
    if n == 0 {
        0
    } else {
        grouped_sum(n, (n - 1) as nat, (n - 1) as nat / 2)
    }
}

/// What one value of `g` adds, from the two range sums and the factor
/// `g / gcd(g, n)`: `(n * sum_phi - g * sum_k_phi) * factor`, an overflow
/// where a product leaves 128 bits, and a negative term where the second
/// product exceeds the first.
pub open spec fn contribution_of(
    n: u128,
    g: u128,
    sum_phi: u128,
    sum_k_phi: u128,
    factor: u128,
) -> Result<u128, ComputeError> {
    let t1 = n * sum_phi;
    let t2 = g * sum_k_phi;
    if t1 > u128::MAX || t2 > u128::MAX {
        Err(ComputeError::Overflow)
    } else if t2 > t1 {
        Err(ComputeError::NegativeTerm)
    } else if (t1 - t2) * factor > u128::MAX {
        Err(ComputeError::Overflow)
    } else {
        Ok(((t1 - t2) * factor) as u128)
    }
}

/// The sum of the table's entries from 2 to `m`, weighted by `n - g * k`,
/// is `n` times their plain sum less `g` times their sum weighted by `k`.
pub proof fn lemma_inner_sum_from_prefix_sums(s: Seq<u128>, n: nat, g: nat, m: nat)
    requires
        1 <= m < s.len(),
        forall|k: int| 1 <= k <= m ==> #[trigger] s[k] == totient(k as nat),
    ensures
        inner_sum(n, g, m) == n * (prefix_sum(s, m) - prefix_sum(s, 1)) - g * (weighted_prefix_sum(
            s,
            m,
        ) - weighted_prefix_sum(s, 1)),
    decreases m,
{
    if m >= 2 {
        let h = (m - 1) as nat;
        lemma_inner_sum_from_prefix_sums(s, n, g, h);
        let x = s[m as int] as int;
        let p = prefix_sum(s, h) - prefix_sum(s, 1);
        let w = weighted_prefix_sum(s, h) - weighted_prefix_sum(s, 1);
        assert(totient(m) == x);
        assert(weighted_prefix_sum(s, m) == weighted_prefix_sum(s, h) + m * x);
        assert(n * p - g * w + x * (n - g * m) == n * (p + x) - g * (w + m * x))
            by (nonlinear_arith);
    } else {
        assert(n * 0 - g * 0 == 0) by (nonlinear_arith);
    }
}

/// While `g * m` stays at or below `n`, no summand of the inner sum is
/// negative, and the sum stays at or below `m * m * n`.
pub proof fn lemma_inner_sum_bounds(n: nat, g: nat, m: nat)
    requires
        g * m <= n,
    ensures
        0 <= inner_sum(n, g, m) <= m * m * n,
    decreases m,
{
    if m >= 2 {
        let h = (m - 1) as nat;
        assert(g * h <= g * m) by (nonlinear_arith)
            requires
                h <= m,
        ;
        lemma_inner_sum_bounds(n, g, h);
        lemma_totient_bounds(m);
        let t = totient(m) as int;
        let c = n - g * m;
        assert(0 <= g * m) by (nonlinear_arith);
        assert(0 <= t * c <= m * n) by (nonlinear_arith)
            requires
                0 <= t <= m,
                0 <= c <= n,
        ;
        assert(h * h * n + m * n <= m * m * n) by (nonlinear_arith)
            requires
                h + 1 == m,
                m >= 2,
        ;
    } else {
        assert(0 <= m * m * n) by (nonlinear_arith);
    }
}

/// Over a table of totients, with `m = (n - 1) / g`, the product that is
/// taken off never exceeds the product that it is taken from.
pub proof fn lemma_difference_nonnegative(s: Seq<u128>, n: nat, g: nat)
    requires
        n >= 1,
        g >= 1,
        1 <= (n - 1) as nat / g < s.len(),
        forall|k: int| 1 <= k <= (n - 1) as nat / g ==> #[trigger] s[k] == totient(k as nat),
    ensures
        g * (weighted_prefix_sum(s, (n - 1) as nat / g) - weighted_prefix_sum(s, 1)) <= n * (
        prefix_sum(s, (n - 1) as nat / g) - prefix_sum(s, 1)),
{
    let m = (n - 1) as nat / g;
    lemma_quotient_bounds(n, g);
    lemma_inner_sum_bounds(n, g, m);
    lemma_inner_sum_from_prefix_sums(s, n, g, m);
}

/// Every contribution is non-negative.
pub proof fn lemma_term_nonnegative(n: nat, t: nat, g: nat)
    requires
        t < n,
        g >= 1,
    ensures
        cofactor(n, g) * inner_sum(n, g, t / g) >= 0,
{
    let m = t / g;
    assert(g * m <= t) by (nonlinear_arith)
        requires
            m == t / g,
            g >= 1,
    ;
    lemma_inner_sum_bounds(n, g, m);
    lemma_gcd_positive(g, n);
    let d = gcd(g, n);
    let f = g / d;
    let s = inner_sum(n, g, m);
    assert(f >= 0) by (nonlinear_arith)
        requires
            f == g / d,
            d > 0,
            g >= 0,
    ;
    assert(f * s >= 0) by (nonlinear_arith)
        requires
            f >= 0,
            s >= 0,
    ;
}

/// The sum of the contributions never decreases as more values of `g` are
/// taken in.
pub proof fn lemma_grouped_sum_monotone(n: nat, t: nat, low: nat, high: nat)
    requires
        t < n,
        low <= high,
    ensures
        0 <= grouped_sum(n, t, low) <= grouped_sum(n, t, high),
    decreases high,
{
    if high > 0 {
        lemma_term_nonnegative(n, t, high);
        if low < high {
            lemma_grouped_sum_monotone(n, t, low, (high - 1) as nat);
        } else {
            lemma_grouped_sum_monotone(n, t, (low - 1) as nat, (high - 1) as nat);
        }
    }
}

/// No triple of positive integers adds up to less than 3.
pub proof fn lemma_small_sizes()
    ensures
        triple_sum(0) == 0,
        triple_sum(1) == 0,
        triple_sum(2) == 0,
{
    reveal_with_fuel(triple_sum_upto, 2);
}

/// With `m = (n - 1) / g`: `g * m < n` and `m < n`.
proof fn lemma_quotient_bounds(n: nat, g: nat)
    requires
        n >= 1,
        g >= 1,
    ensures
        g * ((n - 1) as nat / g) <= n - 1,
        (n - 1) as nat / g <= n - 1,
{
    let a = (n - 1) as nat;
    assert(g * (a / g) <= a && a / g <= a) by (nonlinear_arith)
        requires
            g >= 1,
    ;
}

/// A contribution stays at or below the cube of `n`.
proof fn lemma_term_bound(n: nat, g: nat, m: nat, factor: nat, inner: int)
    requires
        g * m <= n,
        m <= n,
        factor <= g,
        0 <= inner <= m * m * n,
    ensures
        0 <= inner * factor <= n * n * n,
{
    assert(0 <= inner * factor <= n * n * n) by (nonlinear_arith)
        requires
            g * m <= n,
            m <= n,
            factor <= g,
            0 <= inner <= m * m * n,
    {
        assert(inner * factor <= (m * m * n) * g);
        assert((m * m * n) * g == (g * m) * (m * n));
        assert((g * m) * (m * n) <= n * (m * n));
        assert(n * (m * n) <= n * (n * n));
    }
}

/// Up to [`MAX_N`], `n` cubes fit in 128 bits `n` times over.
proof fn lemma_fits(n: nat, g: nat)
    requires
        n <= MAX_N,
        g <= n,
    ensures
        n * n * n <= 0xffff_ffff_ffff_ffff_ffff_ffff,
        g * (n * n * n) <= u128::MAX,
{
    assert(n * n <= 0xffff_ffff_ffff_ffff) by (nonlinear_arith)
        requires
            n <= 0xffff_ffff,
    ;
    let sq = n * n;
    assert(sq * n <= 0xffff_ffff_ffff_ffff_ffff_ffff) by (nonlinear_arith)
        requires
            n <= 0xffff_ffff,
            sq <= 0xffff_ffff_ffff_ffff,
    ;
    let cube = n * n * n;
    assert(g * cube <= 0xffff_ffff_ffff_ffff_ffff_ffff_ffff_ffff) by (nonlinear_arith)
        requires
            g <= 0xffff_ffff,
            cube <= 0xffff_ffff_ffff_ffff_ffff_ffff,
    ;
}

/// What one value of `g` adds to the result: `(n * sum_phi - g * sum_k_phi)
/// * factor`, where `sum_phi` and `sum_k_phi` are the range sums of the
/// totient and of the totient weighted by its argument, and `factor` is
/// `g / gcd(g, n)`.
///
/// A first product below the second is reported as
/// [`ComputeError::NegativeTerm`], a product that leaves 128 bits as
/// [`ComputeError::Overflow`].
pub fn contribution(n: u128, g: u128, sum_phi: u128, sum_k_phi: u128, factor: u128) -> (r: Result<
    u128,
    ComputeError,
>)
    ensures
        r == contribution_of(n, g, sum_phi, sum_k_phi, factor),
{
    let t1: u128 = match n.checked_mul(sum_phi) {
        Some(t) => t,
        None => {
            return Err(ComputeError::Overflow);
        },
    };
    let t2: u128 = match g.checked_mul(sum_k_phi) {
        Some(t) => t,
        None => {
            return Err(ComputeError::Overflow);
        },
    };
    if t2 > t1 {
        return Err(ComputeError::NegativeTerm);
    }
    match (t1 - t2).checked_mul(factor) {
        Some(t) => Ok(t),
        None => Err(ComputeError::Overflow),
    }
}

/// The sum of `lcm(gcd(a, b), c)` over the ordered triples of positive
/// integers with `a + b + c = n`, for `n` up to [`MAX_N`].
///
/// For each `g` up to `(n - 1) / 2` the pairs `(a, b)` with `gcd(a, b) = g`
/// are taken together: their contribution is read off the running sums of the
/// totient table. No accepted `n` overflows, and no contribution is negative.
pub fn run_calculation(n: u128) -> (r: Result<u128, ComputeError>)
    ensures
        n <= MAX_N ==> triple_sum(n as nat) <= u128::MAX,
        n <= MAX_N ==> r == Ok::<u128, ComputeError>(triple_sum(n as nat) as u128),
        n > MAX_N ==> r == Err::<u128, ComputeError>(ComputeError::TooLarge),
{
    proof {
        lemma_triple_sum_is_grouped(n as nat);
    }
    if n == 0 {
        return Ok(0);
    }
    if n > MAX_N {
        return Err(ComputeError::TooLarge);
    }
    let phi: Vec<u128> = totient_sieve(n);
    proof {
        lemma_fits(n as nat, n as nat);
        assert forall|k: int| 1 <= k <= n implies #[trigger] phi@[k] <= n by {
            lemma_totient_bounds(k as nat);
        }
        lemma_prefix_sums_bounded(phi@, n as nat, n as nat);
    }
    let (prefix_sum_phi, prefix_sum_k_phi) = match sums(phi.as_slice()) {
        Ok(tables) => tables,
        Err(e) => {
            return Err(e);
        },
    };
    let mut ans: u128 = 0;
    let limit: u128 = (n - 1) / 2;
    let mut g: u128 = 1;
    while g <= limit
        invariant
            1 <= n <= MAX_N,
            limit == (n - 1) / 2,
            1 <= g <= limit + 1,
            phi@.len() == n + 1,
            prefix_sum_phi@.len() == n + 1,
            prefix_sum_k_phi@.len() == n + 1,
            forall|k: int| 0 <= k <= n ==> #[trigger] phi@[k] == totient(k as nat),
            forall|i: int|
                0 <= i <= n ==> #[trigger] prefix_sum_phi@[i] == prefix_sum(phi@, i as nat),
            forall|i: int|
                0 <= i <= n ==> #[trigger] prefix_sum_k_phi@[i] == weighted_prefix_sum(
                    phi@,
                    i as nat,
                ),
            forall|i: int, j: int|
                0 <= i <= j <= n ==> #[trigger] prefix_sum_phi@[i] <= #[trigger] prefix_sum_phi@[j],
            forall|i: int, j: int|
                0 <= i <= j <= n ==> #[trigger] prefix_sum_k_phi@[i]
                    <= #[trigger] prefix_sum_k_phi@[j],
            ans == grouped_sum(n as nat, (n - 1) as nat, (g - 1) as nat),
            ans <= (g - 1) * (n * n * n),
        decreases limit + 1 - g,
    {
        let m: u128 = (n - 1) / g;
        let ghost cube: int = n * n * n;
        proof {
            lemma_quotient_bounds(n as nat, g as nat);
            lemma_inner_sum_bounds(n as nat, g as nat, m as nat);
            lemma_fits(n as nat, g as nat);
            assert((g - 1) * cube + cube == g * cube) by (nonlinear_arith);
        }
        if m >= 2 {
            let sum_phi: u128 = prefix_sum_phi[m as usize] - prefix_sum_phi[1];
            let sum_k_phi: u128 = prefix_sum_k_phi[m as usize] - prefix_sum_k_phi[1];
            let d: u128 = gcd_u128(g, n);
            proof {
                lemma_gcd_positive(g as nat, n as nat);
            }
            let factor: u128 = g / d;
            proof {
                let inner = inner_sum(n as nat, g as nat, m as nat);
                lemma_inner_sum_from_prefix_sums(phi@, n as nat, g as nat, m as nat);
                assert forall|k: int| 1 <= k <= m implies #[trigger] phi@[k] <= n by {
                    lemma_totient_bounds(k as nat);
                }
                lemma_prefix_sums_bounded(phi@, m as nat, n as nat);
                assert(prefix_sum_phi@[m as int] == prefix_sum(phi@, m as nat));
                assert(prefix_sum_phi@[1] == prefix_sum(phi@, 1));
                assert(prefix_sum_k_phi@[m as int] == weighted_prefix_sum(phi@, m as nat));
                assert(prefix_sum_k_phi@[1] == weighted_prefix_sum(phi@, 1));
                assert(factor <= g) by (nonlinear_arith)
                    requires
                        factor == g / d,
                        d >= 1,
                ;
                assert(n * sum_phi <= cube) by (nonlinear_arith)
                    requires
                        sum_phi <= m * n,
                        m <= n,
                        cube == n * n * n,
                ;
                assert(inner == n * sum_phi - g * sum_k_phi);
                lemma_term_bound(n as nat, g as nat, m as nat, factor as nat, inner);
                assert(g * sum_k_phi >= 0) by (nonlinear_arith);
                assert(cofactor(n as nat, g as nat) * inner == inner * factor)
                    by (nonlinear_arith)
                    requires
                        cofactor(n as nat, g as nat) == factor,
                ;
            }
            let term: u128 = match contribution(n, g, sum_phi, sum_k_phi, factor) {
                Ok(t) => t,
                Err(e) => {
                    return Err(e);
                },
            };
            ans = ans + term;
        } else {
            proof {
                let f = (g as nat) / gcd(g as nat, n as nat);
                assert(f * 0 == 0) by (nonlinear_arith);
            }
        }
        g = g + 1;
    }
    Ok(ans)
}

} // verus!
