use crate::numbers::gcd;
use crate::numbers::is_prime;
use crate::numbers::lemma_add_multiple;
use crate::numbers::lemma_common_divisor_divides_gcd;
use crate::numbers::lemma_divides_transitive;
use crate::numbers::lemma_gcd_divides;
use crate::numbers::lemma_gcd_positive;
use crate::numbers::lemma_multiple_divisible;
use crate::numbers::lemma_prime_divides_product;
use crate::numbers::lemma_prime_factor;
use crate::totient::euler_product;
use crate::totient::euler_product_upto;
use crate::totient::lemma_euler_product_bounds;
use crate::totient::lemma_euler_product_one;
use crate::totient::lemma_euler_product_prime;
use vstd::arithmetic::div_mod::lemma_div_multiples_vanish;
use vstd::arithmetic::div_mod::lemma_fundamental_div_mod;
use vstd::arithmetic::div_mod::lemma_fundamental_div_mod_converse;
use vstd::arithmetic::div_mod::lemma_mod_multiples_basic;
use vstd::arithmetic::div_mod::lemma_small_mod;
use vstd::prelude::*;

verus! {

/// `a` and `b` have no common divisor but 1.
pub open spec fn coprime(a: nat, b: nat) -> bool {
    gcd(a, b) == 1
}

/// How many `x` from 1 to `m` satisfy `f`.
pub open spec fn count_where(f: spec_fn(nat) -> bool, m: nat) -> nat
    decreases m,
{
    if m == 0 {
        0
    } else {
        count_where(f, (m - 1) as nat) + if f(m) {
            1nat
        } else {
            0nat
        }
    }
}

/// Euler's totient of `k`: how many numbers from 1 to `k` are coprime to
/// `k`. The totient of 0 is 0.
pub open spec fn totient(k: nat) -> nat {
    count_where(|x: nat| coprime(x, k), k)
}

/// No prime up to `bound` divides both `x` and `k`.
pub open spec fn free_of_common_primes(x: nat, k: nat, bound: nat) -> bool {
    forall|p: nat| #[trigger] is_prime(p) && p <= bound && k % p == 0 ==> x % p != 0
}

/// Two predicates that agree from 1 to `m` are satisfied equally often.
pub proof fn lemma_count_agree(f: spec_fn(nat) -> bool, g: spec_fn(nat) -> bool, m: nat)
    requires
        forall|x: nat| 1 <= x <= m ==> #[trigger] f(x) == g(x),
    ensures
        count_where(f, m) == count_where(g, m),
    decreases m,
{
    if m > 0 {
        lemma_count_agree(f, g, (m - 1) as nat);
        assert(f(m) == g(m));
    }
}

/// A predicate that always holds is satisfied `m` times.
pub proof fn lemma_count_all(f: spec_fn(nat) -> bool, m: nat)
    requires
        forall|x: nat| 1 <= x <= m ==> #[trigger] f(x),
    ensures
        count_where(f, m) == m,
    decreases m,
{
    if m > 0 {
        lemma_count_all(f, (m - 1) as nat);
        assert(f(m));
    }
}

/// The numbers that satisfy `f` split into those that also satisfy `h` and
/// those that do not.
pub proof fn lemma_count_split(f: spec_fn(nat) -> bool, h: spec_fn(nat) -> bool, m: nat)
    ensures
        count_where(f, m) == count_where(|x: nat| f(x) && h(x), m) + count_where(
            |x: nat| f(x) && !h(x),
            m,
        ),
    decreases m,
{
    if m > 0 {
        lemma_count_split(f, h, (m - 1) as nat);
    }
}

/// A stretch on which `f` never holds adds nothing to the count.
pub proof fn lemma_count_none(f: spec_fn(nat) -> bool, lo: nat, t: nat)
    requires
        forall|x: nat| lo < x <= lo + t ==> !#[trigger] f(x),
    ensures
        count_where(f, lo + t) == count_where(f, lo),
    decreases t,
{
    if t > 0 {
        lemma_count_none(f, lo, (t - 1) as nat);
        assert(!f(lo + t));
    }
}

/// The count up to `lo + j` is the count up to `lo` and the count of the
/// shifted predicate up to `j`.
pub proof fn lemma_count_shift(f: spec_fn(nat) -> bool, lo: nat, j: nat)
    ensures
        count_where(f, lo + j) == count_where(f, lo) + count_where(|x: nat| f(lo + x), j),
    decreases j,
{
    if j > 0 {
        lemma_count_shift(f, lo, (j - 1) as nat);
        assert(lo + j - 1 == lo + (j - 1));
    }
}

/// Among the numbers up to `b * m`, the multiples of `b` that satisfy `f`
/// are as many as the `y` up to `m` for which `b * y` satisfies `f`.
pub proof fn lemma_count_multiples(f: spec_fn(nat) -> bool, b: nat, m: nat)
    requires
        b >= 1,
    ensures
        count_where(|x: nat| f(x) && x % b == 0, b * m) == count_where(|y: nat| f(b * y), m),
    decreases m,
{
    let h = |x: nat| f(x) && x % b == 0;
    let g = |y: nat| f(b * y);
    if m > 0 {
        let below = (m - 1) as nat;
        lemma_count_multiples(f, b, below);
        let lo = b * below;
        assert(b * m == lo + b) by (nonlinear_arith)
            requires
                below + 1 == m,
                lo == b * below,
        ;
        assert forall|x: nat| lo < x <= lo + (b - 1) as nat implies !#[trigger] h(x) by {
            lemma_fundamental_div_mod_converse(x as int, b as int, below as int, x - lo);
        }
        lemma_count_none(h, lo, (b - 1) as nat);
        lemma_mod_multiples_basic(m as int, b as int);
        assert((b * m) % b == 0) by {
            assert(b * m == m * b) by (nonlinear_arith);
        }
        assert(h(b * m) == g(m));
        assert((b * m - 1) as nat == lo + (b - 1) as nat);
    } else {
        assert(b * 0 == 0) by (nonlinear_arith);
    }
}

/// Multiplying by a prime above the bound does not change which primes up to
/// the bound a number shares with `k`.
proof fn lemma_free_of_multiple(y: nat, k: nat, b: nat)
    requires
        is_prime(b),
    ensures
        free_of_common_primes(b * y, k, (b - 1) as nat) == free_of_common_primes(
            y,
            k,
            (b - 1) as nat,
        ),
{
    let bound = (b - 1) as nat;
    if free_of_common_primes(y, k, bound) {
        assert forall|p: nat| #[trigger] is_prime(p) && p <= bound && k % p == 0 implies (b * y)
            % p != 0 by {
            if (b * y) % p == 0 {
                assert(b % p != 0);
                lemma_prime_divides_product(p, b, y);
            }
        }
    }
    if free_of_common_primes(b * y, k, bound) {
        assert forall|p: nat| #[trigger] is_prime(p) && p <= bound && k % p == 0 implies y % p
            != 0 by {
            if y % p == 0 {
                lemma_multiple_divisible(b, y, p);
            }
        }
    }
}

/// Adding a multiple of `k / b`, for a prime `b` that divides `k`, does not
/// change which primes below `b` a number shares with `k`.
proof fn lemma_free_is_periodic(x: nat, k: nat, b: nat, part: nat, t: nat)
    requires
        is_prime(b),
        k == b * part,
    ensures
        free_of_common_primes(t * part + x, k, (b - 1) as nat) == free_of_common_primes(
            x,
            k,
            (b - 1) as nat,
        ),
{
    let bound = (b - 1) as nat;
    let lo = t * part;
    assert forall|p: nat| #[trigger] is_prime(p) && p <= bound && k % p == 0 implies (lo + x) % p
        == x % p by {
        assert(b % p != 0);
        lemma_prime_divides_product(p, b, part);
        lemma_multiple_divisible(t, part, p);
        lemma_add_multiple(lo, x, p);
    }
    if free_of_common_primes(x, k, bound) {
        assert forall|p: nat| #[trigger] is_prime(p) && p <= bound && k % p == 0 implies (lo + x)
            % p != 0 by {
            assert((lo + x) % p == x % p);
        }
    }
    if free_of_common_primes(lo + x, k, bound) {
        assert forall|p: nat| #[trigger] is_prime(p) && p <= bound && k % p == 0 implies x % p
            != 0 by {
            assert((lo + x) % p == x % p);
        }
    }
}

/// The numbers that share no prime below `b` with `k` are spread evenly over
/// the stretches of length `k / b`.
proof fn lemma_free_count_blocks(k: nat, b: nat, part: nat, t: nat)
    requires
        is_prime(b),
        k == b * part,
    ensures
        count_where(|x: nat| free_of_common_primes(x, k, (b - 1) as nat), t * part) == t
            * count_where(|x: nat| free_of_common_primes(x, k, (b - 1) as nat), part),
    decreases t,
{
    let bound = (b - 1) as nat;
    let f = |x: nat| free_of_common_primes(x, k, bound);
    let c = count_where(f, part);
    if t > 0 {
        let below = (t - 1) as nat;
        lemma_free_count_blocks(k, b, part, below);
        let lo = below * part;
        assert(t * part == lo + part && t * c == below * c + c) by (nonlinear_arith)
            requires
                below + 1 == t,
                lo == below * part,
        ;
        lemma_count_shift(f, lo, part);
        let shifted = |x: nat| f(lo + x);
        assert forall|x: nat| 1 <= x <= part implies #[trigger] shifted(x) == f(x) by {
            lemma_free_is_periodic(x, k, b, part, below);
        }
        lemma_count_agree(shifted, f, part);
    } else {
        assert(0 * part == 0 && 0 * c == 0) by (nonlinear_arith);
    }
}

/// Euler's product, cut off at `bound`, counts the numbers up to `k` that
/// share no prime up to `bound` with `k`.
pub proof fn lemma_product_counts(k: nat, bound: nat)
    requires
        k >= 1,
    ensures
        euler_product_upto(k, bound) == count_where(|x: nat| free_of_common_primes(x, k, bound), k),
    decreases bound,
{
    let now = |x: nat| free_of_common_primes(x, k, bound);
    if bound == 0 {
        assert forall|x: nat| 1 <= x <= k implies #[trigger] now(x) by {
            assert forall|p: nat| #[trigger] is_prime(p) && p <= bound && k % p == 0 implies x % p
                != 0 by {}
        }
        lemma_count_all(now, k);
    } else {
        let b = bound;
        let below = (bound - 1) as nat;
        let f = |x: nat| free_of_common_primes(x, k, below);
        lemma_product_counts(k, below);
        let r = count_where(f, k);
        assert(r == euler_product_upto(k, below));
        if is_prime(b) && k % b == 0 {
            let part = k / b;
            lemma_fundamental_div_mod(k as int, b as int);
            assert(k == b * part);
            let h = |x: nat| x % b == 0;
            let with_b = |x: nat| f(x) && h(x);
            let without_b = |x: nat| f(x) && !h(x);
            lemma_count_split(f, h, k);
            assert(r == count_where(with_b, k) + count_where(without_b, k));
            assert forall|x: nat| 1 <= x <= k implies #[trigger] now(x) == without_b(x) by {
                if now(x) {
                    assert(is_prime(b) && b <= bound && k % b == 0);
                    assert(x % b != 0);
                    assert forall|p: nat| #[trigger]
                        is_prime(p) && p <= below && k % p == 0 implies x % p != 0 by {}
                }
                if without_b(x) {
                    assert forall|p: nat| #[trigger]
                        is_prime(p) && p <= bound && k % p == 0 implies x % p != 0 by {
                        if p <= below {
                        }
                    }
                }
            }
            lemma_count_agree(now, without_b, k);
            let by_b = |x: nat| f(x) && x % b == 0;
            assert forall|x: nat| 1 <= x <= k implies #[trigger] with_b(x) == by_b(x) by {}
            lemma_count_agree(with_b, by_b, k);
            lemma_count_multiples(f, b, part);
            let scaled = |y: nat| f(b * y);
            assert forall|y: nat| 1 <= y <= part implies #[trigger] scaled(y) == f(y) by {
                lemma_free_of_multiple(y, k, b);
            }
            lemma_count_agree(scaled, f, part);
            let c = count_where(f, part);
            assert(count_where(with_b, k) == c);
            lemma_free_count_blocks(k, b, part, b);
            assert(r == b * c);
            lemma_div_multiples_vanish(c as int, b as int);
            assert(r / b == c);
            assert(count_where(now, k) == r - c);
        } else {
            assert forall|x: nat| 1 <= x <= k implies #[trigger] now(x) == f(x) by {
                if f(x) {
                    assert forall|p: nat| #[trigger]
                        is_prime(p) && p <= bound && k % p == 0 implies x % p != 0 by {
                        if p <= below {
                        }
                    }
                }
                if now(x) {
                    assert forall|p: nat| #[trigger]
                        is_prime(p) && p <= below && k % p == 0 implies x % p != 0 by {}
                }
            }
            lemma_count_agree(now, f, k);
        }
    }
}

/// A number shares no prime with `k` exactly when it is coprime to `k`.
pub proof fn lemma_free_is_coprime(x: nat, k: nat)
    requires
        k >= 1,
    ensures
        free_of_common_primes(x, k, k) == coprime(x, k),
{
    if coprime(x, k) {
        assert forall|p: nat| #[trigger] is_prime(p) && p <= k && k % p == 0 implies x % p
            != 0 by {
            if x % p == 0 {
                lemma_common_divisor_divides_gcd(x, k, p);
                lemma_small_mod(1, p);
            }
        }
    } else {
        let g = gcd(x, k);
        lemma_gcd_positive(x, k);
        lemma_gcd_divides(x, k);
        assert(g >= 2);
        let p = lemma_prime_factor(g);
        lemma_divides_transitive(p, g, x);
        lemma_divides_transitive(p, g, k);
        if p > k {
            lemma_small_mod(k, p);
        }
        assert(is_prime(p) && p <= k && k % p == 0 && x % p == 0);
    }
}

/// Euler's product for `k` is the totient of `k`: the number of the
/// integers from 1 to `k` that are coprime to `k`.
pub proof fn lemma_euler_product_is_totient(k: nat)
    ensures
        euler_product(k) == totient(k),
{
    if k >= 1 {
        lemma_product_counts(k, k);
        let free = |x: nat| free_of_common_primes(x, k, k);
        let co = |x: nat| coprime(x, k);
        assert forall|x: nat| 1 <= x <= k implies #[trigger] free(x) == co(x) by {
            lemma_free_is_coprime(x, k);
        }
        lemma_count_agree(free, co, k);
    }
}

/// For every positive `k`, the totient lies between 1 and `k`.
pub proof fn lemma_totient_bounds(k: nat)
    ensures
        totient(k) <= k,
        k >= 1 ==> totient(k) >= 1,
{
    lemma_euler_product_is_totient(k);
    lemma_euler_product_bounds(k);
}

/// The totient of 1 is 1.
pub proof fn lemma_totient_one()
    ensures
        totient(1) == 1,
{
    lemma_euler_product_is_totient(1);
    lemma_euler_product_one();
}

/// The totient of a prime `p` is `p - 1`.
pub proof fn lemma_totient_prime(p: nat)
    requires
        is_prime(p),
    ensures
        totient(p) == p - 1,
{
    lemma_euler_product_is_totient(p);
    lemma_euler_product_prime(p);
}

} // verus!
