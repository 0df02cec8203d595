use crate::coprime::lemma_euler_product_is_totient;
use crate::coprime::totient;
use crate::numbers::is_prime;
use crate::numbers::lemma_divides_transitive;
use vstd::arithmetic::div_mod::lemma_fundamental_div_mod_converse;
use vstd::arithmetic::div_mod::lemma_small_mod;
use vstd::prelude::*;

verus! {

/// Euler's product for `k`, cut off at `bound`: `k` multiplied by
/// `1 - 1/p` for each prime `p <= bound` that divides `k`, the primes taken
/// in increasing order.
pub open spec fn euler_product_upto(k: nat, bound: nat) -> nat
    decreases bound,
{
    if bound == 0 {
        k
    } else {
        let r = euler_product_upto(k, (bound - 1) as nat);
        if is_prime(bound) && k % bound == 0 {
            (r - r / bound) as nat
        } else {
            r
        }
    }
}

/// Euler's product for `k`: `k` multiplied by `1 - 1/p` for each prime `p`
/// that divides `k`.
pub open spec fn euler_product(k: nat) -> nat {
    euler_product_upto(k, k)
}

/// A cut-off product lies between 1 and `k`, for positive `k`.
pub proof fn lemma_euler_product_upto_bounds(k: nat, bound: nat)
    ensures
        euler_product_upto(k, bound) <= k,
        k >= 1 ==> euler_product_upto(k, bound) >= 1,
    decreases bound,
{
    if bound > 0 {
        lemma_euler_product_upto_bounds(k, (bound - 1) as nat);
        let r = euler_product_upto(k, (bound - 1) as nat);
        if is_prime(bound) {
            assert(0 <= r / bound <= r && (r >= 1 ==> r / bound < r)) by (nonlinear_arith)
                requires
                    bound >= 2,
            ;
        }
    }
}

/// Raising the cut-off never raises the product.
pub proof fn lemma_euler_product_upto_step(k: nat, bound: nat)
    requires
        bound >= 1,
    ensures
        euler_product_upto(k, bound) <= euler_product_upto(k, (bound - 1) as nat),
{
    let r = euler_product_upto(k, (bound - 1) as nat);
    if is_prime(bound) {
        assert(0 <= r / bound <= r) by (nonlinear_arith)
            requires
                bound >= 2,
        ;
    }
}

/// Primes above `k` do not divide `k`: a cut-off at or above `k` gives the
/// whole product.
pub proof fn lemma_euler_product_upto_past(k: nat, bound: nat)
    requires
        bound >= k,
    ensures
        euler_product_upto(k, bound) == euler_product(k),
    decreases bound,
{
    if bound > k {
        lemma_euler_product_upto_past(k, (bound - 1) as nat);
        if k >= 1 {
            lemma_small_mod(k, bound);
        } else {
            lemma_euler_product_upto_bounds(k, (bound - 1) as nat);
            lemma_euler_product_upto_bounds(k, bound);
        }
    }
}

/// Below `i`, the cut-off product of `i` is still `i` exactly when no number
/// from 2 to the cut-off divides `i`.
pub proof fn lemma_untouched(i: nat, bound: nat)
    requires
        2 <= i,
        bound < i,
    ensures
        euler_product_upto(i, bound) == i <==> (forall|d: nat|
            2 <= d <= bound ==> #[trigger] (i % d) != 0),
    decreases bound,
{
    if bound > 0 {
        let below = (bound - 1) as nat;
        lemma_untouched(i, below);
        lemma_euler_product_upto_step(i, bound);
        lemma_euler_product_upto_bounds(i, below);
        let r = euler_product_upto(i, below);
        if r == i {
            if bound >= 2 && i % bound == 0 {
                assert forall|d: nat| 1 < d < bound implies #[trigger] (bound % d) != 0 by {
                    if bound % d == 0 {
                        lemma_divides_transitive(d, bound, i);
                        assert(i % d == 0);
                    }
                }
                assert(is_prime(bound));
                assert(i / bound >= 1) by (nonlinear_arith)
                    requires
                        2 <= bound < i,
                ;
                assert(euler_product_upto(i, bound) < i);
            } else {
                assert(euler_product_upto(i, bound) == i);
                assert forall|d: nat| 2 <= d <= bound implies #[trigger] (i % d) != 0 by {
                    if d < bound {
                        assert(2 <= d <= below);
                    }
                }
            }
        } else {
            assert(euler_product_upto(i, bound) < i);
            assert(exists|d: nat| 2 <= d <= below && #[trigger] (i % d) == 0);
        }
    }
}

/// For every positive `k`, Euler's product lies between 1 and `k`.
pub proof fn lemma_euler_product_bounds(k: nat)
    ensures
        euler_product(k) <= k,
        k >= 1 ==> euler_product(k) >= 1,
{
    lemma_euler_product_upto_bounds(k, k);
}

/// Euler's product for 1 is 1.
pub proof fn lemma_euler_product_one()
    ensures
        euler_product(1) == 1,
{
    reveal_with_fuel(euler_product_upto, 2);
    assert(!is_prime(1));
}

/// Euler's product for a prime `p` is `p - 1`.
pub proof fn lemma_euler_product_prime(p: nat)
    requires
        is_prime(p),
    ensures
        euler_product(p) == p - 1,
{
    let below = (p - 1) as nat;
    lemma_untouched(p, below);
    assert(euler_product_upto(p, below) == p);
    assert(p % p == 0 && p / p == 1) by (nonlinear_arith)
        requires
            p >= 2,
    ;
}

/// The table of Euler's totient for the indices `0..=n`: entry `k` is the
/// number of the integers from 1 to `k` that are coprime to `k`, and Euler's
/// product for `k`.
///
/// Every entry starts as its own index. Then each index `i` from 2 upwards
/// that still holds `i` is a prime, and every multiple of it loses one
/// `i`-th of its entry.
pub fn totient_sieve(n: u128) -> (phi: Vec<u128>)
    requires
        n < usize::MAX,
    ensures
        phi@.len() == n + 1,
        forall|k: int| 0 <= k <= n ==> #[trigger] phi@[k] == totient(k as nat),
        forall|k: int| 0 <= k <= n ==> #[trigger] phi@[k] == euler_product(k as nat),
        phi@[0] == 0,
        forall|k: int| 1 <= k <= n ==> 1 <= #[trigger] phi@[k] <= k,
{
    let len: usize = (n + 1) as usize;
    let mut phi: Vec<u128> = Vec::with_capacity(len);
    let mut k: usize = 0;
    while k < len
        invariant
            k <= len,
            phi@.len() == k,
            forall|j: int| 0 <= j < k ==> #[trigger] phi@[j] == j,
        decreases len - k,
    {
        phi.push(k as u128);
        k += 1;
    }
    proof {
        reveal_with_fuel(euler_product_upto, 2);
        assert(!is_prime(1));
        assert forall|j: int| 0 <= j < len implies #[trigger] phi@[j] == euler_product_upto(
            j as nat,
            1,
        ) by {}
    }
    let mut i: u128 = 2;
    while i <= n
        invariant
            2 <= i,
            i <= n + 1 || n < 2,
            n + 1 == len,
            phi@.len() == len,
            forall|j: int|
                0 <= j < len ==> #[trigger] phi@[j] == euler_product_upto(j as nat, (i - 1) as nat),
        decreases n + 1 - i,
    {
        if phi[i as usize] == i {
            proof {
                lemma_untouched(i as nat, (i - 1) as nat);
                assert(is_prime(i as nat));
            }
            let mut j: u128 = i;
            let ghost mut q: nat = 1;
            proof {
                assert forall|k: int| 0 < k < j implies #[trigger] (k % (i as int)) != 0 by {
                    lemma_small_mod(k as nat, i as nat);
                }
            }
            while j <= n
                invariant
                    2 <= i <= n,
                    is_prime(i as nat),
                    n + 1 == len,
                    n < usize::MAX,
                    j == q * i,
                    q >= 1,
                    i <= j,
                    phi@.len() == len,
                    forall|k: int|
                        0 <= k < len ==> #[trigger] phi@[k] == (if 0 < k < j && k % (i as int)
                            == 0 {
                            euler_product_upto(k as nat, i as nat)
                        } else {
                            euler_product_upto(k as nat, (i - 1) as nat)
                        }),
                decreases n + i - j,
            {
                let v: u128 = phi[j as usize];
                let ghost prev = phi@;
                proof {
                    assert(v == prev[j as int]);
                    assert((j as int) % (i as int) == 0) by (nonlinear_arith)
                        requires
                            j == q * i,
                            i >= 2,
                    ;
                    assert((j as nat) % (i as nat) == 0);
                    assert(euler_product_upto(j as nat, i as nat) == v - v / i);
                    assert(0 <= v / i <= v) by (nonlinear_arith)
                        requires
                            i >= 2,
                            v >= 0,
                    ;
                }
                phi.set(j as usize, v - v / i);
                proof {
                    let next = j + i;
                    assert(next == (q + 1) * i) by (nonlinear_arith)
                        requires
                            next == j + i,
                            j == q * i,
                    ;
                    assert forall|k: int| 0 <= k < len implies #[trigger] phi@[k] == (if 0 < k
                        < next && k % (i as int) == 0 {
                        euler_product_upto(k as nat, i as nat)
                    } else {
                        euler_product_upto(k as nat, (i - 1) as nat)
                    }) by {
                        if k == j {
                            assert(phi@[k] == v - v / i);
                        } else {
                            assert(phi@[k] == prev[k]);
                            if j < k < next {
                                lemma_fundamental_div_mod_converse(k, i as int, q as int, k - j);
                                assert(k % (i as int) != 0);
                            }
                        }
                    }
                    q = q + 1;
                }
                j = j + i;
            }
            proof {
                lemma_euler_product_upto_bounds(0, i as nat);
                lemma_euler_product_upto_bounds(0, (i - 1) as nat);
                assert forall|k: int| 0 <= k < len implies #[trigger] phi@[k] == euler_product_upto(
                    k as nat,
                    i as nat,
                ) by {
                    if k > 0 && k % (i as int) != 0 {
                        assert((k as nat) % (i as nat) != 0);
                    }
                }
            }
        } else {
            proof {
                lemma_untouched(i as nat, (i - 1) as nat);
                assert(!is_prime(i as nat));
            }
        }
        i = i + 1;
    }
    proof {
        assert forall|k: int| 0 <= k <= n implies #[trigger] phi@[k] == euler_product(k as nat)
            && phi@[k] == totient(k as nat) by {
            lemma_euler_product_upto_past(k as nat, (i - 1) as nat);
            lemma_euler_product_is_totient(k as nat);
        }
        assert forall|k: int| 1 <= k <= n implies 1 <= #[trigger] phi@[k] <= k by {
            lemma_euler_product_bounds(k as nat);
        }
        assert(phi@[0] == euler_product(0));
    }
    phi
}

} // verus!
