use crate::error::ComputeError;
use vstd::prelude::*;

verus! {

/// The sum of the entries `s[1], ..., s[i]`.
pub open spec fn prefix_sum(s: Seq<u128>, i: nat) -> nat
    decreases i,
{
    if i == 0 {
        0
    } else {
        prefix_sum(s, (i - 1) as nat) + s[i as int] as nat
    }
}

/// The sum of the products `k * s[k]` for `k` from 1 to `i`.
pub open spec fn weighted_prefix_sum(s: Seq<u128>, i: nat) -> nat
    decreases i,
{
    if i == 0 {
        0
    } else {
        weighted_prefix_sum(s, (i - 1) as nat) + i * (s[i as int] as nat)
    }
}

/// Both running sums are non-decreasing in the index.
pub proof fn lemma_prefix_sums_monotone(s: Seq<u128>, i: nat, j: nat)
    requires
        i <= j,
    ensures
        prefix_sum(s, i) <= prefix_sum(s, j),
        weighted_prefix_sum(s, i) <= weighted_prefix_sum(s, j),
    decreases j,
{
    if i < j {
        lemma_prefix_sums_monotone(s, i, (j - 1) as nat);
        assert(j * (s[j as int] as nat) >= 0) by (nonlinear_arith);
    }
}

/// The plain running sum never exceeds the weighted one.
pub proof fn lemma_prefix_sum_below_weighted(s: Seq<u128>, i: nat)
    ensures
        prefix_sum(s, i) <= weighted_prefix_sum(s, i),
    decreases i,
{
    if i > 0 {
        lemma_prefix_sum_below_weighted(s, (i - 1) as nat);
        let x = s[i as int] as nat;
        assert(x <= i * x) by (nonlinear_arith)
            requires
                i >= 1,
        ;
    }
}

/// Where no entry from 1 to `i` exceeds `bound`, the running sums stay below
/// `i * bound` and `i * i * bound`.
pub proof fn lemma_prefix_sums_bounded(s: Seq<u128>, i: nat, bound: nat)
    requires
        i < s.len(),
        forall|k: int| 1 <= k <= i ==> #[trigger] s[k] <= bound,
    ensures
        prefix_sum(s, i) <= i * bound,
        weighted_prefix_sum(s, i) <= i * i * bound,
    decreases i,
{
    if i > 0 {
        let h = (i - 1) as nat;
        lemma_prefix_sums_bounded(s, h, bound);
        let x = s[i as int] as nat;
        let p = prefix_sum(s, h);
        let w = weighted_prefix_sum(s, h);
        assert(x <= bound);
        assert(p + x <= i * bound) by (nonlinear_arith)
            requires
                p <= h * bound,
                x <= bound,
                h + 1 == i,
        ;
        assert(w + i * x <= i * i * bound) by (nonlinear_arith)
            requires
                w <= h * h * bound,
                x <= bound,
                h + 1 == i,
        {
            assert(i * x <= i * bound);
            assert(h * h * bound <= h * i * bound);
            assert(h * i * bound + i * bound == i * i * bound);
        }
    } else {
        assert(0 * bound == 0 && 0 * 0 * bound == 0) by (nonlinear_arith);
    }
}

/// The running sums of a table and of its entries weighted by their index.
///
/// Entry `i` of the first table is `phi[1] + ... + phi[i]`, entry `i` of the
/// second is `1 * phi[1] + ... + i * phi[i]`; entry 0 of both is 0, and
/// `phi[0]` is not read. The sums are refused with
/// [`ComputeError::Overflow`] exactly when the last weighted sum does not fit
/// in 128 bits.
pub fn sums(phi: &[u128]) -> (r: Result<(Vec<u128>, Vec<u128>), ComputeError>)
    requires
        phi@.len() >= 1,
    ensures
        r is Ok <==> weighted_prefix_sum(phi@, (phi@.len() - 1) as nat) <= u128::MAX,
        r is Err ==> r == Err::<(Vec<u128>, Vec<u128>), ComputeError>(ComputeError::Overflow),
        r is Ok ==> {
            let (sum_phi, sum_k_phi) = r->Ok_0;
            &&& sum_phi@.len() == phi@.len()
            &&& sum_k_phi@.len() == phi@.len()
            &&& sum_phi@[0] == 0
            &&& sum_k_phi@[0] == 0
            &&& forall|i: int|
                0 <= i < phi@.len() ==> #[trigger] sum_phi@[i] == prefix_sum(phi@, i as nat)
            &&& forall|i: int|
                0 <= i < phi@.len() ==> #[trigger] sum_k_phi@[i] == weighted_prefix_sum(
                    phi@,
                    i as nat,
                )
            &&& forall|i: int, j: int|
                0 <= i <= j < phi@.len() ==> #[trigger] sum_phi@[i] <= #[trigger] sum_phi@[j]
            &&& forall|i: int, j: int|
                0 <= i <= j < phi@.len() ==> #[trigger] sum_k_phi@[i] <= #[trigger] sum_k_phi@[j]
        },
{
    let len: usize = phi.len();
    let ghost last: nat = (len - 1) as nat;
    let mut sum_phi: Vec<u128> = Vec::with_capacity(len);
    let mut sum_k_phi: Vec<u128> = Vec::with_capacity(len);
    sum_phi.push(0);
    sum_k_phi.push(0);
    let mut i: usize = 1;
    while i < len
        invariant
            1 <= i <= len,
            len == phi@.len(),
            last == len - 1,
            sum_phi@.len() == i,
            sum_k_phi@.len() == i,
            forall|k: int| 0 <= k < i ==> #[trigger] sum_phi@[k] == prefix_sum(phi@, k as nat),
            forall|k: int|
                0 <= k < i ==> #[trigger] sum_k_phi@[k] == weighted_prefix_sum(phi@, k as nat),
        decreases len - i,
    {
        proof {
            lemma_prefix_sums_monotone(phi@, i as nat, last);
            lemma_prefix_sum_below_weighted(phi@, i as nat);
            assert(i * (phi@[i as int] as nat) >= 0) by (nonlinear_arith);
        }
        let weighted: u128 = match (i as u128).checked_mul(phi[i]) {
            Some(w) => w,
            None => {
                return Err(ComputeError::Overflow);
            },
        };
        let next_k_phi: u128 = match sum_k_phi[i - 1].checked_add(weighted) {
            Some(w) => w,
            None => {
                return Err(ComputeError::Overflow);
            },
        };
        let next_phi: u128 = sum_phi[i - 1] + phi[i];
        sum_phi.push(next_phi);
        sum_k_phi.push(next_k_phi);
        i += 1;
    }
    proof {
        assert(sum_k_phi@[len - 1] == weighted_prefix_sum(phi@, last));
        assert forall|a: int, b: int| 0 <= a <= b < len implies #[trigger] sum_phi@[a]
            <= #[trigger] sum_phi@[b] by {
            lemma_prefix_sums_monotone(phi@, a as nat, b as nat);
        }
        assert forall|a: int, b: int| 0 <= a <= b < len implies #[trigger] sum_k_phi@[a]
            <= #[trigger] sum_k_phi@[b] by {
            lemma_prefix_sums_monotone(phi@, a as nat, b as nat);
        }
    }
    Ok((sum_phi, sum_k_phi))
}

} // verus!
