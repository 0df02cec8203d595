use triple_lcm_sum::error::ComputeError;
use triple_lcm_sum::prefix::sums;
use triple_lcm_sum::totient::totient_sieve;

fn coprime_count(k: u128) -> u128 {
    (1..=k).filter(|&j| num_integer::gcd(j, k) == 1).count() as u128
}

#[test]
fn sieve_of_zero_is_a_single_zero() {
    assert_eq!(totient_sieve(0), vec![0]);
}

#[test]
fn sieve_of_one() {
    assert_eq!(totient_sieve(1), vec![0, 1]);
}

#[test]
fn sieve_first_entries() {
    assert_eq!(totient_sieve(12), vec![0, 1, 1, 2, 2, 4, 2, 6, 4, 6, 4, 10, 4]);
}

#[test]
fn sieve_counts_the_coprime_numbers() {
    let phi = totient_sieve(300);
    assert_eq!(phi.len(), 301);
    for k in 1..=300u128 {
        assert_eq!(phi[k as usize], coprime_count(k), "k = {}", k);
    }
}

#[test]
fn sieve_entries_lie_between_one_and_the_index() {
    let phi = totient_sieve(2000);
    assert_eq!(phi[0], 0);
    for k in 1..=2000usize {
        assert!(1 <= phi[k] && phi[k] <= k as u128);
    }
}

#[test]
fn sieve_of_a_prime_is_one_less() {
    let phi = totient_sieve(1000);
    for p in [2usize, 3, 5, 7, 11, 13, 97, 101, 499, 997] {
        assert_eq!(phi[p], p as u128 - 1);
    }
    assert_eq!(phi[999], 648);
    assert_eq!(phi[1000], 400);
}

#[test]
fn sums_of_a_small_table() {
    let phi = totient_sieve(6);
    let (plain, weighted) = sums(&phi).unwrap();
    assert_eq!(plain, vec![0, 1, 2, 4, 6, 10, 12]);
    assert_eq!(weighted, vec![0, 1, 3, 9, 17, 37, 49]);
}

#[test]
fn sums_of_a_single_entry() {
    let (plain, weighted) = sums(&[7]).unwrap();
    assert_eq!(plain, vec![0]);
    assert_eq!(weighted, vec![0]);
}

#[test]
fn sums_do_not_read_the_first_entry() {
    let (plain, weighted) = sums(&[u128::MAX, 3, 0, 5]).unwrap();
    assert_eq!(plain, vec![0, 3, 3, 8]);
    assert_eq!(weighted, vec![0, 3, 3, 18]);
}

#[test]
fn sums_never_decrease() {
    let phi = totient_sieve(500);
    let (plain, weighted) = sums(&phi).unwrap();
    assert_eq!(plain[0], 0);
    assert_eq!(weighted[0], 0);
    for i in 1..=500usize {
        assert!(plain[i - 1] < plain[i]);
        assert!(weighted[i - 1] < weighted[i]);
        assert_eq!(plain[i] - plain[i - 1], phi[i]);
        assert_eq!(weighted[i] - weighted[i - 1], i as u128 * phi[i]);
    }
}

#[test]
fn sums_report_overflow() {
    assert_eq!(sums(&[0, u128::MAX, 1]), Err(ComputeError::Overflow));
    assert_eq!(sums(&[0, 0, u128::MAX]), Err(ComputeError::Overflow));
    assert_eq!(
        sums(&[0, u128::MAX, 0]),
        Ok((vec![0, u128::MAX, u128::MAX], vec![0, u128::MAX, u128::MAX]))
    );
}
