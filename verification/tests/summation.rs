use num_integer::gcd;
use num_integer::lcm;
use triple_lcm_sum::error::ComputeError;
use triple_lcm_sum::prefix::sums;
use triple_lcm_sum::summation::contribution;
use triple_lcm_sum::summation::run_calculation;
use triple_lcm_sum::summation::MAX_N;
use triple_lcm_sum::totient::totient_sieve;

// Exhaustive enumeration of the triples, quadratic in n.
fn reference(n: u128) -> u128 {
    let mut sum = 0;

    for a in 1..=n {
        let lim = n - a;
        for b in 1..=lim {
            let c = n - a - b;
            if c > 0 {
                let g = gcd(a, b);
                let l = lcm(c, g);
                sum += l;
            }
        }
    }

    sum
}

#[test]
fn test_prefix_sums() {
    let test_values = vec![0, 1, 2, 10, 100, 111, 9, 219];

    for n in test_values {
        println!("Input value:\t\t{}", n);
        let ref_val = reference(n);
        println!("Reference Value:\t{}", ref_val);
        let val = run_calculation(n).unwrap();
        println!("Output value:\t\t{}", val);

        assert_eq!(val, ref_val);
    }
}

#[test]
fn matches_enumeration_up_to_250() {
    for n in 0..=250u128 {
        assert_eq!(run_calculation(n), Ok(reference(n)), "n = {}", n);
    }
}

#[test]
fn sizes_below_three_give_zero() {
    assert_eq!(run_calculation(0), Ok(0));
    assert_eq!(run_calculation(1), Ok(0));
    assert_eq!(run_calculation(2), Ok(0));
}

#[test]
fn known_values() {
    assert_eq!(run_calculation(3), Ok(1));
    assert_eq!(run_calculation(4), Ok(4));
    assert_eq!(run_calculation(5), Ok(11));
    assert_eq!(run_calculation(9), Ok(100));
    assert_eq!(run_calculation(10), Ok(134));
    assert_eq!(run_calculation(100), Ok(265164));
    assert_eq!(run_calculation(111), Ok(458690));
    assert_eq!(run_calculation(219), Ok(4090795));
}

#[test]
fn contributions_are_never_negative() {
    for n in 3..=150u128 {
        let phi = totient_sieve(n);
        let (plain, weighted) = sums(&phi).unwrap();
        let mut total = 0;
        for g in 1..=(n - 1) / 2 {
            let m = ((n - 1) / g) as usize;
            let term = contribution(
                n,
                g,
                plain[m] - plain[1],
                weighted[m] - weighted[1],
                g / gcd(g, n),
            );
            assert!(term.is_ok(), "n = {}, g = {}", n, g);
            total += term.unwrap();
        }
        assert_eq!(run_calculation(n), Ok(total));
    }
}

#[test]
fn a_million_is_within_range() {
    let val = run_calculation(1_000_000);
    assert!(val.is_ok());
    assert!(val.unwrap() > 1_000_000);
}

#[test]
fn size_above_the_maximum_is_refused() {
    assert_eq!(MAX_N, 4_294_967_294);
    assert_eq!(run_calculation(MAX_N + 1), Err(ComputeError::TooLarge));
    assert_eq!(run_calculation(u128::MAX), Err(ComputeError::TooLarge));
}

#[test]
fn contribution_is_the_weighted_difference() {
    // n = 10, g = 2: m = 4, the totients of 2, 3, 4 are 1, 2, 2.
    // sum_phi = 5, sum_k_phi = 2 + 6 + 8 = 16, factor = 2 / gcd(2, 10) = 1.
    assert_eq!(contribution(10, 2, 5, 16, 1), Ok(18));
    assert_eq!(contribution(10, 2, 5, 16, 3), Ok(54));
    assert_eq!(contribution(7, 3, 0, 0, 5), Ok(0));
    assert_eq!(contribution(4, 2, 6, 12, 9), Ok(0));
}

#[test]
fn contribution_reports_a_negative_term() {
    assert_eq!(contribution(10, 2, 5, 26, 1), Err(ComputeError::NegativeTerm));
    assert_eq!(contribution(0, 1, 5, 1, 0), Err(ComputeError::NegativeTerm));
}

#[test]
fn contribution_reports_overflow() {
    assert_eq!(contribution(u128::MAX, 1, 2, 0, 1), Err(ComputeError::Overflow));
    assert_eq!(contribution(1, u128::MAX, 1, 2, 1), Err(ComputeError::Overflow));
    assert_eq!(contribution(u128::MAX, 1, 1, 0, 2), Err(ComputeError::Overflow));
    assert_eq!(contribution(u128::MAX, 1, 1, 0, 1), Ok(u128::MAX));
}

#[test]
fn factor_uses_the_common_divisor() {
    // For n = 12 some g share a divisor with n: g / gcd(g, n) is not g there.
    assert_eq!(run_calculation(12), Ok(reference(12)));
    assert_eq!(gcd(4u128, 12u128), 4);
    assert_eq!(run_calculation(12), Ok(228));
}
