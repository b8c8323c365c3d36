use divisors::{approximated_sqrt, get_divisors};

fn brute_force(n: u64) -> Vec<u64> {
    let mut v = Vec::new();
    let mut d: u64 = 2;
    while d < n {
        if n % d == 0 {
            v.push(d);
        }
        d += 1;
    }
    v
}

fn textbook(n: u64) -> Vec<u64> {
    let mut v = Vec::new();
    let mut i: u64 = 2;
    while i * i <= n {
        if n % i == 0 {
            v.push(i);
            if n / i != i {
                v.push(n / i);
            }
        }
        i += 1;
    }
    v.sort();
    v
}

#[test]
fn matches_brute_force_up_to_3000() {
    for n in 1u32..3000 {
        let got: Vec<u64> = get_divisors(n).into_iter().map(|d| d as u64).collect();
        assert_eq!(got, brute_force(n as u64), "n = {}", n);
    }
}

#[test]
fn every_u8_value() {
    for n in 0u8..=255 {
        let got: Vec<u64> = get_divisors(n).into_iter().map(|d| d as u64).collect();
        assert_eq!(got, brute_force(n as u64), "n = {}", n);
    }
}

#[test]
fn u16_values_match_brute_force() {
    for n in (1u16..=u16::MAX).step_by(97) {
        let got: Vec<u64> = get_divisors(n).into_iter().map(|d| d as u64).collect();
        assert_eq!(got, brute_force(n as u64), "n = {}", n);
    }
    let got: Vec<u64> = get_divisors(u16::MAX).into_iter().map(|d| d as u64).collect();
    assert_eq!(got, vec![3, 5, 15, 17, 51, 85, 255, 257, 771, 1285, 3855, 4369, 13107, 21845]);
}

#[test]
fn highly_composite_numbers() {
    assert_eq!(get_divisors(12u32), vec![2, 3, 4, 6]);
    assert_eq!(get_divisors(60u32), vec![2, 3, 4, 5, 6, 10, 12, 15, 20, 30]);
    assert_eq!(get_divisors(60u8), vec![2, 3, 4, 5, 6, 10, 12, 15, 20, 30]);
    assert_eq!(get_divisors(6u64), vec![2, 3]);
    assert_eq!(get_divisors(720720u64).len(), 238);
}

#[test]
fn one_and_primes_have_none() {
    assert!(get_divisors(1u32).is_empty());
    for p in [2u32, 3, 5, 7, 11, 13, 97, 65537, 4294967291] {
        assert!(get_divisors(p).is_empty(), "p = {}", p);
    }
    assert!(get_divisors(251u8).is_empty());
    assert!(get_divisors(18446744073709551557u64).is_empty());
}

#[test]
fn zero_has_none() {
    assert!(get_divisors(0u8).is_empty());
    assert!(get_divisors(0u32).is_empty());
    assert!(get_divisors(0u128).is_empty());
    assert!(get_divisors(0usize).is_empty());
}

#[test]
fn powers_of_two() {
    for k in 1u32..32 {
        let expected: Vec<u32> = (1..k).map(|i| 1u32 << i).collect();
        assert_eq!(get_divisors(1u32 << k), expected, "k = {}", k);
    }
    let expected: Vec<u128> = (1..127).map(|i| 1u128 << i).collect();
    assert_eq!(get_divisors(1u128 << 127), expected);
    assert_eq!(get_divisors(128u8), vec![2, 4, 8, 16, 32, 64]);
    assert_eq!(get_divisors(2u16), Vec::<u16>::new());
}

#[test]
fn repeated_calls_agree() {
    for n in [0u64, 1, 2, 36, 1001, 12345678956, 93291493211, 11111111111] {
        assert_eq!(get_divisors(n), get_divisors(n));
    }
}

#[test]
fn large_values_match_textbook() {
    for n in [12345678956u64, 93291493211, 11111111111, 193291493211, 999999000001] {
        assert_eq!(get_divisors(n), textbook(n), "n = {}", n);
    }
    let got = get_divisors(934832147123321u128);
    let expected: Vec<u128> = textbook(934832147123321).into_iter().map(|d| d as u128).collect();
    assert_eq!(got, expected);
    let got = get_divisors(u32::MAX);
    let expected: Vec<u32> = textbook(u32::MAX as u64).into_iter().map(|d| d as u32).collect();
    assert_eq!(got, expected);
}

#[test]
fn usize_values() {
    assert_eq!(get_divisors(100usize), vec![2, 4, 5, 10, 20, 25, 50]);
    assert_eq!(get_divisors(49usize), vec![7]);
}

#[test]
fn sqrt_examples() {
    assert_eq!(approximated_sqrt(63u32), 8);
    assert_eq!(approximated_sqrt(64u32), 16);
    assert_eq!(approximated_sqrt(0u32), 2);
    assert_eq!(approximated_sqrt(1u32), 2);
    assert_eq!(approximated_sqrt(4u64), 4);
    assert_eq!(approximated_sqrt(255u8), 16);
    assert_eq!(approximated_sqrt(u128::MAX), 1u128 << 64);
    assert_eq!(approximated_sqrt(u16::MAX), 256);
}

#[test]
fn sqrt_bound_is_power_of_two_above_root() {
    let mut n: u64 = 0;
    while n < 1_000_000 {
        let r = approximated_sqrt(n);
        assert!(r.is_power_of_two(), "n = {}", n);
        assert!(r * r > n, "n = {}", n);
        n += 7;
    }
    for n in [u64::MAX, u64::MAX / 3, 1u64 << 62, (1u64 << 62) - 1] {
        let r = approximated_sqrt(n) as u128;
        assert!(r * r > n as u128, "n = {}", n);
    }
}
