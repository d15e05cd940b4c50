use primegrid::primality::{
    is_fermi_dirac, is_pernicious, is_prime, is_prime_power, is_pythagorean_prime, is_semiprime,
    is_squarefree_semiprime, sqrt_ceil,
};

#[test]
fn primes_test() {
    let test_cases = vec![
        (0, false),
        (1, false),
        (2, true),
        (3, true),
        (4, false),
        (71, true),
        (73, true),
        (75, false),
        (101, true),
        (102, false),
        (41041, false),
        (43201, true),
    ];
    for (input, expected) in test_cases {
        assert_eq!(is_prime(input), expected);
    }
}

#[test]
fn pythagorean_primes_test() {
    let test_cases = vec![
        (0, false),
        (1, false),
        (2, false),
        (3, false),
        (4, false),
        (5, true),
        (6, false),
        (7, false),
        (11, false),
        (13, true),
        (107, false),
        (113, true),
        (593, true),
        (601, true),
    ];
    for (input, expected) in test_cases {
        assert_eq!(is_pythagorean_prime(input), expected);
    }
}

#[test]
fn sqrt_test() {
    assert_eq!(sqrt_ceil(9), 4);
    assert_eq!(sqrt_ceil(10), 4);
}

#[test]
fn semiprimes_test() {
    let test_cases = vec![
        (0, false),
        (1, false),
        (2, false),
        (3, false),
        (4, true),
        (5, false),
        (6, true),
        (7, false),
        (8, false),
        (9, true),
        (10, true),
        (14, true),
        (51, true),
        (166, true),
        (167, false),
        (168, false),
        (169, true),
    ];
    for (input, expected) in test_cases {
        assert_eq!(is_semiprime(input), expected);
    }
}

#[test]
fn squarefree_semiprimes_test() {
    let test_cases = vec![
        (0, false),
        (1, false),
        (2, false),
        (3, false),
        (4, false),
        (5, false),
        (6, true),
        (7, false),
        (10, true),
        (51, true),
        (198, false),
        (199, false),
        (200, false),
        (201, true),
        (202, true),
        (203, true),
    ];
    for (input, expected) in test_cases {
        assert_eq!(is_squarefree_semiprime(input), expected);
    }
}

#[test]
fn pernicious_test() {
    let test_cases = vec![
        (0, false),
        (1, false),
        (2, false),
        (3, true),
        (4, false),
        (5, true),
        (6, true),
        (7, true),
        (8, false),
        (9, true),
        (10, true),
        (95, false),
        (96, true),
        (98, true),
        (99, false),
    ];
    for (input, expected) in test_cases {
        assert_eq!(is_pernicious(input), expected);
    }
}

#[test]
fn power_test() {
    let test_cases = vec![
        (0, false),
        (1, true),
        (2, true),
        (3, true),
        (4, true),
        (5, true),
        (6, false),
        (7, true),
        (81, true),
        (82, false),
        (121, true),
        (125, true),
        (126, false),
        (127, true),
        (128, true),
        (129, false),
        (5329, true),
    ];
    for (input, expected) in test_cases {
        assert_eq!(is_prime_power(input), expected);
    }
}

#[test]
fn fermi_dirac_test() {
    let test_cases = vec![
        (0, false),
        (1, false),
        (2, true),
        (3, true),
        (4, true),
        (5, true),
        (6, false),
        (7, true),
        (82, false),
        (83, true),
        (121, true),
        (127, true),
        (128, false),
    ];
    for (input, expected) in test_cases {
        assert_eq!(is_fermi_dirac(input), expected);
    }
}

fn oracle_is_prime(n: usize) -> bool {
    if n < 2 {
        return false;
    }
    let mut d = 2;
    while d < n {
        if n % d == 0 {
            return false;
        }
        d += 1;
    }
    true
}

#[test]
fn prime_oracle_test() {
    for n in 0..=10_000 {
        assert_eq!(is_prime(n), oracle_is_prime(n), "disagreement at {}", n);
    }
}

#[test]
fn pythagorean_relation_test() {
    for n in 0..=2_000 {
        assert_eq!(is_pythagorean_prime(n), is_prime(n) && n % 4 == 1);
    }
}

fn oracle_prime_factor_count(mut n: usize) -> usize {
    let mut count = 0;
    let mut d = 2;
    while d <= n && n > 1 {
        while n % d == 0 {
            n /= d;
            count += 1;
        }
        d += 1;
    }
    count
}

#[test]
fn semiprime_oracle_test() {
    for n in 0..=200 {
        let expected = n >= 2 && oracle_prime_factor_count(n) == 2;
        assert_eq!(is_semiprime(n), expected, "disagreement at {}", n);
        if is_squarefree_semiprime(n) {
            assert!(is_semiprime(n));
        }
    }
    // A prime square is a semiprime but not squarefree: the subset is strict.
    assert!(is_semiprime(4) && !is_squarefree_semiprime(4));
    assert!(is_semiprime(9) && !is_squarefree_semiprime(9));
    assert!(is_semiprime(25) && !is_squarefree_semiprime(25));
    assert!(is_semiprime(49) && !is_squarefree_semiprime(49));
}

#[test]
fn sqrt_ceil_edges_test() {
    assert_eq!(sqrt_ceil(0), 1);
    assert_eq!(sqrt_ceil(1), 2);
    assert_eq!(sqrt_ceil(2), 2);
    assert_eq!(sqrt_ceil(3), 2);
    assert_eq!(sqrt_ceil(4), 3);
}
