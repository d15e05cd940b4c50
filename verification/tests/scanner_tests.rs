use primegrid::scanner::{compute_numbers_end, compute_numbers_limit};

#[test]
fn test_compute_numbers() {
    let result = compute_numbers_limit(1, "primes", 5);
    assert_eq!(result, vec![2, 3, 5, 7, 11]);
    let result = compute_numbers_limit(1, "primes+squarefree-semiprimes", 5);
    assert_eq!(result, vec![2, 3, 5, 6, 7]);
    let result = compute_numbers_end(10, "primes", 20);
    assert_eq!(result, vec![11, 13, 17, 19]);
    let result = compute_numbers_end(10, "primes+squarefree-semiprimes", 12);
    assert_eq!(result, vec![10, 11]);
    let result = compute_numbers_end(1, "primes+pernicious", 10);
    assert_eq!(result, vec![2, 3, 5, 6, 7, 9]);
    let result = compute_numbers_end(1, "primesXpernicious", 10);
    assert_eq!(result, vec![3, 5, 7]);
}

#[test]
fn scan_range_keeps_ascending_order_test() {
    let result = compute_numbers_end(1, "primes", 50);
    assert_eq!(result, vec![2, 3, 5, 7, 11, 13, 17, 19, 23, 29, 31, 37, 41, 43, 47]);
}

#[test]
fn scan_empty_range_test() {
    assert!(compute_numbers_end(10, "primes", 10).is_empty());
    assert!(compute_numbers_end(20, "primes", 10).is_empty());
}

#[test]
fn scan_unknown_spec_test() {
    assert!(compute_numbers_end(1, "unknown", 100).is_empty());
}

#[test]
fn scan_vacuous_all_test() {
    // An All-mode spec with no resolvable token accepts every number.
    assert_eq!(compute_numbers_end(5, "X", 8), vec![5, 6, 7]);
}

#[test]
fn scan_zero_limit_test() {
    assert!(compute_numbers_limit(1, "primes", 0).is_empty());
}

#[test]
fn scan_determinism_test() {
    let a = compute_numbers_limit(1, "pernicious", 12);
    let b = compute_numbers_limit(1, "pernicious", 12);
    assert_eq!(a, b);
    let c = compute_numbers_end(1, "prime-powers+fermi-dirac", 300);
    let d = compute_numbers_end(1, "prime-powers+fermi-dirac", 300);
    assert_eq!(c, d);
}
