use primegrid::composer::{define_functions, get_function, is_valid_number, Predicate};

#[test]
fn test_get_function() {
    assert_eq!(get_function("unknown"), None);
}

#[test]
fn test_define_functions() {
    assert_eq!(define_functions("primes").0.len(), 1);
    assert_eq!(define_functions("unknown").0.len(), 0);
    assert_eq!(define_functions("primes+semiprimes").0.len(), 2);
    assert_eq!(define_functions("primes+unknown").0.len(), 1);
    let (functions, contains_x) = define_functions("primesXpernicious");
    assert_eq!(functions.len(), 2);
    assert!(contains_x);
}

#[test]
fn test_valid_number() {
    assert!(define_functions("").0.is_empty());

    let (functions, switch) = define_functions("primes");
    assert_eq!(is_valid_number(2, &functions, switch), true);
    assert_eq!(is_valid_number(4, &functions, switch), false);

    let (functions, switch) = define_functions("semiprimes");
    assert_eq!(is_valid_number(4, &functions, switch), true);

    let (functions, switch) = define_functions("primes+semiprimes");
    assert_eq!(is_valid_number(4, &functions, switch), true);
}

#[test]
fn resolution_modes_test() {
    let (preds, all_mode) = define_functions("primes");
    assert_eq!(preds, vec![Predicate::Primes]);
    assert!(!all_mode);

    let (preds, all_mode) = define_functions("primes+unknown");
    assert_eq!(preds, vec![Predicate::Primes]);
    assert!(!all_mode);

    let (preds, all_mode) = define_functions("primesXpernicious");
    assert_eq!(preds, vec![Predicate::Primes, Predicate::Pernicious]);
    assert!(all_mode);
}

#[test]
fn every_registry_name_resolves_test() {
    assert_eq!(get_function("primes"), Some(Predicate::Primes));
    assert_eq!(get_function("pythagoreans"), Some(Predicate::Pythagoreans));
    assert_eq!(get_function("semiprimes"), Some(Predicate::Semiprimes));
    assert_eq!(
        get_function("squarefree-semiprimes"),
        Some(Predicate::SquarefreeSemiprimes)
    );
    assert_eq!(get_function("pernicious"), Some(Predicate::Pernicious));
    assert_eq!(get_function("prime-powers"), Some(Predicate::PrimePowers));
    assert_eq!(get_function("fermi-dirac"), Some(Predicate::FermiDirac));
}

#[test]
fn empty_any_rejects_everything_test() {
    let (functions, switch) = define_functions("unknown+unknown");
    assert!(!switch);
    for n in 0..50 {
        assert!(!is_valid_number(n, &functions, switch));
    }
}

#[test]
fn empty_all_accepts_everything_test() {
    // The All separator with no resolvable token leaves an empty list under
    // All mode, which is vacuously satisfied by every number.
    let (functions, switch) = define_functions("X");
    assert!(switch);
    assert!(functions.is_empty());
    for n in 0..50 {
        assert!(is_valid_number(n, &functions, switch));
    }
}
