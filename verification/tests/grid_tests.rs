use primegrid::grid::{move_around, move_in_line};

#[test]
fn coordinates_test() {
    let coordinates = move_around(2, 1);
    assert_eq!(coordinates[coordinates.len() - 1], (0, -2));
    let coordinates = move_around(2, 1000);
    assert_eq!(coordinates[coordinates.len() - 1], (-1, -2));
    let coordinates = move_in_line(2, 1);
    assert_eq!(coordinates[coordinates.len() - 1], (0, 2));
}

#[test]
fn line_filters_to_prime_indices_test() {
    // Grid side 3, indices 1..=9: the primes 2, 3, 5, 7 sit at these cells.
    assert_eq!(move_in_line(2, 1), vec![(1, 0), (2, 0), (1, 1), (0, 2)]);
}

#[test]
fn spiral_visits_expected_cells_test() {
    // Grid size 2, start 1: the spiral walks 25 cells before leaving the
    // grid; the prime indices 2, 3, 5, 7, 11, 13, 17, 19, 23 survive.
    let coordinates = move_around(2, 1);
    assert_eq!(coordinates.len(), 9);
    assert_eq!(coordinates[0], (1, 0));
    assert_eq!(coordinates[1], (1, 1));
    assert_eq!(coordinates[2], (-1, 1));
    assert_eq!(coordinates[3], (-1, -1));
    assert_eq!(coordinates[4], (2, 0));
    assert_eq!(coordinates[5], (2, 2));
    assert_eq!(coordinates[6], (-2, 2));
    assert_eq!(coordinates[7], (-2, 0));
    assert_eq!(coordinates[8], (0, -2));
}

#[test]
fn grid_determinism_test() {
    assert_eq!(move_around(3, 7), move_around(3, 7));
    assert_eq!(move_in_line(3, 7), move_in_line(3, 7));
}

#[test]
fn zero_grid_test() {
    // A single-cell grid: the walk records only the origin cell.
    assert_eq!(move_in_line(0, 2), vec![(0, 0)]);
    assert_eq!(move_around(0, 2), vec![(0, 0)]);
    assert!(move_in_line(0, 4).is_empty());
}
