use astar_grid::distance::{euclidean_distance, integer_sqrt};

#[test]
fn integer_sqrt_of_small_numbers() {
    assert_eq!(integer_sqrt(0), 0);
    assert_eq!(integer_sqrt(1), 1);
    assert_eq!(integer_sqrt(2), 1);
    assert_eq!(integer_sqrt(3), 1);
    assert_eq!(integer_sqrt(4), 2);
    assert_eq!(integer_sqrt(8), 2);
    assert_eq!(integer_sqrt(9), 3);
    assert_eq!(integer_sqrt(15), 3);
    assert_eq!(integer_sqrt(16), 4);
    assert_eq!(integer_sqrt(17), 4);
    assert_eq!(integer_sqrt(99), 9);
    assert_eq!(integer_sqrt(100), 10);
}

#[test]
fn integer_sqrt_is_the_truncated_root_up_to_ten_thousand() {
    for v in 0usize..10_000 {
        let r = integer_sqrt(v);
        assert!(r * r <= v);
        assert!(v < (r + 1) * (r + 1));
    }
}

#[test]
fn integer_sqrt_of_large_numbers() {
    assert_eq!(integer_sqrt(1_000_000), 1000);
    assert_eq!(integer_sqrt(999_999), 999);
    assert_eq!(integer_sqrt(u32::MAX as usize), 65_535);
    let r = integer_sqrt(usize::MAX) as u128;
    assert!(r * r <= usize::MAX as u128);
    assert!((usize::MAX as u128) < (r + 1) * (r + 1));
}

#[test]
fn distance_is_truncated_not_rounded() {
    // sqrt(2) = 1.41.., sqrt(8) = 2.82.., sqrt(18) = 4.24..
    assert_eq!(euclidean_distance(0, 1, 0, 1), 1);
    assert_eq!(euclidean_distance(0, 2, 0, 2), 2);
    assert_eq!(euclidean_distance(0, 3, 0, 3), 4);
    // sqrt(5) = 2.23.., sqrt(13) = 3.60..
    assert_eq!(euclidean_distance(0, 1, 0, 2), 2);
    assert_eq!(euclidean_distance(0, 3, 0, 2), 3);
}

#[test]
fn distance_along_a_line_is_the_gap() {
    assert_eq!(euclidean_distance(2, 7, 4, 4), 5);
    assert_eq!(euclidean_distance(4, 4, 9, 1), 8);
    assert_eq!(euclidean_distance(3, 3, 5, 5), 0);
}

#[test]
fn distance_does_not_depend_on_direction() {
    assert_eq!(euclidean_distance(0, 3, 0, 4), 5);
    assert_eq!(euclidean_distance(3, 0, 4, 0), 5);
    assert_eq!(euclidean_distance(3, 0, 0, 4), 5);
    assert_eq!(euclidean_distance(0, 3, 4, 0), 5);
}

#[test]
fn heuristic_never_exceeds_the_length_of_a_route() {
    // A route of k straight and m diagonal moves has length k + m * sqrt(2).
    // The shortest route between two cells takes min(dx, dy) diagonal moves
    // and |dx - dy| straight ones.
    for dx in 0usize..30 {
        for dy in 0usize..30 {
            let h = euclidean_distance(0, dx, 0, dy);
            let m = dx.min(dy);
            let k = dx.max(dy) - m;
            assert!(h <= k || (h - k) * (h - k) <= 2 * m * m);
        }
    }
}

#[test]
fn heuristic_exceeds_the_moves_between_far_diagonal_cells() {
    // Three diagonal moves lead from (0, 0) to (3, 3); the heuristic is 4.
    assert_eq!(euclidean_distance(0, 3, 0, 3), 4);
    // Where the smaller gap, squared, is at most twice the larger, the
    // heuristic stays within the moves.
    for long in 0usize..40 {
        for short in 0..=long {
            let h = euclidean_distance(0, long, 0, short);
            if short * short <= 2 * long {
                assert!(h <= long);
            } else {
                assert!(h > long);
            }
        }
    }
}
