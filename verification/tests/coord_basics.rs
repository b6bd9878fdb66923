//! Coordinates, directions and distances.

use spacewalk::{Coord, Dir6, Dir8, Hex, Metric, Sq};

#[test]
fn manhattan_makes_a_diagonal_neighbour_two_away() {
    assert_eq!(Sq::new(0, 0).manhattan(Sq::new(1, 1)), 2);
    assert_eq!(Sq::new(0, 0).manhattan(Sq::new(3, 4)), 7);
}

#[test]
fn chebyshev_makes_a_diagonal_neighbour_one_away() {
    assert_eq!(Sq::new(0, 0).chebyshev(Sq::new(1, 1)), 1);
    assert_eq!(Sq::new(0, 0).chebyshev(Sq::new(3, 4)), 4);
}

#[test]
fn every_square_step_is_one_chebyshev_away() {
    for d in Dir8::ALL {
        assert_eq!(Sq::default().chebyshev(Sq::default().step(d)), 1, "{d:?}");
    }
}

#[test]
fn every_hex_step_is_one_away() {
    for d in Dir6::ALL {
        assert_eq!(Hex::default().distance(Hex::default().step(d)), 1, "{d:?}");
    }
}

#[test]
fn hex_cube_axes_sum_to_zero() {
    let h = Hex::new(3, -5);
    assert_eq!(h.q + h.r + h.s(), 0);
}

#[test]
fn hex_distance_is_symmetric_and_additive_along_a_line() {
    let a = Hex::new(0, 0);
    let b = a.step(Dir6::E).step(Dir6::E).step(Dir6::E);
    assert_eq!(a.distance(b), 3);
    assert_eq!(b.distance(a), 3);
}

#[test]
fn opposites_round_trip() {
    for d in Dir8::ALL {
        assert_eq!(Sq::default().step(d).step(d.opposite()), Sq::default());
    }
    for d in Dir6::ALL {
        assert_eq!(Hex::default().step(d).step(d.opposite()), Hex::default());
    }
}

#[test]
fn flanks_are_the_two_orthogonals_a_diagonal_squeezes_between() {
    assert_eq!(Dir8::Ne.flanks(), Some((Dir8::N, Dir8::E)));
    assert_eq!(Dir8::N.flanks(), None);

    for d in Dir8::DIAG {
        let (a, b) = d.flanks().unwrap();
        let corner = Sq::default().step(d);
        assert_eq!(corner.manhattan(Sq::default().step(a)), 1);
        assert_eq!(corner.manhattan(Sq::default().step(b)), 1);
    }
}

#[test]
fn coords_are_vectors() {
    assert_eq!(Sq::new(1, 2) + Sq::new(3, 4), Sq::new(4, 6));
    assert_eq!(Sq::new(1, 2) - Sq::new(3, 4), Sq::new(-2, -2));
    assert_eq!(Hex::new(1, 2) + Hex::new(3, 4), Hex::new(4, 6));
}

#[test]
fn a_step_far_out_saturates_instead_of_wrapping() {
    let edge = Sq::new(i32::MAX, i32::MIN);
    assert_eq!(edge.step(Dir8::Ne), Sq::new(i32::MAX, i32::MIN));
    assert_eq!(Sq::new(i32::MAX, 0).manhattan(Sq::new(i32::MIN, 0)), u32::MAX);
}

#[test]
fn coordinates_convert_from_pairs() {
    assert_eq!(Sq::from((2, -3)), Sq::new(2, -3));
    assert_eq!(Hex::from((2, -3)), Hex::new(2, -3));
}

#[test]
fn an_offset_table_lists_each_offset_once_row_by_row() {
    let d: Vec<(Sq, u32)> = Metric::MANHATTAN.deltas(1);
    assert_eq!(
        d,
        vec![
            (Sq::new(0, -1), 1),
            (Sq::new(-1, 0), 1),
            (Sq::new(0, 0), 0),
            (Sq::new(1, 0), 1),
            (Sq::new(0, 1), 1),
        ]
    );
    for r in 0..6u32 {
        assert_eq!(Metric::MANHATTAN.deltas::<Sq>(r).len() as u64, Metric::MANHATTAN.count(r));
        assert_eq!(Metric::CHEBYSHEV.deltas::<Sq>(r).len() as u64, Metric::CHEBYSHEV.count(r));
        assert_eq!(Metric::HEX.deltas::<Hex>(r).len() as u64, Metric::HEX.count(r));
    }
}

#[test]
fn a_hex_offset_table_runs_along_q_then_r() {
    let d: Vec<(Hex, u32)> = Metric::HEX.deltas(1);
    assert_eq!(
        d,
        vec![
            (Hex::new(-1, 0), 1),
            (Hex::new(-1, 1), 1),
            (Hex::new(0, -1), 1),
            (Hex::new(0, 0), 0),
            (Hex::new(0, 1), 1),
            (Hex::new(1, -1), 1),
            (Hex::new(1, 0), 1),
        ]
    );
}

#[test]
fn a_scanning_metric_has_no_offset_table() {
    assert!(Metric::scanning().deltas::<Sq>(3).is_empty());
    assert_eq!(Metric::scanning().count(3), u64::MAX);
}
