//! Geometry, sight and connectivity questions a board answers.

use spacewalk::{Adjacency, Dir8, FullGrid, Grid, Hex, Idx, Metric, Movement, Sight, Sq};

#[test]
fn a_ray_stops_at_the_edge() {
    let g = FullGrid::square(8, 8, Adjacency::Eight);
    let corner = g.at(Sq::new(0, 0));
    assert_eq!(g.ray(corner, Dir8::E).len(), 7);
    assert_eq!(g.ray(corner, Dir8::W).len(), 0);
}

#[test]
fn a_ray_stops_at_a_hole_but_an_offset_leaps_it() {
    let g = FullGrid::square(5, 1, Adjacency::Four).filtered(|c| c.x != 2);
    let start = g.at(Sq::new(0, 0));

    assert_eq!(g.ray(start, Dir8::E).len(), 1);
    assert_eq!(g.offset(start, Sq::new(3, 0)), g.index_of(Sq::new(3, 0)));
}

#[test]
fn within_measures_coordinates_so_a_hole_does_not_shorten_it() {
    let g = FullGrid::hexagon(2).filtered(|c| c != Hex::new(1, 0));
    let centre = g.at(Hex::new(0, 0));

    let ring2 = g.ring(centre, 2);
    assert!(ring2.contains(Hex::new(2, 0)));
    assert!(!ring2.contains(Hex::new(0, 0)));
}

#[test]
fn within_zero_includes_the_origin_and_within_one_does_not() {
    let g = FullGrid::square(5, 5, Adjacency::Four);
    let mid = g.at(Sq::new(2, 2));

    assert!(g.within(mid, 0, 1).contains(Sq::new(2, 2)));
    assert!(!g.within(mid, 1, 1).contains(Sq::new(2, 2)));
    assert_eq!(g.within(mid, 1, 1).len(), 4);
}

#[test]
fn a_run_walks_both_ways_and_reads_along_the_direction_it_was_asked_for() {
    let g = FullGrid::square(7, 1, Adjacency::Four);
    let at = |x| g.at(Sq::new(x, 0));
    let wall = |i| (1..=5).contains(&g.coord(i).x);

    let east = g.run(at(3), Dir8::E, wall);
    assert_eq!(east, vec![at(1), at(2), at(3), at(4), at(5)]);

    let west: Vec<_> = g.run(at(3), Dir8::W, wall).into_iter().rev().collect();
    assert_eq!(west, east, "the same line, read the other way");
}

#[test]
fn a_run_always_holds_its_anchor_and_never_asks_about_it() {
    let g = FullGrid::square(5, 1, Adjacency::Four);
    let mid = g.at(Sq::new(2, 0));
    assert_eq!(g.run(mid, Dir8::E, |_| false), vec![mid]);
}

/// A column of one-way ledges: every cell may drop south, none may climb north.
fn ledges(cells: Vec<Sq>) -> FullGrid<Sq> {
    FullGrid::new(cells, &[Dir8::S], Metric::MANHATTAN)
}

#[test]
fn a_run_reaches_back_up_a_one_way_ledge() {
    let g = ledges((0..4).map(|y| Sq::new(0, y)).collect());
    let mid = g.at(Sq::new(0, 2));
    assert_eq!(g.run(mid, Dir8::S, |_| true).len(), 4);
}

#[test]
fn a_wall_across_a_room_splits_it_into_two_components() {
    let g = FullGrid::square(5, 3, Adjacency::Four);
    let open = |i| g.coord(i).x != 2;

    let west = g.component(g.at(Sq::new(0, 0)), open);
    let east = g.component(g.at(Sq::new(4, 0)), open);

    assert_eq!(west.len(), 6);
    assert_eq!(east.len(), 6);
    assert!(west.cells().iter().all(|&c| !east.contains(c)), "disjoint");
    assert!(!g.is_connected(open));

    let door = |i| g.coord(i) != Sq::new(2, 0) && g.coord(i) != Sq::new(2, 2);
    assert!(g.is_connected(door));
}

#[test]
fn a_component_excludes_a_start_that_is_itself_impassable() {
    let g = FullGrid::square(3, 3, Adjacency::Four);
    let wall = g.at(Sq::new(1, 1));
    assert!(g.component(wall, |i| i != wall).is_empty());
}

#[test]
fn a_component_follows_forward_edges_only() {
    let g = ledges((0..4).map(|y| Sq::new(0, y)).collect());
    let top = g.at(Sq::new(0, 0));
    let bottom = g.at(Sq::new(0, 3));

    assert_eq!(g.component(top, |_| true).len(), 4);
    assert_eq!(g.component(bottom, |_| true).len(), 1);
}

#[test]
fn is_connected_asks_from_the_lowest_index_and_the_answer_can_turn_on_it() {
    assert!(
        ledges((0..4).map(|y| Sq::new(0, y)).collect()).is_connected(|_| true),
        "index 0 is the top of the drop, and everything is below it"
    );
    assert!(
        !ledges((0..4).rev().map(|y| Sq::new(0, y)).collect()).is_connected(|_| true),
        "index 0 is the bottom, and nothing can be reached from there"
    );
}

#[test]
fn a_board_with_nothing_passable_is_connected() {
    let g = FullGrid::square(3, 3, Adjacency::Four);
    assert!(g.is_connected(|_| false));
}

#[test]
fn an_eight_way_grid_gives_an_archer_a_square_and_a_four_way_grid_a_diamond() {
    let mid = Sq::new(3, 3);

    let eight = FullGrid::square(7, 7, Adjacency::Eight);
    let i = eight.at(mid);
    assert_eq!(eight.within(i, 1, 2).len(), 24, "a 5x5 square, less the centre");

    let four = FullGrid::square(7, 7, Adjacency::Four);
    let j = four.at(mid);
    assert_eq!(four.within(j, 1, 2).len(), 12, "a diamond");
}

#[test]
fn coordinate_facing_helpers_cover_the_common_queries() {
    let g = FullGrid::square(5, 5, Adjacency::Four);
    let movement = Movement::uniform(&g, 10);

    assert_eq!(g.step_from(Sq::new(1, 1), Dir8::E), Some(Sq::new(2, 1)));
    assert_eq!(g.step_from(Sq::new(-1, 1), Dir8::E), None);

    let path = g.path_between(Sq::new(0, 0), Sq::new(2, 0), &movement).unwrap();
    assert_eq!(g.coords_of(path.steps()), vec![Sq::new(0, 0), Sq::new(1, 0), Sq::new(2, 0)]);

    assert_eq!(g.reachable_from(Sq::new(2, 2), 10, &movement).unwrap().len(), 5);
    assert_eq!(g.reaching_cell(Sq::new(2, 2), 0, &movement).unwrap().len(), 1);
    assert!(g.within_cell(Sq::new(2, 2), 0, 1).unwrap().contains(Sq::new(2, 2)));
    assert!(g.component_from(Sq::new(2, 2), |_| true).unwrap().contains(Sq::new(2, 2)));
    assert!(g.visible_from_cell(Sq::new(2, 2), 1, |_| false).unwrap().contains(Sq::new(2, 2)));
    assert!(g.visible_from_cell(Sq::new(9, 9), 1, |_| false).is_none());
    assert!(g.path_between(Sq::new(9, 9), Sq::new(2, 0), &movement).is_none());
}

#[test]
fn a_target_blind_gate_answers_exactly_as_the_plain_predicate_does() {
    let g = FullGrid::square(7, 7, Adjacency::Eight);
    let wall = |i: Idx| g.coord(i).x == 3 && g.coord(i).y != 3;

    for a in g.indices() {
        for b in g.indices() {
            assert_eq!(g.los(a, b, wall), g.los_by(a, b, |s| wall(s.at)), "{:?} -> {:?}", g.coord(a), g.coord(b));
        }
    }
}

#[test]
fn a_gate_that_reads_the_target_says_what_no_bare_predicate_could() {
    let g = FullGrid::square(7, 1, Adjacency::Eight);
    let window = g.at(Sq::new(3, 0));
    let west = g.at(Sq::new(0, 0));
    let east = g.at(Sq::new(6, 0));

    let one_way = |s: Sight| s.at == window && g.coord(s.target).x > 3;

    assert!(!g.los_by(west, east, one_way), "you cannot see in");
    assert!(g.los_by(east, west, one_way), "but you can see out");
}

#[test]
fn a_field_of_view_gate_is_told_which_cell_is_being_looked_at() {
    let g = FullGrid::square(5, 5, Adjacency::Eight);
    let eye = g.at(Sq::new(0, 2));
    let far = g.at(Sq::new(4, 2));

    let seen = g.visible_from_by(eye, 4, |s| s.target == far);
    assert!(!seen.contains(Sq::new(4, 2)), "singled out by target");
    assert!(seen.contains(Sq::new(3, 2)), "its neighbour is reached through the very same cells");
}

#[test]
fn the_eye_and_the_target_are_never_themselves_tested() {
    let g = FullGrid::square(5, 1, Adjacency::Eight);
    let (a, b) = (g.at(Sq::new(0, 0)), g.at(Sq::new(4, 0)));

    assert!(g.los_by(a, b, |s| {
        assert_ne!(s.at, s.eye, "the cell you stand in");
        assert_ne!(s.at, s.target, "the wall you are looking at");
        false
    }));
}

#[test]
fn a_line_is_the_same_line_read_the_other_way() {
    let g = FullGrid::square(9, 9, Adjacency::Eight);
    for a in g.indices() {
        let b = g.at(Sq::new(8, 3));
        let mut back = g.line(b, a);
        back.reverse();
        assert_eq!(g.line(a, b), back);
        let line = g.line(a, b);
        assert_eq!(line.first(), Some(&a));
        assert_eq!(line.last(), Some(&b));
    }
}

#[test]
fn a_straight_line_visits_each_cell_between_its_ends() {
    let g = FullGrid::square(6, 1, Adjacency::Four);
    let line = g.line(g.at(Sq::new(0, 0)), g.at(Sq::new(5, 0)));
    assert_eq!(g.coords_of(&line), (0..6).map(|x| Sq::new(x, 0)).collect::<Vec<_>>());
}

#[test]
fn a_long_line_over_a_sparse_board_is_found_by_asking_each_cell() {
    // Two cells a thousand apart with one cell between: the scan, not a thousand samples.
    let g = FullGrid::new(vec![Sq::new(0, 0), Sq::new(500, 0), Sq::new(1000, 0), Sq::new(3, 7)], &Dir8::ORTHO, Metric::MANHATTAN);
    let (a, b) = (g.at(Sq::new(0, 0)), g.at(Sq::new(1000, 0)));
    assert_eq!(g.coords_of(&g.line(a, b)), vec![Sq::new(0, 0), Sq::new(500, 0), Sq::new(1000, 0)]);
    assert_eq!(g.coords_of(&g.line(b, a)), vec![Sq::new(1000, 0), Sq::new(500, 0), Sq::new(0, 0)]);
    assert!(!g.los(a, b, |i| g.coord(i) == Sq::new(500, 0)));
    assert!(g.los(a, b, |i| g.coord(i) == Sq::new(3, 7)));
}

#[test]
fn connected_means_the_first_component_holds_every_passable_cell() {
    let g = FullGrid::square(5, 3, Adjacency::Four);
    let wall = |i| g.coord(i).x != 2;
    let door = |i| g.coord(i) != Sq::new(2, 0) && g.coord(i) != Sq::new(2, 2);
    for (open, connected) in [(&wall as &dyn Fn(Idx) -> bool, false), (&door as &dyn Fn(Idx) -> bool, true)] {
        let passable = g.indices().into_iter().filter(|&i| open(i)).count();
        let first = g.indices().into_iter().find(|&i| open(i)).unwrap();
        assert_eq!(g.is_connected(open), connected);
        assert_eq!(g.component(first, open).len() == passable, connected);
    }
}
