//! Movement rules and the searches they drive.

use spacewalk::{Adjacency, Cost, Dir8, FullGrid, Grid, Movement, Sq, Step};

/// Open ground: every step costs 10.
fn open(g: &FullGrid<Sq>) -> Movement<impl Fn(Step<Sq>) -> Option<Cost>> {
    Movement::scan(g, |_| Some(10))
}

#[test]
fn a_path_includes_its_start_and_is_never_charged_for_it() {
    let g = FullGrid::square(5, 5, Adjacency::Four);
    let a = g.at(Sq::new(0, 0));
    let b = g.at(Sq::new(2, 0));

    let p = g.path(a, b, &open(&g)).unwrap();
    assert_eq!(p.steps().len(), 3, "start, middle, end");
    assert_eq!(p.steps()[0], a);
    assert_eq!(p.destination(), b);
    assert_eq!(p.len(), 2, "two cells moved through");
    assert_eq!(p.cost(), 20, "two steps at 10, and nothing for standing still");
}

#[test]
fn a_path_to_where_you_already_are_costs_nothing() {
    let g = FullGrid::square(3, 3, Adjacency::Four);
    let a = g.at(Sq::new(1, 1));

    let p = g.path(a, a, &open(&g)).unwrap();
    assert_eq!(p.cost(), 0);
    assert_eq!(p.steps(), vec![a]);
    assert!(p.is_empty());
}

#[test]
fn a_walled_off_cell_has_no_path_to_it() {
    let g = FullGrid::square(3, 3, Adjacency::Four);
    let target = g.at(Sq::new(2, 2));

    let walls = [Sq::new(1, 2), Sq::new(2, 1)];
    let m = Movement::scan(&g, |s| (!walls.contains(&g.coord(s.to))).then_some(10));

    assert!(g.path(g.at(Sq::new(0, 0)), target, &m).is_none());
}

#[test]
fn a_cheap_road_is_worth_a_detour() {
    let g = FullGrid::square(5, 3, Adjacency::Four);
    let m = Movement::scan(&g, |s| Some(if g.coord(s.to).y == 0 { 10 } else { 30 }));

    let a = g.at(Sq::new(0, 1));
    let b = g.at(Sq::new(4, 1));

    let p = g.path(a, b, &m).unwrap();
    assert_eq!(p.cost(), 80);
    assert!(p.steps().iter().any(|&i| g.coord(i).y == 0), "it used the road");
}

#[test]
fn min_step_is_the_cheapest_step_anywhere_and_a_road_drags_it_down() {
    let g = FullGrid::square(4, 4, Adjacency::Four);
    let m = Movement::scan(&g, |s| Some(if g.coord(s.to) == Sq::new(0, 0) { 5 } else { 10 }));
    assert_eq!(m.min_step(), 5);
}

#[test]
fn an_impassable_board_yields_a_zero_minimum_and_still_answers() {
    let g = FullGrid::square(3, 3, Adjacency::Four);
    let m = Movement::scan(&g, |_| None);

    let (from, to) = (g.at(Sq::new(0, 0)), g.at(Sq::new(2, 2)));
    assert_eq!(m.min_step(), 0, "no steps at all: promise nothing");
    assert!(g.path(from, to, &m).is_none());
    assert_eq!(g.reachable(from, 100, &m), vec![(from, 0)], "you can still stand still");
}

#[test]
fn reach_is_bounded_by_the_budget() {
    let g = FullGrid::square(9, 9, Adjacency::Four);
    let centre = g.at(Sq::new(4, 4));
    let m = open(&g);

    for n in 0..4u32 {
        let want = 2 * n * (n + 1) + 1;
        assert_eq!(g.reachable(centre, n * 10, &m).len() as u32, want, "budget {n}");
    }
}

#[test]
fn reach_comes_back_cheapest_first() {
    let g = FullGrid::square(5, 5, Adjacency::Four);
    let costs: Vec<Cost> = g.reachable(g.at(Sq::new(2, 2)), 40, &open(&g)).iter().map(|&(_, c)| c).collect();

    assert!(costs.windows(2).all(|w| w[0] <= w[1]), "{costs:?}");
    assert_eq!(costs[0], 0, "you are the first thing you can reach");
}

#[test]
fn path_toward_closes_the_distance_when_it_cannot_arrive() {
    let g = FullGrid::square(10, 1, Adjacency::Four);
    let start = g.at(Sq::new(0, 0));
    let far = g.at(Sq::new(9, 0));

    let p = g.path_toward(start, far, 20, &open(&g)).unwrap();
    assert_eq!(g.coord(p.destination()), Sq::new(2, 0), "as near as it can get");
    assert_eq!(p.cost(), 20);
}

#[test]
fn path_toward_arrives_when_the_target_is_in_reach() {
    let g = FullGrid::square(10, 1, Adjacency::Four);
    let start = g.at(Sq::new(0, 0));
    let near = g.at(Sq::new(2, 0));

    let p = g.path_toward(start, near, 100, &open(&g)).unwrap();
    assert_eq!(p.destination(), near);
}

#[test]
fn path_toward_stays_put_when_it_is_already_as_close_as_it_can_be() {
    let g = FullGrid::square(3, 1, Adjacency::Four);
    let a = g.at(Sq::new(0, 0));

    let m = Movement::new(|_: Step<Sq>| Some(10), 10);
    let p = g.path_toward(a, g.at(Sq::new(2, 0)), 0, &m).unwrap();

    assert_eq!(p.destination(), a);
    assert_eq!(p.cost(), 0);
}

#[test]
fn a_diagonal_costs_more_than_an_orthogonal_if_you_say_so() {
    let g = FullGrid::square(5, 5, Adjacency::Eight);
    let m = Movement::scan(&g, |s| Some(if s.dir.is_diagonal() { 14 } else { 10 }));

    let a = g.at(Sq::new(0, 0));
    let b = g.at(Sq::new(2, 2));

    assert_eq!(g.path(a, b, &m).unwrap().cost(), 28);
    assert_eq!(m.min_step(), 10);
}

#[test]
fn a_one_way_ledge_can_be_dropped_off_but_not_climbed() {
    let g = FullGrid::square(1, 3, Adjacency::Four);
    let top = g.at(Sq::new(0, 0));
    let bottom = g.at(Sq::new(0, 2));

    let m = Movement::scan(&g, |s| (s.dir == Dir8::S).then_some(10));

    assert_eq!(g.path(top, bottom, &m).unwrap().cost(), 20, "down is fine");
    assert!(g.path(bottom, top, &m).is_none(), "up is not");
}

#[test]
fn who_can_reach_a_cell_is_where_a_cell_can_reach_run_backwards() {
    // Only southward steps: reaching the bottom costs what the walk down costs.
    let g = FullGrid::square(1, 4, Adjacency::Four);
    let m = Movement::scan(&g, |s| (s.dir == Dir8::S).then_some(10));
    let bottom = g.at(Sq::new(0, 3));
    let top = g.at(Sq::new(0, 0));

    let back: Vec<(Sq, Cost)> = g.reaching(bottom, 100, &m).iter().map(|&(i, c)| (g.coord(i), c)).collect();
    assert_eq!(back, vec![(Sq::new(0, 3), 0), (Sq::new(0, 2), 10), (Sq::new(0, 1), 20), (Sq::new(0, 0), 30)]);

    assert_eq!(g.reachable(bottom, 100, &m).len(), 1, "nothing is below the bottom");
    assert_eq!(g.reachable(top, 100, &m).len(), 4);
    assert_eq!(g.reaching(top, 100, &m).len(), 1, "nothing climbs to the top");
}

#[test]
fn a_uniform_movement_prices_every_step_alike() {
    let g = FullGrid::square(4, 4, Adjacency::Eight);
    let m = Movement::uniform(&g, 7);
    assert_eq!(m.min_step(), 7);
    let p = g.path(g.at(Sq::new(0, 0)), g.at(Sq::new(3, 3)), &m).unwrap();
    assert_eq!((p.len(), p.cost()), (3, 21));
    assert_eq!(p.start(), g.at(Sq::new(0, 0)));
}
