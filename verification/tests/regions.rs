//! Regions of a board, which are boards in their own right.

use spacewalk::{Adjacency, Cost, Dir8, FullGrid, Grid, Idx, Movement, Sq, Step};

/// The 3x3 block in the corner of an 8x8 board, and the board it came from.
fn corner() -> (FullGrid<Sq>, Vec<Idx>) {
    let g = FullGrid::square(8, 8, Adjacency::Four);
    let block: Vec<Idx> = g.indices().into_iter().filter(|&i| g.coord(i).x < 3 && g.coord(i).y < 3).collect();
    (g, block)
}

/// Every answer a board gives about itself, in one place, so two boards can be compared.
fn survey<B: Grid<Cell = Sq>>(b: &B) -> (usize, Vec<Sq>, Vec<usize>, Vec<u32>, bool) {
    (
        b.len(),
        b.cells(),
        b.indices().into_iter().map(|i| b.neighbors(i).len()).collect(),
        b.indices().into_iter().map(|i| b.distance(b.at(Sq::new(0, 0)), i)).collect(),
        b.is_connected(|_| true),
    )
}

#[test]
fn a_subgrid_answers_every_query_the_same_way_the_grid_it_came_from_does() {
    let g = FullGrid::square(5, 4, Adjacency::Eight);
    let all = g.subset(g.indices());

    assert_eq!(survey(&g), survey(&all));

    let (from, to) = (Sq::new(0, 0), Sq::new(4, 3));
    assert_eq!(
        g.path(g.at(from), g.at(to), &Movement::scan(&g, |_| Some(10))).unwrap(),
        all.path(all.at(from), all.at(to), &Movement::scan(&all, |_| Some(10))).unwrap(),
    );
}

#[test]
fn a_subgrid_maps_every_cell_back_to_the_root_it_came_from() {
    let (g, block) = corner();
    let sub = g.subset(block.clone());

    assert_eq!(sub.len(), 9);
    for i in sub.indices() {
        assert_eq!(sub.of_root(sub.to_root(i)), Some(i));
        assert_eq!(sub.coord(i), g.coord(sub.to_root(i)));
    }

    let outside = g.at(Sq::new(7, 7));
    assert_eq!(sub.of_root(outside), None, "not every root cell is in here");
}

#[test]
fn a_subgrid_numbers_its_cells_in_the_roots_order_whatever_order_it_is_given_them() {
    let (g, mut block) = corner();
    block.reverse();
    block.push(block[4]);

    let sub = g.subset(block);
    assert_eq!(sub.len(), 9, "the duplicate collapsed");
    assert!(sub.indices().into_iter().map(|i| sub.to_root(i)).collect::<Vec<_>>().windows(2).all(|w| w[0] < w[1]));
}

#[test]
fn a_step_that_leaves_a_subgrid_is_the_edge_of_the_board() {
    let (g, block) = corner();
    let sub = g.subset(block);
    let rim = sub.at(Sq::new(2, 1));

    assert!(sub.step(rim, Dir8::E).is_none(), "east is off this board");
    assert!(sub.step(rim, Dir8::W).is_some());

    let m: Movement<fn(Step<Sq>) -> Option<Cost>> = Movement::new(|_| Some(10), 10);
    let ends: Vec<Sq> = sub.reachable(sub.at(Sq::new(0, 0)), 1000, &m).iter().map(|&(i, _)| sub.coord(i)).collect();
    assert_eq!(ends.len(), 9);
    assert!(ends.iter().all(|c| c.x < 3 && c.y < 3));
}

#[test]
fn a_subgrid_keeps_the_distances_of_the_grid_it_came_from() {
    let g = FullGrid::square(8, 8, Adjacency::Eight);
    let ends = g.subset(vec![g.at(Sq::new(0, 0)), g.at(Sq::new(5, 0))]);

    assert_eq!(ends.len(), 2);
    assert_eq!(
        ends.distance(ends.at(Sq::new(0, 0)), ends.at(Sq::new(5, 0))),
        5,
        "and not 1, which is how far apart they are numbered"
    );
}

#[test]
fn a_region_of_a_region_answers_in_the_first_board_s_numbering() {
    let (g, block) = corner();
    let sub = g.subset(block);
    let inner = sub.subset(vec![sub.at(Sq::new(1, 1)), sub.at(Sq::new(2, 2))]);
    assert_eq!(inner.len(), 2);
    let roots = inner.root_indices();
    assert_eq!(roots, vec![g.at(Sq::new(1, 1)), g.at(Sq::new(2, 2))]);
}

#[test]
fn a_region_taken_again_from_its_root_indices_is_the_same_region() {
    let g = FullGrid::square(8, 8, Adjacency::Four);
    let ring = g.ring(g.at(Sq::new(4, 4)), 2);
    let again = g.subset(ring.root_indices());
    assert_eq!(again.root_indices(), ring.root_indices());
    assert_eq!(again.cells(), ring.cells());
    for k in ring.indices() {
        assert_eq!(ring.of_root(ring.to_root(k)), Some(k));
        assert_eq!(ring.coord(k), g.coord(ring.to_root(k)));
    }
}
