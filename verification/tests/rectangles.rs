//! A computed rectangle answers exactly as a stored one does.

use spacewalk::{Adjacency, Cost, Dir8, FullGrid, Grid, Idx, Movement, RectGrid, Sq};

/// Every predecessor of `j`, as a sorted list.
fn back<B: Grid<Cell = Sq>>(b: &B, j: Idx) -> Vec<(Dir8, Idx)> {
    let mut all: Vec<(Dir8, Idx)> = b.in_neighbors(j);
    all.sort_unstable_by_key(|&(d, i)| (i, d as u8));
    all
}

#[test]
fn a_computed_rectangle_answers_exactly_as_a_stored_one_does() {
    for adj in [Adjacency::Four, Adjacency::Eight] {
        let (stored, rect) = (FullGrid::square(5, 3, adj), RectGrid::new(5, 3, adj));

        assert_eq!(stored.len(), rect.len(), "{adj:?}");
        assert_eq!(stored.dirs(), rect.dirs(), "{adj:?}");

        for i in stored.indices() {
            let c = stored.coord(i);
            assert_eq!(rect.coord(i), c, "{adj:?} {i:?}");
            assert_eq!(rect.index_of(c), Some(i), "{adj:?} {c:?}");

            for &d in Dir8::ALL.iter() {
                assert_eq!(stored.step(i, d), rect.step(i, d), "{adj:?} {c:?} {d:?}");
            }
            assert_eq!(back(&stored, i), back(&rect, i), "{adj:?} {c:?}");
        }

        for c in [Sq::new(-1, 0), Sq::new(0, -1), Sq::new(5, 2), Sq::new(4, 3)] {
            assert_eq!(rect.index_of(c), None, "{adj:?} {c:?}");
        }

        let wall = Sq::new(2, 1);
        let cost = |c: Sq| (c != wall).then_some(10 as Cost);
        let (from, to) = (Sq::new(0, 1), Sq::new(4, 1));

        let a = stored.path(stored.at(from), stored.at(to), &Movement::scan(&stored, |s| cost(stored.coord(s.to)))).unwrap();
        let b = rect.path(rect.at(from), rect.at(to), &Movement::scan(&rect, |s| cost(rect.coord(s.to)))).unwrap();

        assert_eq!((a.steps(), a.cost()), (b.steps(), b.cost()), "{adj:?}");
    }
}

#[test]
fn a_rectangle_s_bottom_row_has_no_south() {
    let g = RectGrid::new(8, 8, Adjacency::Four);
    let a1 = g.at(Sq::new(0, 7));

    assert_eq!(g.len(), 64);
    assert!(g.step(a1, Dir8::S).is_none(), "the bottom row has no south");
    assert!(g.step(a1, Dir8::N).is_some());
    assert!(g.step(a1, Dir8::Ne).is_none(), "a four-way grid has no diagonals at all");
}

#[test]
fn an_empty_rectangle_has_no_cells() {
    let g = RectGrid::new(0, 5, Adjacency::Eight);
    assert!(g.is_empty());
    assert_eq!(g.index_of(Sq::new(0, 0)), None);
}
