//! Field of view: straight lines in coordinate space, walls that cast shadows, and sight that is symmetric.

use spacewalk::coord::MetricKind;
use spacewalk::{Adjacency, Coord, FullGrid, Grid, Hex, Idx, Metric, Sq};


/// Nothing blocks.
fn clear(_: Idx) -> bool {
    false
}

#[test]
fn a_line_starts_where_you_are_and_ends_where_you_look() {
    let g = FullGrid::square(8, 8, Adjacency::Eight);
    let a = g.at(Sq::new(0, 0));
    let b = g.at(Sq::new(5, 0));

    let cells: Vec<Sq> = g.line(a, b).iter().map(|&i| g.coord(i)).collect();
    assert_eq!(cells.first(), Some(&Sq::new(0, 0)));
    assert_eq!(cells.last(), Some(&Sq::new(5, 0)));
    assert_eq!(cells.len(), 6, "a straight run along the rank");
}

#[test]
fn a_line_to_yourself_is_just_you() {
    // The trivial case, and a nasty one: the interpolation divides by the distance, so a line
    // from a cell to itself divided by zero, rounded the resulting NaN to 0, and returned the
    // ORIGIN of the coordinate space — a cell on the far side of the board.
    let g = FullGrid::square(8, 8, Adjacency::Eight);
    let me = g.at(Sq::new(6, 6));

    assert_eq!(g.line(me, me), vec![me]);
    assert!(g.los(me, me, clear), "you can see yourself");
}

#[test]
fn sight_is_symmetric() {
    // Rounding a tie has to break *somewhere*, and if it breaks by direction of travel you get a
    // board where A can see B but B cannot see A. Players notice, and they are right to.
    let g = FullGrid::square(15, 15, Adjacency::Eight);
    let walls = [Sq::new(7, 7), Sq::new(4, 9)];
    let blocks = |i| walls.contains(&g.coord(i));

    for a in g.indices() {
        for b in g.indices() {
            assert_eq!(
                g.los(a, b, blocks),
                g.los(b, a, blocks),
                "{:?} <-> {:?}",
                g.coord(a),
                g.coord(b)
            );
        }
    }
}

#[test]
fn a_line_reversed_is_the_reverse_of_the_line() {
    let g = FullGrid::square(12, 12, Adjacency::Eight);
    let a = g.at(Sq::new(1, 2));
    let b = g.at(Sq::new(9, 7));

    let there = g.line(a, b);
    let mut back = g.line(b, a);
    back.reverse();

    assert_eq!(there, back);
}

#[test]
fn a_wall_casts_a_shadow() {
    // The whole point. A wall due east of you hides what is behind it.
    let g = FullGrid::square(11, 11, Adjacency::Eight);
    let eye = g.at(Sq::new(5, 5));
    let wall = g.at(Sq::new(6, 5));
    let behind = g.at(Sq::new(8, 5));

    let blocks = |i| i == wall;

    assert!(g.los(eye, wall, blocks), "you see the wall itself");
    assert!(!g.los(eye, behind, blocks), "but not what stands behind it");
    assert!(
        g.los(eye, g.at(Sq::new(5, 8)), blocks),
        "and the rest is clear"
    );
}

#[test]
fn you_cannot_see_round_a_corner() {
    // An L-shaped corridor. The far arm is hidden until you reach the bend.
    let g = FullGrid::square(7, 7, Adjacency::Eight);
    let wall: Vec<Sq> = (0..7).map(|y| Sq::new(3, y)).filter(|c| c.y != 6).collect();
    let blocks = |i| wall.contains(&g.coord(i));

    let eye = g.at(Sq::new(0, 0));
    let beyond = g.at(Sq::new(6, 0));

    assert!(!g.los(eye, beyond, blocks), "the wall is in the way");
    assert!(
        g.los(eye, g.at(Sq::new(2, 0)), blocks),
        "up to the wall, fine"
    );
}

#[test]
fn field_of_view_sees_far_more_than_eight_spokes() {
    // The bug this replaces, quantified. Eight rays reached 40 of the 120 cells in radius 5.
    let g = FullGrid::square(21, 21, Adjacency::Eight);
    let eye = g.at(Sq::new(10, 10));

    let seen = g.visible_from(eye, 5, clear);
    let in_range = g.within(eye, 0, 5);

    assert_eq!(
        seen.len(),
        in_range.len(),
        "with nothing in the way, you see everything in range"
    );
    assert!(
        seen.len() > 100,
        "not the 40 that eight rays managed: {}",
        seen.len()
    );
}

#[test]
fn a_pillar_hides_what_is_behind_it_and_nothing_else() {
    let g = FullGrid::square(21, 21, Adjacency::Eight);
    let eye = g.at(Sq::new(10, 10));
    let pillar = g.at(Sq::new(12, 10));

    let seen = g.visible_from(eye, 6, |i| i == pillar);
    let open = g.visible_from(eye, 6, clear);

    assert!(seen.len() < open.len(), "the pillar hides something");
    assert!(seen.contains(g.coord(pillar)), "but not itself");
    assert!(
        !seen.contains(Sq::new(14, 10)),
        "and what is directly behind it is gone"
    );
}

#[test]
fn hexes_have_sight_too() {
    let g = FullGrid::hexagon(5);
    let eye = g.at(Hex::new(0, 0));
    let wall = g.at(Hex::new(1, 0));
    let behind = g.at(Hex::new(3, 0));

    let blocks = |i| i == wall;
    assert!(g.los(eye, wall, blocks));
    assert!(
        !g.los(eye, behind, blocks),
        "the hex wall casts a shadow too"
    );
}

/// The single direction of a one-dimensional world.
#[derive(Debug, Clone, Copy, PartialEq, Eq, Hash)]
struct E;

/// A one-dimensional coordinate of a test's own, with no straight line.
#[derive(Debug, Clone, Copy, PartialEq, Eq, PartialOrd, Ord, Hash)]
struct P(i32);

impl Coord for P {
    type Dir = E;

    // The specification items of `Coord` are plain functions outside the verifier; this
    // coordinate gives them the executable meaning.
    fn spec_step(self, d: E) -> Self {
        self.step(d)
    }
    fn spec_plus(self, o: Self) -> Self {
        self.plus(o)
    }
    fn spec_minus(self, o: Self) -> Self {
        self.minus(o)
    }
    fn spec_lt(self, o: Self) -> bool {
        self < o
    }
    fn spec_table_lt(self, o: Self) -> bool {
        self < o
    }
    fn spec_table_len(_: MetricKind, _: u32) -> u64 {
        0 // a scanning metric never asks for a table
    }
    fn spec_key(self) -> (i32, i32, i32) {
        self.key()
    }
    fn spec_distance(self, o: Self, kind: MetricKind) -> u32 {
        self.distance_by(o, kind)
    }
    fn spec_lerp(a: Self, b: Self, t: u32, n: u32) -> Self {
        Self::lerp(a, b, t, n)
    }
    fn lemma_key_injective(_: Self, _: Self) {}
    fn lemma_order(_: Self, _: Self, _: Self) {}
    fn lemma_metric(_: Self, _: Self, _: Self, _: MetricKind) {}

    fn step(self, d: E) -> Self {
        let _ = d;
        P(self.0 + 1)
    }
    fn plus(self, o: Self) -> Self {
        P(self.0 + o.0)
    }
    fn minus(self, o: Self) -> Self {
        P(self.0 - o.0)
    }
    fn same(self, o: Self) -> bool {
        self == o
    }
    fn same_dir(a: E, b: E) -> bool {
        a == b
    }
    fn precedes(self, o: Self) -> bool {
        self < o
    }
    fn key(self) -> (i32, i32, i32) {
        (self.0, 0, 0)
    }
    fn distance_by(self, o: Self, _: MetricKind) -> u32 {
        (o.0 - self.0).unsigned_abs()
    }
    fn offsets(_: MetricKind, _: u32) -> Vec<(Self, u32)> {
        Vec::new() // a scanning metric never asks
    }
    fn lerp(a: Self, _: Self, _: u32, _: u32) -> Self {
        a // a scanning metric draws no lines, so this is never asked
    }
}

#[test]
fn a_custom_coord_without_a_lerp_simply_has_no_sight() {
    // A scanning metric has no notion of a straight line, and says so rather than guessing.
    let g = FullGrid::new((0..5).map(P).collect(), &[E], Metric::scanning());

    assert!(g.line(g.at(P(0)), g.at(P(4))).is_empty(), "no lerp, no line");
}
