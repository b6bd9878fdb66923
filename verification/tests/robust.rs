//! Arithmetic on numbers the crate did not choose: costs, coordinates, radii and heights at the
//! edges of their types. A wrapped total in a graph search is not a wrong answer but a hang, so
//! totals saturate, distances widen, and oversized boards are refused.

use spacewalk::coord::MetricKind;
use spacewalk::height::height_gate;
use spacewalk::{Adjacency, Coord, Dir8, FullGrid, Grid, GridError, Hex, Metric, Movement, Sq, Step};

#[test]
fn a_total_that_would_overflow_saturates_instead_of_hanging() {
    // `Movement::new` skips the scan, so nothing refuses these costs. Nine steps at 600 million do
    // not fit in a u32; the total must peg at the ceiling rather than wrap.
    let g = FullGrid::square(10, 1, Adjacency::Four);
    let m = Movement::new(|_: Step<Sq>| Some(600_000_000), 0);

    let a = g.at(Sq::new(0, 0));
    let b = g.at(Sq::new(9, 0));

    let p = g
        .path(a, b, &m)
        .expect("it must terminate, and it must find the corridor");
    assert_eq!(p.len(), 9);
    assert_eq!(
        p.cost(),
        u32::MAX,
        "the total pegs at the ceiling rather than wrapping to a lie"
    );
}

#[test]
fn a_colossal_min_step_cannot_overflow_the_heuristic() {
    // With a huge `min_step` the heuristic saturates to `u32::MAX`, and `g + h` must saturate too.
    // However dishonest the numbers, the search comes back.
    let g = FullGrid::square(8, 8, Adjacency::Four);
    let m = Movement::new(|_: Step<Sq>| Some(10), u32::MAX);

    let a = g.at(Sq::new(0, 0));
    let b = g.at(Sq::new(7, 7));

    assert!(
        g.path(a, b, &m).is_some(),
        "it saturates, terminates, and still finds the path"
    );
}

#[test]
fn reach_and_path_toward_survive_the_same_costs() {
    let g = FullGrid::square(12, 1, Adjacency::Four);
    let m = Movement::new(|_: Step<Sq>| Some(900_000_000), 0);
    let a = g.at(Sq::new(0, 0));
    let z = g.at(Sq::new(11, 0));

    assert!(!g.reachable(a, u32::MAX, &m).is_empty());
    assert!(g.path_toward(a, z, u32::MAX, &m).is_some());
}

#[test]
fn distances_are_exact_at_the_extremes_of_i32() {
    // `self.x - o.x` on an i32 wraps. Widened, two cells four billion apart are not adjacent.
    let far = Sq::new(i32::MAX, 0).chebyshev(Sq::new(i32::MIN, 0));
    assert_eq!(far, u32::MAX, "the true distance, clamped — not 1");

    let both = Sq::new(i32::MIN, i32::MIN).manhattan(Sq::new(0, 0));
    assert_eq!(both, u32::MAX, "clamped, not 0");

    let hex = Hex::new(i32::MIN, 0).distance(Hex::new(0, 0));
    assert!(hex > 1_000_000_000, "a real distance, not 0: {hex}");
}

#[test]
fn a_grid_of_extreme_coordinates_can_be_built_and_measured() {
    // No wrap-around edge may be forged between two cells four billion apart.
    let g = FullGrid::new(
        vec![Sq::new(i32::MAX, 0), Sq::new(i32::MIN, 0), Sq::new(0, 0)],
        &Dir8::ORTHO,
        Metric::MANHATTAN,
    );

    let hi = g.at(Sq::new(i32::MAX, 0));
    let lo = g.at(Sq::new(i32::MIN, 0));

    assert!(g.distance(hi, lo) > 1, "they are not neighbours");
    assert_eq!(g.neighbors(hi).len(), 0, "and no wrap-around edge was forged");
}

#[test]
fn a_sight_line_at_the_extremes_of_height_does_not_wrap() {
    // The height gate multiplies a height difference by a distance; both can be four billion, so
    // the product needs 65 bits. A tower at i32::MAX must not turn see-through.
    const LATTICE_LIMIT: i32 = (1 << 30) - 1;

    let g = FullGrid::new(
        vec![
            Sq::new(i32::MIN, 0),
            Sq::new(0, 0),
            Sq::new(LATTICE_LIMIT, 0),
            Sq::new(i32::MAX, 0),
        ],
        &Dir8::ORTHO,
        Metric::MANHATTAN,
    );

    let lo = g.at(Sq::new(i32::MIN, 0));
    let hi = g.at(Sq::new(i32::MAX, 0));
    let tower = g.at(Sq::new(LATTICE_LIMIT, 0));

    assert_eq!(g.distance(lo, hi), u32::MAX, "the widest span there is");
    assert_eq!(g.distance(lo, tower), 3_221_225_471);

    let ground = move |i| if i == tower { i32::MAX } else { i32::MIN };
    let sight = height_gate(&g, ground, move |_| i32::MIN);

    assert!(
        !g.los_by(lo, hi, &sight),
        "a tower four billion units high is not see-through"
    );
    assert!(g.los_by(lo, tower, &sight), "the target is exempt at any height");
}

#[test]
fn a_height_field_cannot_hang_a_field_of_view() {
    let g = FullGrid::square(64, 64, Adjacency::Eight);
    let extreme = |i| {
        if g.coord(i).x % 2 == 0 {
            i32::MAX
        } else {
            i32::MIN
        }
    };
    let sight = height_gate(&g, extreme, extreme);

    let eye = g.at(Sq::new(32, 32));
    let seen = g.visible_from_by(eye, spacewalk::MAX_SIGHT, &sight);
    assert!(
        seen.contains(Sq::new(32, 32)),
        "you are always in your own view"
    );
}

#[test]
fn a_negative_board_is_refused_rather_than_silently_empty() {
    assert_eq!(
        FullGrid::try_square(-5, 3, Adjacency::Four).err(),
        Some(GridError::InvalidDimensions { w: -5, h: 3 })
    );
}

#[test]
fn an_impossibly_large_board_is_refused_rather_than_attempted() {
    // 46341² is 2.1 billion cells.
    let err = FullGrid::try_square(46_341, 46_341, Adjacency::Eight).err().unwrap();
    assert!(err.message().contains("at most"), "it says what the limit is: {}", err.message());

    assert!(FullGrid::try_hexagon(50_000).is_err());
    assert!(FullGrid::try_hexagon(-1).is_err());

    // A disc guards its bounding box, computed wide enough not to wrap.
    assert!(FullGrid::try_disc(i32::MAX, Adjacency::Four).is_err());
    assert!(FullGrid::try_disc(-1, Adjacency::Four).is_err());
}

#[test]
fn an_empty_grid_is_harmless() {
    let g = FullGrid::square(0, 0, Adjacency::Four);
    assert_eq!(g.len(), 0);
    assert!(g.is_empty());
    assert_eq!(g.indices().len(), 0);
    assert_eq!(g.index_of(Sq::new(0, 0)), None);
}

#[test]
fn a_metric_that_disagrees_with_the_directions_is_refused() {
    // Eight-way movement measured with Manhattan distance: a unit can step onto the diagonal and is
    // told it is two cells away.
    let cells: Vec<Sq> = (0..5).flat_map(|y| (0..5).map(move |x| Sq::new(x, y))).collect();
    let err = FullGrid::try_new(cells, &Dir8::ALL, Metric::MANHATTAN).err().unwrap();

    let msg = err.message();
    assert!(msg.contains("covers 2"), "it says what the step actually spans: {msg}");
    assert!(msg.contains("disagrees"), "and names the problem: {msg}");

    // The pairings that agree are of course fine.
    let _ = FullGrid::square(5, 5, Adjacency::Four);
    let _ = FullGrid::square(5, 5, Adjacency::Eight);
}

#[test]
fn a_path_that_goes_nowhere_is_length_zero_not_eighteen_quintillion() {
    // Only a search builds a `Path`, so the empty one cannot be written down at all. What is left
    // is the shortest real path: one cell, going nowhere.
    let g = FullGrid::square(3, 3, Adjacency::Four);
    let here = g.at(Sq::new(1, 1));
    let p = g.path(here, here, &Movement::uniform(&g, 10)).unwrap();

    assert_eq!(p.len(), 0);
    assert!(p.is_empty());
    assert_eq!(p.destination(), here);
    assert_eq!(p.start(), here, "it never left");
    assert_eq!(p.cost(), 0, "standing still is free");
}

// ---------------------------------------------------------------------------------------------
// Coordinates of a test's own
// ---------------------------------------------------------------------------------------------

/// One of 257 directions, only the last of which moves.
#[derive(Debug, Clone, Copy, PartialEq, Eq, Hash)]
struct WideDir(u16);

#[derive(Debug, Clone, Copy, PartialEq, Eq, PartialOrd, Ord, Hash)]
struct Wide(i32);

impl Coord for Wide {
    type Dir = WideDir;

    // The specification items of `Coord` are plain functions outside the verifier; this
    // coordinate gives them the executable meaning.
    fn spec_step(self, d: WideDir) -> Self {
        self.step(d)
    }
    fn spec_plus(self, o: Self) -> Self {
        self.plus(o)
    }
    fn spec_minus(self, o: Self) -> Self {
        self.minus(o)
    }
    fn spec_lt(self, o: Self) -> bool {
        self < o
    }
    fn spec_table_lt(self, o: Self) -> bool {
        self < o
    }
    fn spec_table_len(_: MetricKind, _: u32) -> u64 {
        0 // a scanning metric never asks for a table
    }
    fn spec_key(self) -> (i32, i32, i32) {
        self.key()
    }
    fn spec_distance(self, o: Self, kind: MetricKind) -> u32 {
        self.distance_by(o, kind)
    }
    fn spec_lerp(a: Self, b: Self, t: u32, n: u32) -> Self {
        Self::lerp(a, b, t, n)
    }
    fn lemma_key_injective(_: Self, _: Self) {}
    fn lemma_order(_: Self, _: Self, _: Self) {}
    fn lemma_metric(_: Self, _: Self, _: Self, _: MetricKind) {}

    fn step(self, d: WideDir) -> Self {
        if d.0 == 256 { Wide(self.0 + 1) } else { self }
    }
    fn plus(self, o: Self) -> Self {
        Wide(self.0 + o.0)
    }
    fn minus(self, o: Self) -> Self {
        Wide(self.0 - o.0)
    }
    fn same(self, o: Self) -> bool {
        self == o
    }
    fn same_dir(a: WideDir, b: WideDir) -> bool {
        a == b
    }
    fn precedes(self, o: Self) -> bool {
        self < o
    }
    fn key(self) -> (i32, i32, i32) {
        (self.0, 0, 0)
    }
    fn distance_by(self, o: Self, _: MetricKind) -> u32 {
        (o.0 - self.0).unsigned_abs()
    }
    fn offsets(_: MetricKind, _: u32) -> Vec<(Self, u32)> {
        Vec::new() // a scanning metric never asks
    }
    fn lerp(a: Self, _: Self, _: u32, _: u32) -> Self {
        a // a scanning metric draws no lines, so this is never asked
    }
}

#[test]
fn a_wide_direction_alphabet_keeps_reverse_edges_correct() {
    let dirs: Vec<WideDir> = (0..257u16).map(WideDir).collect();
    let g = FullGrid::new(vec![Wide(0), Wide(1)], &dirs, Metric::scanning());

    let one = g.at(Wide(1));
    assert!(
        g.in_neighbors(one)
            .iter()
            .any(|&(dir, from)| dir == WideDir(256) && from == g.at(Wide(0)))
    );
}

const W: i32 = 8;

/// The single direction of a one-dimensional world.
#[derive(Debug, Clone, Copy, PartialEq, Eq, Hash)]
enum Spin {
    Round,
}

/// A one-dimensional world that wraps around, so stepping east forever returns you to where you
/// began: its step table is cyclic.
#[derive(Debug, Clone, Copy, PartialEq, Eq, PartialOrd, Ord, Hash)]
struct Ring(i32);

impl Coord for Ring {
    type Dir = Spin;

    // The specification items of `Coord` are plain functions outside the verifier; this
    // coordinate gives them the executable meaning.
    fn spec_step(self, d: Spin) -> Self {
        self.step(d)
    }
    fn spec_plus(self, o: Self) -> Self {
        self.plus(o)
    }
    fn spec_minus(self, o: Self) -> Self {
        self.minus(o)
    }
    fn spec_lt(self, o: Self) -> bool {
        self < o
    }
    fn spec_table_lt(self, o: Self) -> bool {
        self < o
    }
    fn spec_table_len(_: MetricKind, _: u32) -> u64 {
        0 // a scanning metric never asks for a table
    }
    fn spec_key(self) -> (i32, i32, i32) {
        self.key()
    }
    fn spec_distance(self, o: Self, kind: MetricKind) -> u32 {
        self.distance_by(o, kind)
    }
    fn spec_lerp(a: Self, b: Self, t: u32, n: u32) -> Self {
        Self::lerp(a, b, t, n)
    }
    fn lemma_key_injective(_: Self, _: Self) {}
    fn lemma_order(_: Self, _: Self, _: Self) {}
    fn lemma_metric(_: Self, _: Self, _: Self, _: MetricKind) {}

    fn step(self, d: Spin) -> Self {
        let _ = d;
        Ring((self.0 + 1).rem_euclid(W))
    }
    fn plus(self, o: Self) -> Self {
        Ring((self.0 + o.0).rem_euclid(W))
    }
    fn minus(self, o: Self) -> Self {
        Ring((self.0 - o.0).rem_euclid(W))
    }
    fn same(self, o: Self) -> bool {
        self == o
    }
    fn same_dir(a: Spin, b: Spin) -> bool {
        a == b
    }
    fn precedes(self, o: Self) -> bool {
        self < o
    }
    fn key(self) -> (i32, i32, i32) {
        (self.0, 0, 0)
    }
    fn distance_by(self, o: Self, _: MetricKind) -> u32 {
        self.minus(o).0.unsigned_abs().min(o.minus(self).0.unsigned_abs())
    }
    fn offsets(_: MetricKind, _: u32) -> Vec<(Self, u32)> {
        Vec::new() // a scanning metric never asks
    }
    fn lerp(a: Self, _: Self, _: u32, _: u32) -> Self {
        a // a scanning metric draws no lines, so this is never asked
    }
}

#[test]
fn a_ray_on_a_wrapping_world_terminates() {
    // On a torus the board never runs out, so a ray must be bounded by the board itself.
    let g = FullGrid::new((0..W).map(Ring).collect(), &[Spin::Round], Metric::scanning());

    let start = g.at(Ring(0));
    let walked = g.ray(start, Spin::Round);

    assert_eq!(walked.len(), g.len(), "bounded by the board, and no longer");
}

/// A one-dimensional world whose last cell steps onto itself.
#[derive(Debug, Clone, Copy, PartialEq, Eq, PartialOrd, Ord, Hash)]
struct Clamp(i32);

impl Coord for Clamp {
    type Dir = Spin;

    // The specification items of `Coord` are plain functions outside the verifier; this
    // coordinate gives them the executable meaning.
    fn spec_step(self, d: Spin) -> Self {
        self.step(d)
    }
    fn spec_plus(self, o: Self) -> Self {
        self.plus(o)
    }
    fn spec_minus(self, o: Self) -> Self {
        self.minus(o)
    }
    fn spec_lt(self, o: Self) -> bool {
        self < o
    }
    fn spec_table_lt(self, o: Self) -> bool {
        self < o
    }
    fn spec_table_len(_: MetricKind, _: u32) -> u64 {
        0 // a scanning metric never asks for a table
    }
    fn spec_key(self) -> (i32, i32, i32) {
        self.key()
    }
    fn spec_distance(self, o: Self, kind: MetricKind) -> u32 {
        self.distance_by(o, kind)
    }
    fn spec_lerp(a: Self, b: Self, t: u32, n: u32) -> Self {
        Self::lerp(a, b, t, n)
    }
    fn lemma_key_injective(_: Self, _: Self) {}
    fn lemma_order(_: Self, _: Self, _: Self) {}
    fn lemma_metric(_: Self, _: Self, _: Self, _: MetricKind) {}

    fn step(self, d: Spin) -> Self {
        let _ = d;
        Clamp((self.0 + 1).min(4))
    }
    fn plus(self, o: Self) -> Self {
        Clamp(self.0 + o.0)
    }
    fn minus(self, o: Self) -> Self {
        Clamp(self.0 - o.0)
    }
    fn same(self, o: Self) -> bool {
        self == o
    }
    fn same_dir(a: Spin, b: Spin) -> bool {
        a == b
    }
    fn precedes(self, o: Self) -> bool {
        self < o
    }
    fn key(self) -> (i32, i32, i32) {
        (self.0, 0, 0)
    }
    fn distance_by(self, o: Self, _: MetricKind) -> u32 {
        (o.0 - self.0).unsigned_abs()
    }
    fn offsets(_: MetricKind, _: u32) -> Vec<(Self, u32)> {
        Vec::new() // a scanning metric never asks
    }
    fn lerp(a: Self, _: Self, _: u32, _: u32) -> Self {
        a // a scanning metric draws no lines, so this is never asked
    }
}

#[test]
fn a_clamping_step_does_not_become_a_self_loop() {
    // A step that clamps at the edge makes the edge cell step onto itself. `FullGrid::new` drops
    // that edge, so a ray does not spin on it.
    let g = FullGrid::new((0..=4).map(Clamp).collect(), &[Spin::Round], Metric::scanning());

    let last = g.at(Clamp(4));
    assert_eq!(g.step(last, Spin::Round), None, "the self-step is not an edge");
    assert_eq!(g.ray(last, Spin::Round).len(), 0);
}

/// A portal's single direction.
#[derive(Debug, Clone, Copy, PartialEq, Eq, Hash)]
struct Jump;

/// A world whose one step carries you three cells, measured by a metric of zero.
#[derive(Debug, Clone, Copy, PartialEq, Eq, PartialOrd, Ord, Hash)]
struct Leap(i32);

impl Coord for Leap {
    type Dir = Jump;

    // The specification items of `Coord` are plain functions outside the verifier; this
    // coordinate gives them the executable meaning.
    fn spec_step(self, d: Jump) -> Self {
        self.step(d)
    }
    fn spec_plus(self, o: Self) -> Self {
        self.plus(o)
    }
    fn spec_minus(self, o: Self) -> Self {
        self.minus(o)
    }
    fn spec_lt(self, o: Self) -> bool {
        self < o
    }
    fn spec_table_lt(self, o: Self) -> bool {
        self < o
    }
    fn spec_table_len(_: MetricKind, _: u32) -> u64 {
        0 // a scanning metric never asks for a table
    }
    fn spec_key(self) -> (i32, i32, i32) {
        self.key()
    }
    fn spec_distance(self, o: Self, kind: MetricKind) -> u32 {
        self.distance_by(o, kind)
    }
    fn spec_lerp(a: Self, b: Self, t: u32, n: u32) -> Self {
        Self::lerp(a, b, t, n)
    }
    fn lemma_key_injective(_: Self, _: Self) {}
    fn lemma_order(_: Self, _: Self, _: Self) {}
    fn lemma_metric(_: Self, _: Self, _: Self, _: MetricKind) {}

    fn step(self, d: Jump) -> Self {
        let _ = d;
        Leap(self.0 + 3)
    }
    fn plus(self, o: Self) -> Self {
        Leap(self.0 + o.0)
    }
    fn minus(self, o: Self) -> Self {
        Leap(self.0 - o.0)
    }
    fn same(self, o: Self) -> bool {
        self == o
    }
    fn same_dir(a: Jump, b: Jump) -> bool {
        a == b
    }
    fn precedes(self, o: Self) -> bool {
        self < o
    }
    fn key(self) -> (i32, i32, i32) {
        (self.0, 0, 0)
    }
    fn distance_by(self, o: Self, _: MetricKind) -> u32 {
        let _ = o;
        0
    }
    fn offsets(_: MetricKind, _: u32) -> Vec<(Self, u32)> {
        Vec::new() // a scanning metric never asks
    }
    fn lerp(a: Self, _: Self, _: u32, _: u32) -> Self {
        a // a scanning metric draws no lines, so this is never asked
    }
}

#[test]
fn a_board_with_genuine_multi_cell_steps_may_opt_out_with_a_zero_metric() {
    // A metric of 0 is always an underestimate, so A* degrades into Dijkstra: slower, still correct.
    let g = FullGrid::new((0..9).map(Leap).collect(), &[Jump], Metric::scanning());
    let m = Movement::scan(&g, |_| Some(10));

    let start = g.at(Leap(0));
    let far = g.at(Leap(6));
    assert_eq!(g.path(start, far, &m).unwrap().len(), 2, "two portal hops");
}

#[test]
fn a_long_line_past_the_lattice_limit_still_ends_at_its_far_end() {
    // Past the lattice limit the interpolated end of a long line is clamped, and here it lands on
    // a third cell as far from the start as the true end. The ends are kept first and last anyway.
    let g = FullGrid::new(
        vec![
            Sq::new(-1_073_741_834, 0),
            Sq::new(0, 1_073_741_829),
            Sq::new(0, 1_073_741_823),
        ],
        &Dir8::ORTHO,
        Metric::CHEBYSHEV,
    );
    let a = g.at(Sq::new(-1_073_741_834, 0));
    let b = g.at(Sq::new(0, 1_073_741_829));

    let line = g.line(a, b);
    assert_eq!(line.first(), Some(&a));
    assert_eq!(line.last(), Some(&b));

    let mut back = g.line(b, a);
    back.reverse();
    assert_eq!(back, line, "read backwards, the line drawn the other way");
}
