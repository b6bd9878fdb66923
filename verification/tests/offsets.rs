//! Offset coordinates, as a tile map editor saves them, and why a save keeps coordinates.

use spacewalk::{Adjacency, Coord, Dir6, FullGrid, Grid, Hex, Offset, Sq};

/// Every hex within `r` of the origin.
fn hexes(r: i32) -> Vec<Hex> {
    (-r..=r)
        .flat_map(move |q| ((-r).max(-q - r)..=r.min(-q + r)).map(move |s| Hex::new(q, s)))
        .collect()
}

#[test]
fn offset_conversion_keeps_neighbours_neighbouring() {
    // The textbook shear assumes `r` grows south, where ours grows north-east. Copied, it still
    // round-trips perfectly while quietly scattering each cell's neighbours across the map.
    for o in [Offset::OddR, Offset::EvenR, Offset::OddQ, Offset::EvenQ] {
        for h in hexes(10) {
            let (col, row) = o.from_hex(h);
            for d in Dir6::ALL {
                let (ncol, nrow) = o.from_hex(h.step(d));
                assert!(
                    (ncol - col).abs() <= 1 && (nrow - row).abs() <= 1,
                    "{o:?}: {h:?} is at ({col}, {row}) but its {d:?} neighbour is at ({ncol}, {nrow})"
                );
            }
        }
    }
}

#[test]
fn offset_round_trips_both_ways_including_negatives() {
    // Negatives are where a truncating divide tears the board along row zero.
    for o in [Offset::OddR, Offset::EvenR, Offset::OddQ, Offset::EvenQ] {
        for h in hexes(30) {
            let (col, row) = o.from_hex(h);
            assert_eq!(o.to_hex(col, row), h, "{o:?} {h:?} -> ({col}, {row}) -> ?");
        }
        for col in -30..=30 {
            for row in -30..=30 {
                assert_eq!(o.from_hex(o.to_hex(col, row)), (col, row), "{o:?} ({col}, {row})");
            }
        }
    }
}

#[test]
fn a_saved_index_from_before_a_filter_is_caught() {
    // The hazard, made executable. Shipped, index 4 is simply index 4 once the board is rebuilt:
    // the hero has quietly moved one square east. This is why a save keeps coordinates.
    let full = FullGrid::square(3, 3, Adjacency::Four);

    let hero = full.at(Sq::new(1, 1));
    assert_eq!(hero.get(), 4);

    let after = full.filtered(|c| c != Sq::new(0, 0));
    assert_eq!(after.coord(hero), Sq::new(2, 1));

    // The right way: look the coordinate up again.
    let rehomed = after.index_of(full.coord(hero)).expect("the cell still exists");
    assert_eq!(after.coord(rehomed), Sq::new(1, 1));
}
