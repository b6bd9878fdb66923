//! One value per cell.

use spacewalk::{Adjacency, CellMap, FullGrid, Grid, Offset, Sq};

#[test]
fn a_map_covers_every_cell_and_answers_for_the_right_one() {
    let g = FullGrid::square(4, 3, Adjacency::Four);
    let m = CellMap::from_fn(&g, |c: Sq| c.x + c.y);
    assert_eq!(m.len(), g.len());
    for i in g.indices() {
        assert_eq!(m[i], g.coord(i).x + g.coord(i).y);
    }
    assert_eq!(m.iter().len(), g.len());
}

#[test]
fn a_map_starts_with_one_value_everywhere_and_takes_new_ones_cell_by_cell() {
    let g = FullGrid::square(8, 8, Adjacency::Four);
    let mut mud = CellMap::new(&g, false);
    assert!(!mud.is_empty());

    mud.set(g.index_of(Sq::new(3, 3)).unwrap(), true);
    assert_eq!(mud.iter().into_iter().filter(|&(_, &m)| m).count(), 1);
    assert!(*mud.get(g.at(Sq::new(3, 3))));
    assert!(!mud[g.at(Sq::new(3, 4))]);
}

#[test]
fn a_map_of_a_tilemap_is_keyed_by_the_tile() {
    let g = FullGrid::hex_rect(10, 10, Offset::OddR);
    let water = CellMap::from_fn(&g, |c| Offset::OddR.from_hex(c).0 == 4);
    assert_eq!(water.iter().into_iter().filter(|&(_, &w)| w).count(), 10);
}

#[test]
fn a_map_lists_its_cells_in_index_order() {
    let g = FullGrid::square(3, 1, Adjacency::Four);
    let m = CellMap::from_fn(&g, |c: Sq| c.x * 10);
    let listed: Vec<(u32, i32)> = m.iter().into_iter().map(|(i, &v)| (i.get(), v)).collect();
    assert_eq!(listed, vec![(0, 0), (1, 10), (2, 20)]);
    assert_eq!(m.clone(), m);
}

#[test]
fn a_map_restored_from_its_values_answers_as_the_original() {
    let g = FullGrid::square(3, 2, Adjacency::Four);
    let m = CellMap::from_fn(&g, |c: Sq| c.x * 10 + c.y);
    let values: Vec<i32> = m.iter().into_iter().map(|(_, &v)| v).collect();
    assert_eq!(values, [0, 10, 20, 1, 11, 21]);

    let back = CellMap::from_values(values);
    assert_eq!(back.len(), 6);
    for i in g.indices() {
        assert_eq!(back[i], m[i]);
    }
}
