use rand::rngs::SmallRng;
use rand_seeder::Seeder;

use mazes::algos::binary_tree::binary_tree;
use mazes::base_grid::Svg;
use mazes::cell::Cell;
use mazes::djikstra::{digit36, DjikstraGrid};
use mazes::grid::StandardGrid;

#[test]
fn it_should_draw_svg() {
    let grid = StandardGrid::new(4, 4);
    let svg = grid.draw();
    assert_eq!(
        "<svg viewBox=\"0 0 64 64\" xmlns=\"http://www.w3.org/2000/svg\"><line x1=\"0\" y1=\"0\" x2=\"16\" y2=\"0\" stroke=\"black\" stroke-linecap=\"square\" /><line x1=\"0\" y1=\"0\" x2=\"0\" y2=\"16\" stroke=\"black\" stroke-linecap=\"square\" /><line x1=\"16\" y1=\"0\" x2=\"16\" y2=\"16\" stroke=\"black\" stroke-linecap=\"square\" /><line x1=\"0\" y1=\"16\" x2=\"16\" y2=\"16\" stroke=\"black\" stroke-linecap=\"square\" /><line x1=\"16\" y1=\"0\" x2=\"32\" y2=\"0\" stroke=\"black\" stroke-linecap=\"square\" /><line x1=\"32\" y1=\"0\" x2=\"32\" y2=\"16\" stroke=\"black\" stroke-linecap=\"square\" /><line x1=\"16\" y1=\"16\" x2=\"32\" y2=\"16\" stroke=\"black\" stroke-linecap=\"square\" /><line x1=\"32\" y1=\"0\" x2=\"48\" y2=\"0\" stroke=\"black\" stroke-linecap=\"square\" /><line x1=\"48\" y1=\"0\" x2=\"48\" y2=\"16\" stroke=\"black\" stroke-linecap=\"square\" /><line x1=\"32\" y1=\"16\" x2=\"48\" y2=\"16\" stroke=\"black\" stroke-linecap=\"square\" /><line x1=\"48\" y1=\"0\" x2=\"64\" y2=\"0\" stroke=\"black\" stroke-linecap=\"square\" /><line x1=\"64\" y1=\"0\" x2=\"64\" y2=\"16\" stroke=\"black\" stroke-linecap=\"square\" /><line x1=\"48\" y1=\"16\" x2=\"64\" y2=\"16\" stroke=\"black\" stroke-linecap=\"square\" /><line x1=\"0\" y1=\"16\" x2=\"0\" y2=\"32\" stroke=\"black\" stroke-linecap=\"square\" /><line x1=\"16\" y1=\"16\" x2=\"16\" y2=\"32\" stroke=\"black\" stroke-linecap=\"square\" /><line x1=\"0\" y1=\"32\" x2=\"16\" y2=\"32\" stroke=\"black\" stroke-linecap=\"square\" /><line x1=\"32\" y1=\"16\" x2=\"32\" y2=\"32\" stroke=\"black\" stroke-linecap=\"square\" /><line x1=\"16\" y1=\"32\" x2=\"32\" y2=\"32\" stroke=\"black\" stroke-linecap=\"square\" /><line x1=\"48\" y1=\"16\" x2=\"48\" y2=\"32\" stroke=\"black\" stroke-linecap=\"square\" /><line x1=\"32\" y1=\"32\" x2=\"48\" y2=\"32\" stroke=\"black\" stroke-linecap=\"square\" /><line x1=\"64\" y1=\"16\" x2=\"64\" y2=\"32\" stroke=\"black\" stroke-linecap=\"square\" /><line x1=\"48\" y1=\"32\" x2=\"64\" y2=\"32\" stroke=\"black\" stroke-linecap=\"square\" /><line x1=\"0\" y1=\"32\" x2=\"0\" y2=\"48\" stroke=\"black\" stroke-linecap=\"square\" /><line x1=\"16\" y1=\"32\" x2=\"16\" y2=\"48\" stroke=\"black\" stroke-linecap=\"square\" /><line x1=\"0\" y1=\"48\" x2=\"16\" y2=\"48\" stroke=\"black\" stroke-linecap=\"square\" /><line x1=\"32\" y1=\"32\" x2=\"32\" y2=\"48\" stroke=\"black\" stroke-linecap=\"square\" /><line x1=\"16\" y1=\"48\" x2=\"32\" y2=\"48\" stroke=\"black\" stroke-linecap=\"square\" /><line x1=\"48\" y1=\"32\" x2=\"48\" y2=\"48\" stroke=\"black\" stroke-linecap=\"square\" /><line x1=\"32\" y1=\"48\" x2=\"48\" y2=\"48\" stroke=\"black\" stroke-linecap=\"square\" /><line x1=\"64\" y1=\"32\" x2=\"64\" y2=\"48\" stroke=\"black\" stroke-linecap=\"square\" /><line x1=\"48\" y1=\"48\" x2=\"64\" y2=\"48\" stroke=\"black\" stroke-linecap=\"square\" /><line x1=\"0\" y1=\"48\" x2=\"0\" y2=\"64\" stroke=\"black\" stroke-linecap=\"square\" /><line x1=\"16\" y1=\"48\" x2=\"16\" y2=\"64\" stroke=\"black\" stroke-linecap=\"square\" /><line x1=\"0\" y1=\"64\" x2=\"16\" y2=\"64\" stroke=\"black\" stroke-linecap=\"square\" /><line x1=\"32\" y1=\"48\" x2=\"32\" y2=\"64\" stroke=\"black\" stroke-linecap=\"square\" /><line x1=\"16\" y1=\"64\" x2=\"32\" y2=\"64\" stroke=\"black\" stroke-linecap=\"square\" /><line x1=\"48\" y1=\"48\" x2=\"48\" y2=\"64\" stroke=\"black\" stroke-linecap=\"square\" /><line x1=\"32\" y1=\"64\" x2=\"48\" y2=\"64\" stroke=\"black\" stroke-linecap=\"square\" /><line x1=\"64\" y1=\"48\" x2=\"64\" y2=\"64\" stroke=\"black\" stroke-linecap=\"square\" /><line x1=\"48\" y1=\"64\" x2=\"64\" y2=\"64\" stroke=\"black\" stroke-linecap=\"square\" /></svg>",
        svg
    );
}

#[test]
fn djikstra_grid_labels_cells_with_distances() {
    let seed = "abc12345abc";
    let mut rng: SmallRng = Seeder::from(&seed).into_rng();
    let mut grid = DjikstraGrid::new(4, 4);
    binary_tree(&mut grid, &mut rng);

    assert_eq!(
        grid.to_text(),
        "+---+---+---+---+
| 0   1   2   3 |
+---+---+---+   +
| b | a   9 | 4 |
+   +---+   +   +
| a | 9   8 | 5 |
+   +---+   +   +
| 9   8   7   6 |
+---+---+---+---+
"
    );
}

#[test]
fn contents_of_returns_the_cell_digit() {
    let seed = "abc12345abc";
    let mut rng: SmallRng = Seeder::from(&seed).into_rng();
    let mut grid = DjikstraGrid::new(4, 4);
    binary_tree(&mut grid, &mut rng);

    let c: Cell = grid.map[0];
    assert_eq!(grid.contents_of(&c), "0");
    let c: Cell = grid.map[15];
    assert_eq!(grid.contents_of(&c), "6");
    let c: Cell = grid.map[4];
    assert_eq!(grid.contents_of(&c), "b");
}

#[test]
fn uncarved_djikstra_grid_labels_only_the_root() {
    let grid = DjikstraGrid::new(2, 1);
    assert_eq!(grid.to_text(), "+---+---+\n| 0 |   |\n+---+---+\n");
}

#[test]
fn digit36_covers_both_digit_ranges() {
    assert_eq!(digit36(0), Some('0'));
    assert_eq!(digit36(9), Some('9'));
    assert_eq!(digit36(10), Some('a'));
    assert_eq!(digit36(35), Some('z'));
    assert_eq!(digit36(36), None);
    assert_eq!(digit36(-1), None);
}

#[test]
fn svg_of_single_cell_has_four_walls() {
    let grid = StandardGrid::new(1, 1);
    let svg = grid.draw();
    assert_eq!(
        svg,
        "<svg viewBox=\"0 0 16 16\" xmlns=\"http://www.w3.org/2000/svg\"><line x1=\"0\" y1=\"0\" x2=\"16\" y2=\"0\" stroke=\"black\" stroke-linecap=\"square\" /><line x1=\"0\" y1=\"0\" x2=\"0\" y2=\"16\" stroke=\"black\" stroke-linecap=\"square\" /><line x1=\"16\" y1=\"0\" x2=\"16\" y2=\"16\" stroke=\"black\" stroke-linecap=\"square\" /><line x1=\"0\" y1=\"16\" x2=\"16\" y2=\"16\" stroke=\"black\" stroke-linecap=\"square\" /></svg>"
    );
}
