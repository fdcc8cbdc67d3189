use rand::rngs::SmallRng;
use rand_seeder::Seeder;

use mazes::algos::binary_tree::binary_tree;
use mazes::distances::path_to;
use mazes::grid::StandardGrid;
use mazes::Position;

fn p(x: i32, y: i32) -> Position {
    Position { x, y }
}

#[test]
fn path_follows_the_carved_corridor() {
    let seed = "abc12345abc";
    let mut rng: SmallRng = Seeder::from(&seed).into_rng();
    let mut grid = StandardGrid::new(4, 4);
    binary_tree(&mut grid, &mut rng);

    let path = path_to(&p(0, 0), &p(3, 3), &grid.links, 4, 4).unwrap();
    assert_eq!(
        path,
        vec![p(0, 0), p(1, 0), p(2, 0), p(3, 0), p(3, 1), p(3, 2), p(3, 3)]
    );
}

#[test]
fn path_to_the_root_is_the_root_alone() {
    let grid = StandardGrid::new(3, 3);
    let path = path_to(&p(0, 0), &p(0, 0), &grid.links, 3, 3).unwrap();
    assert_eq!(path, vec![p(0, 0)]);
}

#[test]
fn path_to_an_unreachable_cell_is_absent() {
    let grid = StandardGrid::new(3, 3);
    assert!(path_to(&p(0, 0), &p(2, 2), &grid.links, 3, 3).is_none());
    assert!(path_to(&p(0, 0), &p(9, 9), &grid.links, 3, 3).is_none());
}
