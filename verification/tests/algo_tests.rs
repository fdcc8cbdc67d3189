use rand::rngs::SmallRng;
use rand_seeder::Seeder;

use mazes::algos::binary_tree::{binary_tree, binary_tree_apply, BinaryTree};
use mazes::algos::sidewinder::{sidewinder, Sidewinder};
use mazes::distances::distances;
use mazes::grid::StandardGrid;
use mazes::Position;

#[test]
fn binary_tree_should_generate_maze() {
    let seed = "abc12345abc";
    let mut rng: SmallRng = Seeder::from(&seed).into_rng();
    let mut container = StandardGrid::new(4, 4);
    binary_tree(&mut container, &mut rng);

    assert_eq!(
        container.to_text(),
        "+---+---+---+---+
|               |
+---+---+---+   +
|   |       |   |
+   +---+   +   +
|   |       |   |
+   +---+   +   +
|               |
+---+---+---+---+
"
    );
}

#[test]
fn sidewinder_should_generate_maze() {
    let seed = "abc12345abc";
    let mut rng: SmallRng = Seeder::from(&seed).into_rng();
    let mut container = StandardGrid::new(4, 4);
    sidewinder(&mut container, &mut rng);

    assert_eq!(
        container.to_text(),
        "+---+---+---+---+
|               |
+---+   +---+---+
|   |   |   |   |
+   +   +   +   +
|   |   |       |
+   +   +   +---+
|               |
+---+---+---+---+
"
    );
}

#[test]
fn distances_it_should_find_distances() {
    let mut grid = StandardGrid::new(4, 4);
    let seed = "abc12345abc";
    let mut rng: SmallRng = Seeder::from(&seed).into_rng();
    sidewinder(&mut grid, &mut rng);

    let dist = distances(&grid.map[0].position, &grid.links, 4, 4);

    let expected: Vec<Option<i32>> = vec![
        Some(0),
        Some(1),
        Some(2),
        Some(3),
        Some(7),
        Some(2),
        Some(7),
        Some(8),
        Some(6),
        Some(3),
        Some(6),
        Some(7),
        Some(5),
        Some(4),
        Some(5),
        Some(6),
    ];
    assert_eq!(dist, expected);
}

#[test]
fn carving_twice_with_one_seed_gives_identical_mazes() {
    for algo in 0..2 {
        let mut first = StandardGrid::new(5, 7);
        let mut second = StandardGrid::new(5, 7);
        let mut rng1: SmallRng = Seeder::from("determinism-check").into_rng();
        let mut rng2: SmallRng = Seeder::from("determinism-check").into_rng();
        if algo == 0 {
            binary_tree(&mut first, &mut rng1);
            binary_tree(&mut second, &mut rng2);
        } else {
            sidewinder(&mut first, &mut rng1);
            sidewinder(&mut second, &mut rng2);
        }
        assert_eq!(first.links, second.links);
        assert_eq!(first.to_text(), second.to_text());
    }
}

#[test]
fn changing_the_seed_changes_the_rendering() {
    let mut a = StandardGrid::new(6, 6);
    let mut b = StandardGrid::new(6, 6);
    let mut rng_a: SmallRng = Seeder::from("seed-one").into_rng();
    let mut rng_b: SmallRng = Seeder::from("seed-two").into_rng();
    binary_tree(&mut a, &mut rng_a);
    binary_tree(&mut b, &mut rng_b);
    assert_ne!(a.to_text(), b.to_text());
}

#[test]
fn carving_makes_a_spanning_tree() {
    for (w, h) in [(1i32, 1i32), (1, 6), (6, 1), (5, 4)] {
        for algo in 0..2 {
            let mut grid = StandardGrid::new(w, h);
            let mut rng: SmallRng = Seeder::from("spanning-check").into_rng();
            if algo == 0 {
                binary_tree(&mut grid, &mut rng);
            } else {
                sidewinder(&mut grid, &mut rng);
            }
            let n = (w * h) as usize;
            // Exactly n - 1 passages, each recorded in both directions.
            let total: usize = grid.links.iter().map(|l| l.len()).sum();
            assert_eq!(total, 2 * (n - 1));
            for (i, entry) in grid.links.iter().enumerate() {
                let x = (i as i32) % w;
                let y = (i as i32) / w;
                for p in entry {
                    // Every passage joins in-bounds adjacent cells, both ways.
                    assert!(p.x >= 0 && p.x < w && p.y >= 0 && p.y < h);
                    assert_eq!((p.x - x).abs() + (p.y - y).abs(), 1);
                    let back = &grid.links[(p.y * w + p.x) as usize];
                    assert!(back.contains(&Position { x, y }));
                }
            }
            // Every cell is reachable from the root: BFS assigns it a count.
            let dist = distances(&Position { x: 0, y: 0 }, &grid.links, w, h);
            assert!(dist.iter().all(|d| d.is_some()));
        }
    }
}

#[test]
fn binary_tree_apply_is_a_function_of_the_draws() {
    // Cell (0, 0) draws its second candidate (east), (1, 0) and (0, 1)
    // their only one; the corner draws nothing.
    let mut grid = StandardGrid::new(2, 2);
    binary_tree_apply(&mut grid, &vec![1, 0, 0, 0]);
    assert_eq!(
        grid.to_text(),
        "+---+---+\n|       |\n+---+   +\n|       |\n+---+---+\n"
    );

    let mut again = StandardGrid::new(2, 2);
    binary_tree_apply(&mut again, &vec![1, 0, 0, 0]);
    assert_eq!(grid.links, again.links);

    // The first candidate of (0, 0) is its south neighbour.
    let mut other = StandardGrid::new(2, 2);
    binary_tree_apply(&mut other, &vec![0, 0, 0, 0]);
    assert!(other.links[0].contains(&Position { x: 0, y: 1 }));
    assert!(!other.links[0].contains(&Position { x: 1, y: 0 }));
}

#[test]
fn on_carves_a_spanning_tree_from_thread_randomness() {
    let mut grid = StandardGrid::new(4, 3);
    BinaryTree::on(&mut grid);
    let total: usize = grid.links.iter().map(|l| l.len()).sum();
    assert_eq!(total, 2 * 11);

    let mut grid = StandardGrid::new(4, 3);
    Sidewinder::on(&mut grid);
    let total: usize = grid.links.iter().map(|l| l.len()).sum();
    assert_eq!(total, 2 * 11);
    let dist = distances(&Position { x: 0, y: 0 }, &grid.links, 4, 3);
    assert!(dist.iter().all(|d| d.is_some()));
}

#[test]
fn one_by_one_grid_carves_no_links() {
    let mut grid = StandardGrid::new(1, 1);
    let mut rng: SmallRng = Seeder::from("tiny").into_rng();
    binary_tree(&mut grid, &mut rng);
    assert_eq!(grid.links, vec![Vec::<Position>::new()]);
    let mut rng2: SmallRng = Seeder::from("tiny").into_rng();
    sidewinder(&mut grid, &mut rng2);
    assert_eq!(grid.links, vec![Vec::<Position>::new()]);
}
