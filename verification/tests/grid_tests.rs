use mazes::cell::{Cell, Neighbours};
use mazes::grid::{Grid, StandardGrid};
use mazes::{Direction, Position};

fn cell(
    x: i32,
    y: i32,
    north: Option<(i32, i32)>,
    east: Option<(i32, i32)>,
    south: Option<(i32, i32)>,
    west: Option<(i32, i32)>,
) -> Cell {
    let pos = |p: Option<(i32, i32)>| p.map(|(px, py)| Position { x: px, y: py });
    Cell {
        position: Position { x, y },
        neighbours: Neighbours {
            north: pos(north),
            east: pos(east),
            south: pos(south),
            west: pos(west),
        },
    }
}

#[test]
fn it_should_create_grid() {
    let grid = StandardGrid::new(4, 4);
    assert_eq!(
        grid,
        StandardGrid {
            links: vec![vec![]; 16],
            width: 4,
            height: 4,
            map: vec![
                cell(0, 0, None, Some((1, 0)), Some((0, 1)), None),
                cell(1, 0, None, Some((2, 0)), Some((1, 1)), Some((0, 0))),
                cell(2, 0, None, Some((3, 0)), Some((2, 1)), Some((1, 0))),
                cell(3, 0, None, None, Some((3, 1)), Some((2, 0))),
                cell(0, 1, Some((0, 0)), Some((1, 1)), Some((0, 2)), None),
                cell(1, 1, Some((1, 0)), Some((2, 1)), Some((1, 2)), Some((0, 1))),
                cell(2, 1, Some((2, 0)), Some((3, 1)), Some((2, 2)), Some((1, 1))),
                cell(3, 1, Some((3, 0)), None, Some((3, 2)), Some((2, 1))),
                cell(0, 2, Some((0, 1)), Some((1, 2)), Some((0, 3)), None),
                cell(1, 2, Some((1, 1)), Some((2, 2)), Some((1, 3)), Some((0, 2))),
                cell(2, 2, Some((2, 1)), Some((3, 2)), Some((2, 3)), Some((1, 2))),
                cell(3, 2, Some((3, 1)), None, Some((3, 3)), Some((2, 2))),
                cell(0, 3, Some((0, 2)), Some((1, 3)), None, None),
                cell(1, 3, Some((1, 2)), Some((2, 3)), None, Some((0, 3))),
                cell(2, 3, Some((2, 2)), Some((3, 3)), None, Some((1, 3))),
                cell(3, 3, Some((3, 2)), None, None, Some((2, 3))),
            ],
        }
    );
}

#[test]
fn it_should_link_cells() {
    let mut container = StandardGrid::new(4, 4);

    let start = container.map[0].position;
    let next_cell_pos = container.map[1].position;
    container.link(&start, &next_cell_pos);

    let start = container.map[7].position;
    let next_cell_pos = container.map[11].position;
    container.link(&start, &next_cell_pos);
    let next_cell_pos = container.map[6].position;
    container.link(&start, &next_cell_pos);

    let mut links: Vec<Vec<Position>> = vec![vec![]; 16];
    links[0] = vec![Position { x: 1, y: 0 }];
    links[7] = vec![Position { x: 3, y: 2 }, Position { x: 2, y: 1 }];

    assert_eq!(links, container.links);
}

#[test]
fn it_should_display_ascii() {
    let mut grid = StandardGrid::new(4, 4);
    assert_eq!(
        grid.to_text(),
        "+---+---+---+---+
|   |   |   |   |
+---+---+---+---+
|   |   |   |   |
+---+---+---+---+
|   |   |   |   |
+---+---+---+---+
|   |   |   |   |
+---+---+---+---+
"
    );

    // note have to connect earlier cell to later
    let start = grid.map[0].position;
    let next_cell_pos = grid.map[1].position;
    grid.link(&start, &next_cell_pos);

    let start = grid.map[7].position;
    let next_cell_pos = grid.map[11].position;
    grid.link(&start, &next_cell_pos);

    assert_eq!(
        grid.to_text(),
        "+---+---+---+---+
|       |   |   |
+---+---+---+---+
|   |   |   |   |
+---+---+---+   +
|   |   |   |   |
+---+---+---+---+
|   |   |   |   |
+---+---+---+---+
"
    );
}

#[test]
fn neighbour_lookup_matches_table() {
    let grid = StandardGrid::new(3, 2);
    let c = grid.map[0];
    assert_eq!(c.neighbour(Direction::North), None);
    assert_eq!(c.neighbour(Direction::West), None);
    assert_eq!(c.neighbour(Direction::East), Some(Position { x: 1, y: 0 }));
    assert_eq!(c.neighbour(Direction::South), Some(Position { x: 0, y: 1 }));
    assert_eq!(
        c.get_neighbours(),
        vec![Position { x: 1, y: 0 }, Position { x: 0, y: 1 }]
    );
}

#[test]
fn is_linked_is_directional_per_recorded_entry() {
    let mut grid = StandardGrid::new(2, 1);
    let a = Position { x: 0, y: 0 };
    let b = Position { x: 1, y: 0 };
    assert!(!grid.is_linked(&a, &b));
    grid.link(&a, &b);
    assert!(grid.is_linked(&a, &b));
    assert!(!grid.is_linked(&b, &a));
    assert!(!grid.is_linked(&Position { x: 7, y: 7 }, &a));
}

#[test]
fn grid_queries() {
    let grid = StandardGrid::new(3, 2);
    assert_eq!(grid.size(), 6);
    let c = grid.cell_at(&Position { x: 2, y: 1 }).unwrap();
    assert_eq!(c.position, Position { x: 2, y: 1 });
    assert!(grid.cell_at(&Position { x: 3, y: 0 }).is_none());
    let r = grid.random_cell();
    assert!(r.position.x >= 0 && r.position.x < 3);
    assert!(r.position.y >= 0 && r.position.y < 2);
}

#[test]
fn one_by_one_grid_has_no_links_and_four_walls() {
    let grid = StandardGrid::new(1, 1);
    assert_eq!(grid.map.len(), 1);
    assert_eq!(grid.map[0].neighbours.north, None);
    assert_eq!(grid.map[0].neighbours.east, None);
    assert_eq!(grid.map[0].neighbours.south, None);
    assert_eq!(grid.map[0].neighbours.west, None);
    assert_eq!(grid.links, vec![Vec::<Position>::new()]);
    assert_eq!(grid.to_text(), "+---+\n|   |\n+---+\n");
}
