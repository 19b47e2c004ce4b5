use maze::coords::Coords;
use maze::gen::generate;
use maze::grid::{Cell, Grid, Wall};

#[test]
fn neighbors_x() {
    let non_x_border_coords = Coords::from(1, 0);
    let x_border_coords = Coords::from(0, 0);
    assert_eq!(
        non_x_border_coords.get_x_neighbors(10),
        vec![Coords::from(0, 0), Coords::from(2, 0)]
    );
    assert_eq!(
        x_border_coords.get_x_neighbors(10),
        vec![Coords::from(1, 0)]
    )
}

#[test]
fn neighbors_y() {
    let non_y_border_coords = Coords::from(0, 1);
    let y_border_coords = Coords::from(0, 0);
    assert_eq!(
        non_y_border_coords.get_y_neighbors(10),
        vec![Coords::from(0, 0), Coords::from(0, 2)]
    );
    assert_eq!(
        y_border_coords.get_y_neighbors(10),
        vec![Coords::from(0, 1)]
    )
}

#[test]
fn to_idx() {
    let idx = Coords::from(0, 1).to_index(2);

    assert_eq!(idx, 2);
}

#[test]
fn disp_cell() {
    let mut cell = Cell::init(0, 0);
    cell.mark_revealed();
    assert_eq!(cell.render(), "###\n#.#\n###\n")
}

#[test]
fn disp_cell_top() {
    let mut cell = Cell::init(0, 0);
    cell.open(0);
    assert_eq!(cell.render(), "#.#\n###\n###\n")
}

#[test]
fn disp_grid() {
    let expected_string = "######\n#.##.#\n######\n######\n#.##.#\n######\n";
    let mut grid = Grid::new(2, 2);
    for cell in &mut grid.cells {
        cell.mark_revealed();
    }
    assert_eq!(grid.render(), expected_string)
}

#[test]
fn to_idx_row_major() {
    assert_eq!(Coords::from(1, 1).to_index(2), 3);
    assert_eq!(Coords::from(0, 0).to_index(2), 0);
}

#[test]
fn wall_to_all_directions() {
    let center = Coords::from(1, 1);
    assert_eq!(center.wall_to(&Coords::from(1, 0)), 0);
    assert_eq!(center.wall_to(&Coords::from(2, 1)), 1);
    assert_eq!(center.wall_to(&Coords::from(1, 2)), 2);
    assert_eq!(center.wall_to(&Coords::from(0, 1)), 3);
}

#[test]
fn wall_to_involution() {
    let a = Coords::from(1, 1);
    let around = [
        Coords::from(1, 0),
        Coords::from(2, 1),
        Coords::from(1, 2),
        Coords::from(0, 1),
    ];
    for b in around {
        let d = a.wall_to(&b);
        assert_eq!(b.wall_to(&a), (d + 2) % 4);
    }
}

#[test]
fn wall_neighbor_coords_edges() {
    let grid = Grid::new(3, 3);
    let corner = Coords::from(0, 0);
    assert_eq!(corner.get_wall_neighbor_coords(0, &grid), None);
    assert_eq!(corner.get_wall_neighbor_coords(3, &grid), None);
    assert_eq!(
        corner.get_wall_neighbor_coords(1, &grid),
        Some(Coords::from(1, 0))
    );
    assert_eq!(
        corner.get_wall_neighbor_coords(2, &grid),
        Some(Coords::from(0, 1))
    );
}

#[test]
fn all_neighbors_order_and_bounds() {
    let grid = Grid::new(10, 10);
    let inner = Coords::from(3, 4);
    let nbors = inner.get_all_neighbors(&grid);
    assert_eq!(
        nbors,
        vec![
            Coords::from(2, 4),
            Coords::from(4, 4),
            Coords::from(3, 3),
            Coords::from(3, 5),
        ]
    );
    for n in &nbors {
        assert!(n.x >= 0 && n.x < 10 && n.y >= 0 && n.y < 10);
    }
}

#[test]
fn open_wall_mutates_both_sides() {
    let mut grid = Grid::new(2, 2);
    let a = Coords::from(0, 0);
    grid.open_wall_at(&a, 1);
    let cell_a = grid.get_at(&a).unwrap();
    let cell_b = grid.get_at(&Coords::from(1, 0)).unwrap();
    assert!(matches!(cell_a.walls[1], Wall::Empty));
    assert!(matches!(cell_b.walls[3], Wall::Empty));
    assert!(cell_a.revealed);
    assert!(cell_b.revealed);
    assert!(matches!(cell_a.walls[0], Wall::Filled));
    assert!(matches!(cell_a.walls[2], Wall::Filled));
    assert!(matches!(cell_a.walls[3], Wall::Filled));
}

#[test]
fn get_at_out_of_range() {
    let grid = Grid::new(2, 2);
    assert!(grid.get_at(&Coords::from(1, 5)).is_none());
    assert!(grid.get_at(&Coords::from(1, 1)).is_some());
}

#[test]
fn unvisited_neighbors_shrink_and_empty() {
    let mut grid = Grid::new(2, 2);
    let origin = Coords::from(0, 0);
    let nbors = grid.get_unvisited_neighbors_at(&origin).unwrap();
    assert_eq!(nbors, vec![Coords::from(1, 0), Coords::from(0, 1)]);
    grid.reveal_at(&Coords::from(1, 0));
    let nbors = grid.get_unvisited_neighbors_at(&origin).unwrap();
    assert_eq!(nbors, vec![Coords::from(0, 1)]);
    grid.reveal_at(&Coords::from(0, 1));
    assert_eq!(grid.get_unvisited_neighbors_at(&origin), None);
}

#[test]
fn reveal_at_marks_cell() {
    let mut grid = Grid::new(3, 1);
    let at = Coords::from(2, 0);
    assert!(!grid.get_at(&at).unwrap().revealed);
    grid.reveal_at(&at);
    assert!(grid.get_at(&at).unwrap().revealed);
    assert!(!grid.get_at(&Coords::from(0, 0)).unwrap().revealed);
}

fn count_connections(grid: &Grid) -> usize {
    let mut edges = 0;
    for y in 0..grid.height {
        for x in 0..grid.width {
            let cell = grid.get_at(&Coords::from(x, y)).unwrap();
            if x + 1 < grid.width && matches!(cell.walls[1], Wall::Empty) {
                edges += 1;
            }
            if y + 1 < grid.height && matches!(cell.walls[2], Wall::Empty) {
                edges += 1;
            }
        }
    }
    edges
}

#[test]
fn generate_perfect_maze_counts() {
    let grid = generate(4, 3);
    for y in 0..3 {
        for x in 0..4 {
            assert!(grid.get_at(&Coords::from(x, y)).unwrap().revealed);
        }
    }
    assert_eq!(count_connections(&grid), 4 * 3 - 1);
}

#[test]
fn generate_walls_agree() {
    let grid = generate(5, 4);
    for y in 0..4 {
        for x in 0..5 {
            let cell = grid.get_at(&Coords::from(x, y)).unwrap();
            if x + 1 < 5 {
                let right = grid.get_at(&Coords::from(x + 1, y)).unwrap();
                assert_eq!(
                    matches!(cell.walls[1], Wall::Empty),
                    matches!(right.walls[3], Wall::Empty)
                );
            }
            if y + 1 < 4 {
                let below = grid.get_at(&Coords::from(x, y + 1)).unwrap();
                assert_eq!(
                    matches!(cell.walls[2], Wall::Empty),
                    matches!(below.walls[0], Wall::Empty)
                );
            }
        }
    }
}

#[test]
fn generate_single_cell() {
    let grid = generate(1, 1);
    assert_eq!(count_connections(&grid), 0);
    assert_eq!(grid.render(), "###\n#.#\n###\n");
}
