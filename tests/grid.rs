use random_walk::{Grid, GridError, Node};

fn floor_count(grid: &Grid) -> usize {
    grid.nodes.iter().filter(|&&n| n == Node::Floor).count()
}

#[test]
fn test_grid_initialization() {
    let grid = Grid::new(10, 10);
    assert_eq!(grid.width, 10);
    assert_eq!(grid.height, 10);
    assert_eq!(grid.nodes.len(), 100);
    for node in grid.nodes {
        assert_eq!(node, Node::Wall);
    }
}

#[test]
fn test_set_and_get_node() {
    let mut grid = Grid::new(10, 10);
    grid.set_node(1, 1, Node::Floor);
    assert_eq!(grid.get_node(1, 1), Some(Node::Floor));
    assert_eq!(grid.get_node(0, 0), Some(Node::Wall));
    assert_eq!(grid.get_node(10, 10), None);
}

#[test]
fn test_random_walk() {
    let mut grid = Grid::new(10, 10);
    grid.random_walk(5, 5, 20);

    let floor_count = grid.nodes.iter().filter(|&&n| n == Node::Floor).count();
    assert!(floor_count > 0, "There should be at least one floor node");
}

#[test]
fn test_generate_dungeon() {
    let mut grid = Grid::new(20, 20);
    assert!(grid.generate_dungeon(10, 50).is_ok());

    let floor_count = grid.nodes.iter().filter(|&&n| n == Node::Floor).count();
    assert!(
        floor_count > 50,
        "There should be a significant number of floor nodes"
    );
}

#[test]
fn empty_grids_have_no_tiles() {
    let grid = Grid::new(0, 5);
    assert_eq!(grid.nodes.len(), 0);
    assert_eq!(grid.get_node(0, 0), None);
    let grid = Grid::new(7, 0);
    assert_eq!(grid.nodes.len(), 0);
    assert_eq!(grid.get_node(3, 0), None);
}

#[test]
fn fresh_grid_is_all_wall() {
    let grid = Grid::new(4, 3);
    assert_eq!(grid.nodes.len(), 12);
    for y in 0..3 {
        for x in 0..4 {
            assert_eq!(grid.get_node(x, y), Some(Node::Wall));
        }
    }
}

#[test]
fn get_is_absent_past_either_edge() {
    let grid = Grid::new(4, 3);
    assert_eq!(grid.get_node(4, 0), None);
    assert_eq!(grid.get_node(0, 3), None);
    assert_eq!(grid.get_node(3, 2), Some(Node::Wall));
    assert_eq!(grid.get_node(usize::MAX, usize::MAX), None);
}

#[test]
fn set_writes_row_major() {
    let mut grid = Grid::new(4, 3);
    grid.set_node(3, 1, Node::Floor);
    assert_eq!(grid.nodes[1 * 4 + 3], Node::Floor);
    assert_eq!(floor_count(&grid), 1);
    assert_eq!(grid.get_node(1, 3), None);
}

#[test]
fn set_off_grid_does_nothing() {
    let mut grid = Grid::new(4, 3);
    grid.set_node(4, 0, Node::Floor);
    grid.set_node(0, 3, Node::Floor);
    assert_eq!(floor_count(&grid), 0);
}

#[test]
fn last_write_wins() {
    let mut grid = Grid::new(5, 5);
    grid.set_node(2, 3, Node::Floor);
    grid.set_node(3, 2, Node::Floor);
    grid.set_node(2, 3, Node::Wall);
    assert_eq!(grid.get_node(2, 3), Some(Node::Wall));
    assert_eq!(grid.get_node(3, 2), Some(Node::Floor));
    grid.set_node(2, 3, Node::Floor);
    assert_eq!(grid.get_node(2, 3), Some(Node::Floor));
}

#[test]
fn carve_walk_skips_moves_off_the_grid() {
    let mut grid = Grid::new(3, 1);
    grid.carve_walk(0, 0, &vec![1, 1, 1, 0, 2, 3]);
    assert_eq!(grid.get_node(0, 0), Some(Node::Floor));
    assert_eq!(grid.get_node(1, 0), Some(Node::Floor));
    assert_eq!(grid.get_node(2, 0), Some(Node::Floor));
    assert_eq!(floor_count(&grid), 3);
}

#[test]
fn carve_walk_follows_each_direction() {
    let mut grid = Grid::new(5, 5);
    // left, up, right, right, down, down
    grid.carve_walk(2, 2, &vec![0, 2, 1, 1, 3, 3]);
    let floors = [(2, 2), (1, 2), (1, 1), (2, 1), (3, 1), (3, 2), (3, 3)];
    for &(x, y) in floors.iter() {
        assert_eq!(grid.get_node(x, y), Some(Node::Floor));
    }
    assert_eq!(floor_count(&grid), 7);
}

#[test]
fn carve_walk_blocked_at_border_does_not_move() {
    let mut grid = Grid::new(5, 5);
    // two lefts from x = 1 reach the border; the third is skipped, so the
    // following right lands on x = 1 again
    grid.carve_walk(1, 4, &vec![0, 0, 3, 1]);
    assert_eq!(grid.get_node(0, 4), Some(Node::Floor));
    assert_eq!(grid.get_node(1, 4), Some(Node::Floor));
    assert_eq!(grid.get_node(2, 4), Some(Node::Wall));
    assert_eq!(floor_count(&grid), 2);
}

#[test]
fn carve_walk_ignores_unknown_directions() {
    let mut grid = Grid::new(5, 5);
    grid.carve_walk(2, 2, &vec![4, 7, 255]);
    assert_eq!(floor_count(&grid), 1);
    assert_eq!(grid.get_node(2, 2), Some(Node::Floor));
}

#[test]
fn carve_walk_with_no_steps_marks_start() {
    let mut grid = Grid::new(5, 5);
    grid.carve_walk(4, 0, &vec![]);
    assert_eq!(grid.get_node(4, 0), Some(Node::Floor));
    assert_eq!(floor_count(&grid), 1);
}

#[test]
fn random_walk_floor_count_is_bounded_by_steps() {
    for _ in 0..20 {
        let mut grid = Grid::new(10, 10);
        grid.random_walk(5, 5, 20);
        assert_eq!(grid.get_node(5, 5), Some(Node::Floor));
        let n = floor_count(&grid);
        assert!(n >= 1 && n <= 21);
    }
}

#[test]
fn random_walk_from_corner_stays_on_grid() {
    let mut grid = Grid::new(2, 2);
    grid.random_walk(0, 0, 200);
    assert_eq!(grid.nodes.len(), 4);
    assert_eq!(grid.get_node(0, 0), Some(Node::Floor));
    assert!(floor_count(&grid) <= 4);
}

#[test]
fn random_walk_on_single_tile() {
    let mut grid = Grid::new(1, 1);
    grid.random_walk(0, 0, 50);
    assert_eq!(floor_count(&grid), 1);
}

#[test]
fn generate_rejects_narrow_grid() {
    let mut grid = Grid::new(2, 10);
    assert_eq!(grid.generate_dungeon(5, 5), Err(GridError::InvalidDimensions));
    assert_eq!(floor_count(&grid), 0);
    assert_eq!(grid.nodes.len(), 20);
}

#[test]
fn generate_rejects_low_grid() {
    let mut grid = Grid::new(10, 2);
    grid.set_node(4, 1, Node::Floor);
    assert_eq!(grid.generate_dungeon(5, 5), Err(GridError::InvalidDimensions));
    assert_eq!(floor_count(&grid), 1);
    assert_eq!(grid.get_node(4, 1), Some(Node::Floor));
}

#[test]
fn generate_rejects_empty_grid() {
    let mut grid = Grid::new(0, 0);
    assert_eq!(grid.generate_dungeon(1, 1), Err(GridError::InvalidDimensions));
}

#[test]
fn generate_on_smallest_grid() {
    let mut grid = Grid::new(3, 3);
    assert_eq!(grid.generate_dungeon(1, 1), Ok(()));
    assert_eq!(grid.get_node(1, 1), Some(Node::Floor));
    let n = floor_count(&grid);
    assert!(n >= 1 && n <= 2);
}

#[test]
fn generate_with_no_walks_carves_nothing() {
    let mut grid = Grid::new(10, 10);
    assert_eq!(grid.generate_dungeon(0, 100), Ok(()));
    assert_eq!(floor_count(&grid), 0);
}

#[test]
fn generate_floor_count_is_bounded() {
    for _ in 0..20 {
        let mut grid = Grid::new(20, 20);
        assert_eq!(grid.generate_dungeon(3, 4), Ok(()));
        let n = floor_count(&grid);
        assert!(n >= 1 && n <= 3 * 5);
    }
}

#[test]
fn generate_draws_varied_starts() {
    // thirty walks of no steps each mark only their start; one start drawn
    // again and again would leave a single floor tile
    let mut grid = Grid::new(20, 20);
    assert_eq!(grid.generate_dungeon(30, 0), Ok(()));
    assert!(floor_count(&grid) > 1);
    for i in 0..20 {
        assert_eq!(grid.get_node(i, 0), Some(Node::Wall));
        assert_eq!(grid.get_node(0, i), Some(Node::Wall));
        assert_eq!(grid.get_node(i, 19), Some(Node::Wall));
        assert_eq!(grid.get_node(19, i), Some(Node::Wall));
    }
}

#[test]
fn generate_usually_carves_more_than_fifty() {
    let mut above = 0;
    for _ in 0..20 {
        let mut grid = Grid::new(20, 20);
        assert_eq!(grid.generate_dungeon(10, 50), Ok(()));
        if floor_count(&grid) > 50 {
            above += 1;
        }
    }
    assert!(above >= 18);
}

#[test]
fn more_walking_carves_more_on_average() {
    let mut small = 0;
    let mut large = 0;
    for _ in 0..10 {
        let mut a = Grid::new(20, 20);
        assert_eq!(a.generate_dungeon(1, 10), Ok(()));
        small += floor_count(&a);
        let mut b = Grid::new(20, 20);
        assert_eq!(b.generate_dungeon(10, 100), Ok(()));
        large += floor_count(&b);
    }
    assert!(large > small);
}
