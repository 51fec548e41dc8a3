use gridgames::recycler::{dist_squared, Action, Cell, Grid};

#[test]
fn get_neighbours_of_index() {
    let grid = Grid::new(3, 4);
    let i = 0;
    let expected: [Option<usize>; 4] = [None, Some(1), None, Some(3)];
    let res = grid.get_neighbours(i);
    assert_eq!(res, expected, "failed at index={}", i);
    let i = 1;
    let expected: [Option<usize>; 4] = [Some(0), Some(2), None, Some(4)];
    let res = grid.get_neighbours(i);
    assert_eq!(res, expected, "failed at index={}", i);
    let i = 2;
    let expected: [Option<usize>; 4] = [Some(1), None, None, Some(5)];
    let res = grid.get_neighbours(i);
    assert_eq!(res, expected, "failed at index={}", i);
    let i = 3;
    let expected: [Option<usize>; 4] = [None, Some(4), Some(0), Some(6)];
    let res = grid.get_neighbours(i);
    assert_eq!(res, expected, "failed at index={}", i);
    let i = 4;
    let expected: [Option<usize>; 4] = [Some(3), Some(5), Some(1), Some(7)];
    let res = grid.get_neighbours(i);
    assert_eq!(res, expected, "failed at index={}", i);
    let i = 5;
    let expected: [Option<usize>; 4] = [Some(4), None, Some(2), Some(8)];
    let res = grid.get_neighbours(i);
    assert_eq!(res, expected, "failed at index={}", i);
    let i = 9;
    let expected: [Option<usize>; 4] = [None, Some(10), Some(6), None];
    let res = grid.get_neighbours(i);
    assert_eq!(res, expected, "failed at index={}", i);
    let i = 10;
    let expected: [Option<usize>; 4] = [Some(9), Some(11), Some(7), None];
    let res = grid.get_neighbours(i);
    assert_eq!(res, expected, "failed at index={}", i);
    let i = 11;
    let expected: [Option<usize>; 4] = [Some(10), None, Some(8), None];
    let res = grid.get_neighbours(i);
    assert_eq!(res, expected, "failed at index={}", i);
}

#[test]
fn dist_sq() {
    let f = (1, 2);
    let t = (2, 3);
    assert_eq!(dist_squared(f, t), 2);
}

#[test]
fn ownership_flag() {
    let mut cell = Cell::default();
    assert!(!cell.is_mine());
    cell.owner = 1;
    assert!(cell.is_mine());
    cell.owner = -1;
    assert!(!cell.is_mine());
}

#[test]
fn get_xy_walks_row_major() {
    let grid = Grid::new(3, 4);
    assert_eq!(grid.get_xy(0), (0, 0));
    assert_eq!(grid.get_xy(2), (2, 0));
    assert_eq!(grid.get_xy(3), (0, 1));
    assert_eq!(grid.get_xy(11), (2, 3));
}

#[test]
fn spawn_picks_the_closest_cell_to_the_others() {
    let mut grid = Grid::new(3, 1);
    grid.grid[0].can_spawn = true;
    grid.grid[2].can_spawn = true;
    grid.mine = vec![0, 2];
    grid.others = vec![(2, 0)];
    // distances to (2,0): cell 0 gives 4, cell 2 gives 0.
    assert_eq!(grid.check_spawn(), Some(Action::Spawn(1, 2, 0)));
    grid.my_matter = 9;
    assert_eq!(grid.check_spawn(), None);
}

#[test]
fn spawn_needs_a_spawnable_cell() {
    let mut grid = Grid::new(3, 1);
    grid.mine = vec![0, 1, 2];
    grid.others = vec![(0, 0)];
    assert_eq!(grid.check_spawn(), None);
}

#[test]
fn move_heads_for_the_densest_opposing_cell() {
    let mut grid = Grid::new(4, 1);
    grid.others = vec![(0, 0), (3, 0)];
    // totals: (0,0) -> 9, (3,0) -> 9: the first wins the tie.
    assert_eq!(
        grid.check_move((1, 0), 2),
        Some(Action::Move(2, 1, 0, 0, 0))
    );
}

#[test]
fn build_needs_a_full_neighbourhood_of_lighter_scrap() {
    let mut grid = Grid::new(3, 3);
    for i in 0..9 {
        grid.grid[i].scrap_amount = 1;
    }
    grid.grid[4].scrap_amount = 2;
    grid.grid[4].can_build = true;
    grid.mine = vec![4];
    assert_eq!(grid.check_build(), Some(Action::Build(1, 1)));
    // a corner can never build: it is missing neighbours.
    grid.grid[0].can_build = true;
    grid.mine = vec![0];
    assert_eq!(grid.check_build(), None);
    // a heavier neighbour blocks the build.
    grid.grid[1].scrap_amount = 3;
    grid.mine = vec![4];
    assert_eq!(grid.check_build(), None);
}
