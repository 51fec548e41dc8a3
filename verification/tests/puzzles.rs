use gridgames::bisect::{new_mid, BombDir, BombSearch};
use gridgames::forest;
use gridgames::labyrinth::{Kirk, Maze, Move, Point};
use gridgames::lakes;
use gridgames::lakes::LakeMap;
use gridgames::spreadsheet::{Arg, Op, Operation, Spreadsheet};

fn forest_board() -> forest::Board {
    let mut cells = Vec::new();
    for i in 0..37 {
        let richness = if i == 0 { 3 } else if i < 7 { 2 } else { 1 };
        cells.push(forest::Cell::new(i as i32, richness, [0; 6]));
    }
    forest::Board::new(cells)
}

#[test]
fn richness_points_scale_by_two() {
    let mut cells = Vec::new();
    for i in 0..37 {
        cells.push(forest::Cell::new(i as i32, (i % 4) as i32, [0; 6]));
    }
    let board = forest::Board::new(cells);
    assert_eq!(board.get_cell_richness_points(0), 0);
    assert_eq!(board.get_cell_richness_points(1), 0);
    assert_eq!(board.get_cell_richness_points(2), 2);
    assert_eq!(board.get_cell_richness_points(3), 4);
}

#[test]
fn reset_trees_clears_every_cell() {
    let mut board = forest_board();
    board.board[3].tree = Some(forest::Tree::new(3, 2, true, false));
    board.reset_trees();
    for cell in board.board.iter() {
        assert!(cell.tree.is_none());
    }
}

#[test]
fn tree_size_finds_the_first_match() {
    let game = forest::Game {
        day: 0,
        nutrients: 20,
        board: forest_board(),
        trees: vec![
            forest::Tree::new(5, 2, true, false),
            forest::Tree::new(5, 3, false, false),
        ],
        actions: Vec::new(),
        me: forest::Player::new(),
        opponent: forest::Player::new(),
        ntree0: 0,
        ntree1: 0,
        ntree2: 0,
        ntree3: 0,
    };
    assert_eq!(game.get_tree_size(5), 2);
    assert_eq!(game.get_tree_size(9), 0);
}

#[test]
fn naive_move_prefers_a_late_completion() {
    let game = forest::Game {
        day: 21,
        nutrients: 10,
        board: forest_board(),
        trees: Vec::new(),
        actions: vec![
            forest::Action::new(forest::Command::Wait, -1, -1),
            forest::Action::new(forest::Command::Complete, 0, -1),
        ],
        me: forest::Player::new(),
        opponent: forest::Player::new(),
        ntree0: 0,
        ntree1: 0,
        ntree2: 0,
        ntree3: 0,
    };
    // waiting gains 1; completing cell 0 gains 10 + 4.
    assert_eq!(game.naive_move(), 1);
}

#[test]
fn naive_move_defaults_to_the_first_action() {
    let game = forest::Game {
        day: 0,
        nutrients: 10,
        board: forest_board(),
        trees: Vec::new(),
        actions: vec![
            forest::Action::new(forest::Command::Complete, 0, -1),
            forest::Action::new(forest::Command::Complete, 1, -1),
        ],
        me: forest::Player::new(),
        opponent: forest::Player::new(),
        ntree0: 0,
        ntree1: 0,
        ntree2: 0,
        ntree3: 0,
    };
    // on day 0 with no grown trees a completion is not allowed, so both
    // actions keep the baseline gain and index 0 stays.
    assert_eq!(game.naive_move(), 0);
}

#[test]
fn tally_counts_only_this_players_trees() {
    let mut game = forest::Game {
        day: 0,
        nutrients: 20,
        board: forest_board(),
        trees: vec![
            forest::Tree::new(0, 0, true, false),
            forest::Tree::new(1, 1, true, false),
            forest::Tree::new(2, 1, true, true),
            forest::Tree::new(3, 3, false, false),
            forest::Tree::new(4, 3, true, false),
        ],
        actions: Vec::new(),
        me: forest::Player::new(),
        opponent: forest::Player::new(),
        ntree0: 9,
        ntree1: 9,
        ntree2: 9,
        ntree3: 9,
    };
    game.tally_trees();
    assert_eq!(game.ntree0, 1);
    assert_eq!(game.ntree1, 2);
    assert_eq!(game.ntree2, 0);
    assert_eq!(game.ntree3, 1);
}

#[test]
fn game_reset_clears_the_turn() {
    let mut game = forest::Game {
        day: 3,
        nutrients: 20,
        board: forest_board(),
        trees: vec![forest::Tree::new(1, 1, true, false)],
        actions: vec![forest::Action::new(forest::Command::Wait, -1, -1)],
        me: forest::Player::new(),
        opponent: forest::Player::new(),
        ntree0: 1,
        ntree1: 1,
        ntree2: 0,
        ntree3: 0,
    };
    game.board.board[1].tree = Some(forest::Tree::new(1, 1, true, false));
    game.reset();
    assert_eq!(game.trees.len(), 0);
    assert_eq!(game.actions.len(), 0);
    assert_eq!(game.ntree0, 0);
    assert!(game.board.board[1].tree.is_none());
}

#[test]
fn midpoint_bisects_towards_the_lower_end() {
    assert_eq!(new_mid(10, 2), 6);
    assert_eq!(new_mid(5, 5), 5);
    assert_eq!(new_mid(7, 0), 3);
}

#[test]
fn bomb_search_halves_the_window() {
    let mut s = BombSearch::new(10, 10, 5, 5);
    s.step(BombDir::Up);
    assert_eq!(s.maxy, 4);
    assert_eq!(s.y, 2);
    assert_eq!(s.x, 5);
    s.step(BombDir::DownRight);
    assert_eq!(s.minx, 6);
    assert_eq!(s.x, 7);
    assert_eq!(s.miny, 3);
    assert_eq!(s.y, 3);
}

#[test]
fn spreadsheet_resolves_references_in_any_order() {
    let mut sheet = Spreadsheet::new(3);
    sheet.load(vec![
        Op::new(0, Operation::Add, Arg::Refs(1), Arg::Val(4)),
        Op::new(1, Operation::Val, Arg::Val(3), Arg::Empty),
        Op::new(2, Operation::Mult, Arg::Refs(0), Arg::Refs(1)),
    ]);
    assert!(sheet.solve());
    assert_eq!(sheet.data, vec![Some(7), Some(3), Some(21)]);
}

#[test]
fn spreadsheet_subtraction() {
    let mut sheet = Spreadsheet::new(2);
    sheet.load(vec![
        Op::new(0, Operation::Val, Arg::Val(9), Arg::Empty),
        Op::new(1, Operation::Sub, Arg::Refs(0), Arg::Val(14)),
    ]);
    assert!(sheet.solve());
    assert_eq!(sheet.data, vec![Some(9), Some(-5)]);
}

#[test]
fn spreadsheet_reports_a_cycle() {
    let mut sheet = Spreadsheet::new(2);
    sheet.load(vec![
        Op::new(0, Operation::Add, Arg::Refs(1), Arg::Val(1)),
        Op::new(1, Operation::Add, Arg::Refs(0), Arg::Val(1)),
    ]);
    assert!(!sheet.solve());
    assert_eq!(sheet.data, vec![None, None]);
}

#[test]
fn spreadsheet_reports_an_overflowing_cell() {
    let mut sheet = Spreadsheet::new(1);
    sheet.load(vec![Op::new(
        0,
        Operation::Mult,
        Arg::Val(i32::MAX),
        Arg::Val(2),
    )]);
    assert!(!sheet.solve());
}

fn water_map(rows: &[&str]) -> LakeMap {
    let mut grid = Vec::new();
    for row in rows.iter() {
        let mut cells = Vec::new();
        for ch in row.chars() {
            cells.push(lakes::Cell::from_char(&ch));
        }
        grid.push(cells);
    }
    LakeMap::new(rows[0].len(), rows.len(), grid)
}

#[test]
fn floodfill_counts_a_lake_once() {
    let mut map = water_map(&["OO#", "#O#", "#OO"]);
    assert_eq!(map.floodfill((0, 0)), 5);
    // the size is now cached in the visited cells.
    assert_eq!(map.floodfill((2, 2)), 5);
}

#[test]
fn floodfill_on_land_is_zero() {
    let mut map = water_map(&["#O", "O#"]);
    assert_eq!(map.floodfill((0, 0)), 0);
    assert_eq!(map.floodfill((1, 0)), 1);
}

fn maze_from(rows: &[&str]) -> Maze {
    let mut maze = Maze::new(rows.len() as i32, rows[0].len() as i32);
    for (i, row) in rows.iter().enumerate() {
        maze.update_row(i, row.chars().collect());
    }
    maze
}

#[test]
fn update_row_finds_the_special_cells() {
    let maze = maze_from(&["#C#", "...", "#T#"]);
    assert_eq!(maze.control_room, Some(Point::new(1, 0)));
    assert_eq!(maze.target, Some(Point::new(1, 2)));
}

#[test]
fn bfs_walks_to_the_target() {
    let mut maze = maze_from(&["...", "#.#", "..."]);
    let path = maze.bfs(&Point::new(0, 0), &Point::new(2, 2));
    assert!(path.len() > 0);
    assert_eq!(*path.back().unwrap(), Point::new(2, 2));
    // a shortest route takes four steps.
    assert_eq!(path.len(), 4);
}

#[test]
fn bfs_gives_up_on_a_walled_target() {
    let mut maze = maze_from(&[".#.", "###", ".#."]);
    let path = maze.bfs(&Point::new(0, 0), &Point::new(2, 2));
    assert_eq!(path.len(), 0);
}

#[test]
fn bfs_to_fog_stops_next_to_the_unknown() {
    let mut maze = maze_from(&["..?", "###", "..."]);
    let path = maze.bfs_to_fog(&Point::new(0, 0));
    // one step right puts the explorer next to the fog cell.
    assert_eq!(path.len(), 1);
    assert_eq!(*path.back().unwrap(), Point::new(1, 0));
}

#[test]
fn kirk_follows_his_path() {
    let mut kirk = Kirk::new(10);
    kirk.location = Point::new(1, 1);
    kirk.path.push_back(Point::new(2, 1));
    kirk.path.push_back(Point::new(2, 2));
    assert_eq!(kirk.move_on_path(), Move::Right);
    kirk.location = Point::new(2, 1);
    assert_eq!(kirk.move_on_path(), Move::Down);
    assert_eq!(kirk.move_on_path(), Move::PathEmpty);
}

#[test]
fn kirk_explores_while_the_control_room_is_unknown() {
    let mut maze = maze_from(&["..?", "..."]);
    let mut kirk = Kirk::new(5);
    kirk.location = Point::new(0, 0);
    let mv = kirk.make_move(&mut maze);
    assert_eq!(mv, Move::Right);
    assert!(!kirk.control_room);
}

#[test]
fn direction_prefers_the_horizontal_axis() {
    let a = Point::new(3, 3);
    assert_eq!(a.get_direction(&Point::new(2, 3)), Move::Left);
    assert_eq!(a.get_direction(&Point::new(4, 9)), Move::Right);
    assert_eq!(a.get_direction(&Point::new(3, 2)), Move::Up);
    assert_eq!(a.get_direction(&Point::new(3, 4)), Move::Down);
}
