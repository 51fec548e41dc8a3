use gridgames::engine::{State, BITWISE_HASHMOD, HASHMOD};

#[test]
fn hash() {
    let state = State::new([1, 2, 3, 4, 5, 6, 0, 1, 2]).unwrap();
    let hash = state.weighted_hash();
    assert_eq!(hash, 123456012);
}

#[test]
fn correct_mod() {
    assert_eq!(HASHMOD, 0b1000000000000000000000000000000);

    let n: u32 = 123456012;
    assert_eq!(n % HASHMOD, n & BITWISE_HASHMOD);
    let n: u32 = (i32::MAX - 2) as u32;
    assert_eq!(n % HASHMOD, n & BITWISE_HASHMOD);
}

#[test]
fn two_states() {
    let depth = 20;
    let state = State::new([0, 6, 0, 2, 2, 2, 1, 6, 1]).unwrap();
    let res = state.solve(depth);
    let expected = 322444322;
    assert_eq!(res, expected);
}

#[test]
fn two_unique_states() {
    let depth = 1;
    let state = State::new([5, 5, 5, 0, 0, 5, 5, 5, 5]).unwrap();
    let res = state.solve(depth);
    let expected = 36379286;
    assert_eq!(res, expected);
}

#[test]
fn unique_states_20() {
    let depth = 8;
    let state = State::new([6, 0, 6, 0, 0, 0, 6, 1, 5]).unwrap();
    let res = state.solve(depth);
    let expected = 76092874;
    assert_eq!(res, expected);
}

#[test]
fn unique_states_241() {
    let depth = 24;
    let state = State::new([3, 0, 0, 3, 6, 2, 1, 0, 2]).unwrap();
    let res = state.solve(depth);
    let expected = 661168294;
    assert_eq!(res, expected);
}

#[test]
fn hash_is_a_pure_function_of_the_tiles() {
    let a = State::new([0, 6, 0, 2, 2, 2, 1, 6, 1]).unwrap();
    let b = State::new([0, 6, 0, 2, 2, 2, 1, 6, 1]).unwrap();
    assert_eq!(a.hash(), a.hash());
    assert_eq!(a.hash(), b.hash());
    assert_eq!(a.hash(), 60222161);
}

#[test]
fn solve_is_deterministic() {
    let state = State::new([5, 5, 5, 0, 0, 5, 5, 5, 5]).unwrap();
    let first = state.solve(3);
    let second = state.solve(3);
    assert_eq!(first, second);
}

#[test]
fn depth_zero_folds_the_unexpanded_board() {
    let state = State::new([1, 2, 3, 4, 5, 6, 0, 1, 2]).unwrap();
    assert_eq!(state.solve(0), 123456012);
}

#[test]
fn full_board_returns_its_hash_at_any_depth() {
    let state = State::new([1, 1, 1, 1, 1, 1, 1, 1, 1]).unwrap();
    assert_eq!(state.solve(0), 111111111);
    assert_eq!(state.solve(1), 111111111);
    assert_eq!(state.solve(24), 111111111);
    let state = State::new([6, 6, 6, 6, 6, 6, 6, 6, 6]).unwrap();
    assert_eq!(state.solve(7), 666666666 % 0x4000_0000);
}

#[test]
fn capture_at_exactly_six_succeeds() {
    let state = State::new([0, 3, 0, 3, 0, 0, 0, 0, 0]).unwrap();
    let captured = state.try_capture(0, &[1, 3]).unwrap();
    let tiles = captured.tiles();
    assert_eq!(tiles, [6, 0, 0, 0, 0, 0, 0, 0, 0]);
}

#[test]
fn capture_at_seven_fails() {
    let state = State::new([0, 3, 0, 4, 0, 0, 0, 0, 0]).unwrap();
    assert!(state.try_capture(0, &[1, 3]).is_none());
}

#[test]
fn capture_needs_every_neighbour_filled() {
    let state = State::new([0, 3, 0, 0, 0, 0, 0, 0, 0]).unwrap();
    assert!(state.try_capture(0, &[1, 3]).is_none());
}

#[test]
fn placement_without_capture_places_a_one() {
    let state = State::new([0, 0, 0, 0, 0, 0, 0, 0, 0]).unwrap();
    let mut results = Vec::new();
    state.next_states(4, &mut results);
    assert_eq!(results.len(), 1);
    assert_eq!(results[0].tiles(), [0, 0, 0, 0, 1, 0, 0, 0, 0]);
}

#[test]
fn placement_with_captures_branches_per_subset() {
    // cell 4 is empty; neighbours 1 and 3 hold 2 and 3: the subsets
    // {1,3} (sum 5) qualifies, {1,5}, {1,7}, {3,5}, {3,7}, {5,7} and all
    // larger ones touch an empty neighbour, so exactly one capture.
    let state = State::new([0, 2, 0, 3, 0, 0, 0, 0, 0]).unwrap();
    let mut results = Vec::new();
    state.next_states(4, &mut results);
    assert_eq!(results.len(), 1);
    assert_eq!(results[0].tiles(), [0, 0, 0, 0, 5, 0, 0, 0, 0]);
}

#[test]
fn a_tile_above_six_is_rejected() {
    assert!(State::new([7, 0, 0, 0, 0, 0, 0, 0, 0]).is_none());
    assert!(State::new([0, 0, 0, 0, 0, 0, 0, 0, 255]).is_none());
    assert!(State::new([6, 0, 0, 0, 0, 0, 0, 0, 0]).is_some());
}

#[test]
fn solve2_matches_depth_zero_and_nothing_else() {
    let state = State::new([1, 2, 3, 4, 5, 6, 0, 1, 2]).unwrap();
    assert_eq!(state.solve2(0), state.weighted_hash());
    assert_eq!(state.solve2(0), 123456012);
    assert_eq!(state.solve2(5), 0);
}

#[test]
fn top_level_solve_validates_and_delegates() {
    assert_eq!(gridgames::engine::solve([5, 5, 5, 0, 0, 5, 5, 5, 5], 1), Some(36379286));
    assert_eq!(gridgames::engine::solve([9, 0, 0, 0, 0, 0, 0, 0, 0], 1), None);
}

#[test]
fn merged_histories_weight_the_checksum() {
    // From [0,0,6,...] the two placement orders of cells 0 and 1 meet in
    // the same terminal board [1,1,6,...]: its two histories are merged
    // and its hash counts twice in the checksum.
    let state = State::new([0, 0, 6, 6, 6, 6, 6, 6, 6]).unwrap();
    assert_eq!(state.solve(2), 2 * 116666666 % 0x4000_0000);
    assert_eq!(state.solve(3), 2 * 116666666 % 0x4000_0000);
}

#[test]
fn neighbour_tables_match_the_grid() {
    assert_eq!(gridgames::engine::neighbours(0), vec![1, 3]);
    assert_eq!(gridgames::engine::neighbours(4), vec![1, 3, 5, 7]);
    assert_eq!(gridgames::engine::neighbours(8), vec![5, 7]);
    assert_eq!(gridgames::engine::capture_subsets_of(0).len(), 1);
    assert_eq!(gridgames::engine::capture_subsets_of(1).len(), 4);
    assert_eq!(gridgames::engine::capture_subsets_of(4).len(), 11);
}
