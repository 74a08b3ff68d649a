use battlesnake::area_control::{get_area_control_score, get_tail_positions};
use battlesnake::board::State;
use battlesnake::eval::state_value;

fn empty() -> State {
    State {
        board_struct: [[0; 11]; 11],
        snake_lengths: [2, 2],
        snake_healths: [100, 90],
        snake_heads: [(5, 5), (0, 0)],
        are_snakes_alive: [true, true],
        turn: 0,
        original_board_struct: [[0; 11]; 11],
    }
}

#[test]
fn decided_games_have_fixed_values() {
    let mut s = empty();
    s.are_snakes_alive = [true, false];
    assert_eq!(state_value(&s, &0), 0xFFFF_FFFF);
    s.are_snakes_alive = [false, true];
    assert_eq!(state_value(&s, &0), 0);
    s.are_snakes_alive = [false, false];
    assert_eq!(state_value(&s, &0), 0x7FFF_FFFF);
}

#[test]
fn running_game_value_adds_the_bonuses() {
    // no snake is three long, so neither searches the board: area 0
    let s = empty();
    // centre 100/10 + enemy at the edge 100/10 + area 0 + 100/15 + 90/30
    assert_eq!(state_value(&s, &0), 0x8000_0000 + 10 + 10 + 0 + 6 + 3);
}

#[test]
fn running_value_lies_between_draw_and_win() {
    let mut s = empty();
    s.snake_lengths = [3, 3];
    s.snake_heads = [(0, 0), (10, 10)];
    let v = state_value(&s, &0);
    assert!(v > 0x7FFF_FFFF && v < 0xFFFF_FFFF);
}

#[test]
fn equal_snakes_split_the_board_and_the_first_wins_ties() {
    let mut s = empty();
    s.snake_lengths = [3, 3];
    s.snake_heads = [(0, 0), (10, 10)];
    s.board_struct[0][2] = 0xFF;
    s.board_struct[10][9] = 0xFF;
    let (area, food, tail) = get_area_control_score(&s, &0, false);
    // snake 0 claims the cells with x + y <= 10
    assert_eq!(area, 66);
    assert_eq!(food[0], vec![2]);
    assert_eq!(food[1], vec![1]);
    assert!(!tail);
    let (area1, _, _) = get_area_control_score(&s, &1, false);
    assert_eq!(area1, 121 - 66);
}

#[test]
fn the_longer_snake_searches_first() {
    let mut s = empty();
    s.snake_lengths = [3, 4];
    s.snake_heads = [(0, 0), (10, 10)];
    let (area, _, _) = get_area_control_score(&s, &0, false);
    // now snake 1 wins the ties on x + y == 10
    assert_eq!(area, 55);
}

#[test]
fn a_snake_reaches_its_tail() {
    let mut s = empty();
    s.snake_lengths = [3, 3];
    s.snake_heads = [(1, 1), (10, 10)];
    s.board_struct[0][1] = 2;
    s.board_struct[0][0] = 1;
    let (_, _, tail) = get_area_control_score(&s, &0, false);
    assert!(tail);
}

#[test]
fn tails_are_the_parts_with_fewest_turns_left() {
    let mut s = empty();
    s.board_struct[3][3] = 2;
    s.board_struct[3][4] = 1;
    s.board_struct[3][5] = 1;
    s.board_struct[5][0] = 128 + 1;
    s.board_struct[6][6] = 0xFF;
    let mut me = (11u8, 11u8);
    let mut enemy = (11u8, 11u8);
    get_tail_positions(&s, &mut me, &mut enemy, &0);
    assert_eq!(me, (4, 3)); // the first of the two in row-major order
    assert_eq!(enemy, (0, 5));
    let mut me1 = (11u8, 11u8);
    let mut enemy1 = (11u8, 11u8);
    get_tail_positions(&s, &mut me1, &mut enemy1, &1);
    assert_eq!(me1, (0, 5));
    assert_eq!(enemy1, (4, 3));
}

#[test]
fn no_body_leaves_the_tail_spot() {
    let s = empty();
    let mut me = (7u8, 7u8);
    let mut enemy = (8u8, 8u8);
    get_tail_positions(&s, &mut me, &mut enemy, &0);
    assert_eq!(me, (7, 7));
    assert_eq!(enemy, (8, 8));
}

#[test]
fn the_share_of_the_board_counts_in_percent() {
    // only snake 0 is three long: it reaches every cell first
    let mut s = empty();
    s.snake_lengths = [3, 2];
    let (area, _, _) = get_area_control_score(&s, &0, false);
    assert_eq!(area, 121);
    // centre 10 + edge 10 + share 100 + 100/15 + 90/30
    assert_eq!(state_value(&s, &0), 0x8000_0000 + 10 + 10 + 100 + 6 + 3);
}

#[test]
fn the_endgame_counts_the_share_twice() {
    let mut s = empty();
    s.snake_lengths = [20, 20];
    s.snake_heads = [(0, 0), (10, 10)];
    // 66 cells are 54 percent; no tail to reach
    // centre 0 + edge 10 + 54 + 100/15 + (54 + 0) + 90/30
    assert_eq!(state_value(&s, &0), 0x8000_0000 + 0 + 10 + 54 + 6 + 54 + 3);
}

#[test]
fn the_value_for_snake_one_uses_its_head_and_health() {
    let mut s = empty();
    s.snake_heads = [(0, 0), (5, 5)];
    s.snake_healths = [30, 90];
    // centre of snake 1: 10; edge of snake 0: 10; 90/15 = 6; 30/30 = 1
    assert_eq!(state_value(&s, &1), 0x8000_0000 + 10 + 10 + 0 + 6 + 1);
}

#[test]
fn the_body_search_starts_from_every_body_part() {
    let mut s = empty();
    // no snake is three long, so no head searches
    s.board_struct[4][4] = 2;
    let (area, _, _) = get_area_control_score(&s, &0, false);
    assert_eq!(area, 0);
    // the body part claims its own cell and the search spreads from it
    let (body_area, _, _) = get_area_control_score(&s, &0, true);
    assert_eq!(body_area, 121);
    // a body part of each snake: both spread, snake 0's part comes first
    s.board_struct[4][6] = 128 + 2;
    let (area0, _, _) = get_area_control_score(&s, &0, true);
    let (area1, _, _) = get_area_control_score(&s, &1, true);
    assert_eq!(area0 + area1, 121);
    assert!(area0 >= 1 && area1 >= 1);
}

#[test]
fn a_decided_game_is_valued_for_any_player() {
    let mut s = empty();
    s.are_snakes_alive = [true, false];
    assert_eq!(state_value(&s, &7), 0xFFFF_FFFF);
}

#[test]
fn more_health_never_lowers_the_value() {
    let mut s = empty();
    s.snake_healths = [14, 90];
    let low = state_value(&s, &0);
    s.snake_healths = [15, 90];
    let high = state_value(&s, &0);
    assert_eq!(high, low + 1);
    // for snake 1, snake 0's health counts a thirtieth
    s.snake_healths = [29, 90];
    let low1 = state_value(&s, &1);
    s.snake_healths = [30, 90];
    assert_eq!(state_value(&s, &1), low1 + 1);
}
