use battlesnake::board::State;
use battlesnake::floodfill::floodfill;
use battlesnake::game::{
    Battlesnake, Board, Coord, calculate_direction, check_turn, checked_calculate_direction,
    initialize_board_struct_for_position,
};
use battlesnake::search::{checked_minimax, deepening_done, get_move_order, minimax, opps};

fn snake(id: &str, body: Vec<(i32, i32)>, health: i32) -> Battlesnake {
    let body: Vec<Coord> = body.into_iter().map(|(x, y)| Coord { x, y }).collect();
    Battlesnake {
        id: id.to_string(),
        name: id.to_string(),
        health,
        head: body[0],
        length: body.len() as i32,
        body,
        latency: "0".to_string(),
        shout: None,
    }
}

fn board(snakes: Vec<Battlesnake>, food: Vec<(i32, i32)>) -> Board {
    Board {
        height: 11,
        width: 11,
        food: food.into_iter().map(|(x, y)| Coord { x, y }).collect(),
        snakes,
        hazards: vec![],
    }
}

#[test]
fn reading_a_turn_fills_the_arrays() {
    let me = snake("me", vec![(1, 1), (1, 0), (0, 0)], 90);
    let enemy = snake("other", vec![(9, 9), (9, 10), (10, 10)], 80);
    let b = board(vec![snake("me", vec![(1, 1), (1, 0), (0, 0)], 90), enemy], vec![(5, 5)]);
    let mut board_struct = [[0u8; 11]; 11];
    let mut lengths = [me.length as u8, 0];
    let mut healths = [me.health as u8, 0];
    let mut heads = [(11u8, 11u8); 2];
    let mut alive = [true, false];
    let mut original = [[0u8; 11]; 11];
    initialize_board_struct_for_position(
        &mut board_struct, &mut lengths, &mut healths, &mut heads, &mut alive, &b, &me, &mut original,
    );
    assert_eq!(board_struct[0][0], 1);
    assert_eq!(board_struct[0][1], 2);
    assert_eq!(board_struct[1][1], 0); // heads are not written
    assert_eq!(board_struct[10][10], 128 + 1);
    assert_eq!(board_struct[10][9], 128 + 2);
    assert_eq!(board_struct[5][5], 0xFF);
    assert_eq!(original[0][0], 1);
    assert_eq!(original[1][1], 1);
    assert_eq!(original[9][9], 2);
    assert_eq!(original[10][10], 2);
    assert_eq!(heads, [(1, 1), (9, 9)]);
    assert_eq!(lengths, [3, 3]);
    assert_eq!(healths, [90, 80]);
    assert_eq!(alive, [true, true]);
}

#[test]
fn alone_in_the_corner_the_snake_goes_up() {
    let me = snake("me", vec![(0, 0)], 100);
    let b = board(vec![snake("me", vec![(0, 0)], 100)], vec![]);
    assert_eq!(calculate_direction(&3, &b, &me), "up");
}

#[test]
fn alone_at_the_top_the_snake_does_not_leave() {
    let me = snake("me", vec![(0, 10)], 100);
    let b = board(vec![snake("me", vec![(0, 10)], 100)], vec![]);
    assert_eq!(calculate_direction(&3, &b, &me), "down");
}

#[test]
fn minimax_keeps_the_snake_on_the_board() {
    let mut s = State {
        board_struct: [[0; 11]; 11],
        snake_lengths: [1, 0],
        snake_healths: [100, 0],
        snake_heads: [(10, 0), (11, 11)],
        are_snakes_alive: [true, false],
        turn: 0,
        original_board_struct: [[0; 11]; 11],
    };
    // down and right leave the board; up comes first
    assert_eq!(minimax(s), 0);
    s.snake_heads[0] = (10, 10);
    // up and right leave the board; down comes first
    assert_eq!(minimax(s), 1);
}

#[test]
fn the_probe_runs_to_the_length_plus_eleven() {
    let s = State {
        board_struct: [[0; 11]; 11],
        snake_lengths: [1, 0],
        snake_healths: [100, 0],
        snake_heads: [(5, 5), (11, 11)],
        are_snakes_alive: [true, false],
        turn: 0,
        original_board_struct: [[0; 11]; 11],
    };
    assert_eq!(floodfill(&s, false, 0), 12);
    assert_eq!(floodfill(&s, true, 0), 12);
}

#[test]
fn the_probe_finds_nothing_when_boxed_in() {
    let mut s = State {
        board_struct: [[0; 11]; 11],
        snake_lengths: [1, 0],
        snake_healths: [100, 0],
        snake_heads: [(0, 0), (11, 11)],
        are_snakes_alive: [true, false],
        turn: 0,
        original_board_struct: [[0; 11]; 11],
    };
    s.board_struct[1][0] = 128 + 50;
    s.board_struct[0][1] = 128 + 50;
    assert_eq!(floodfill(&s, false, 0), 0);
}

#[test]
fn the_probe_of_a_dead_snake_finds_nothing() {
    let s = State {
        board_struct: [[0; 11]; 11],
        snake_lengths: [0, 0],
        snake_healths: [0, 0],
        snake_heads: [(11, 11), (11, 11)],
        are_snakes_alive: [false, false],
        turn: 0,
        original_board_struct: [[0; 11]; 11],
    };
    assert_eq!(floodfill(&s, false, 0), 0);
}

#[test]
fn reading_a_turn_alone_leaves_the_enemy_dead() {
    let me = snake("me", vec![(3, 3), (3, 2)], 70);
    let b = board(vec![snake("me", vec![(3, 3), (3, 2)], 70)], vec![(0, 0), (10, 10)]);
    let mut board_struct = [[0u8; 11]; 11];
    let mut lengths = [me.length as u8, 0];
    let mut healths = [me.health as u8, 0];
    let mut heads = [(11u8, 11u8); 2];
    let mut alive = [true, false];
    let mut original = [[0u8; 11]; 11];
    initialize_board_struct_for_position(
        &mut board_struct, &mut lengths, &mut healths, &mut heads, &mut alive, &b, &me, &mut original,
    );
    assert_eq!(board_struct[2][3], 1);
    assert_eq!(board_struct[0][0], 0xFF);
    assert_eq!(board_struct[10][10], 0xFF);
    assert_eq!(heads, [(3, 3), (11, 11)]);
    assert_eq!(alive, [true, false]);
    assert_eq!(lengths, [2, 0]);
    assert_eq!(healths, [70, 0]);
}

#[test]
fn the_probe_returns_the_longest_path_found() {
    let mut s = State {
        board_struct: [[0; 11]; 11],
        snake_lengths: [1, 0],
        snake_healths: [100, 0],
        snake_heads: [(0, 0), (11, 11)],
        are_snakes_alive: [true, false],
        turn: 0,
        original_board_struct: [[0; 11]; 11],
    };
    s.snake_lengths = [3, 0];
    // one free step up to (0, 1), and no way on from there
    s.board_struct[0][1] = 128 + 50;
    s.board_struct[1][1] = 128 + 50;
    s.board_struct[2][0] = 128 + 50;
    assert_eq!(floodfill(&s, false, 0), 1);
}

#[test]
fn the_checked_answer_refuses_what_cannot_be_read() {
    let me = snake("me", vec![(0, 0)], 100);
    let b = board(vec![snake("me", vec![(0, 0)], 100)], vec![]);
    assert!(check_turn(&b, &me));
    assert_eq!(checked_calculate_direction(&3, &b, &me), Some("up".to_string()));
    // food off the board
    let off = board(vec![snake("me", vec![(0, 0)], 100)], vec![(11, 0)]);
    assert!(!check_turn(&off, &me));
    assert_eq!(checked_calculate_direction(&3, &off, &me), None);
    // two enemies
    let crowd = board(
        vec![snake("a", vec![(5, 5)], 100), snake("b", vec![(7, 7)], 100), snake("me", vec![(0, 0)], 100)],
        vec![],
    );
    assert!(!check_turn(&crowd, &me));
    // a turn counter with no room for the deepest search
    assert_eq!(checked_calculate_direction(&65535, &b, &me), None);
}

#[test]
fn the_checked_search_refuses_a_head_off_the_board() {
    let mut s = State {
        board_struct: [[0; 11]; 11],
        snake_lengths: [1, 0],
        snake_healths: [100, 0],
        snake_heads: [(0, 0), (11, 11)],
        are_snakes_alive: [true, false],
        turn: 0,
        original_board_struct: [[0; 11]; 11],
    };
    assert_eq!(checked_minimax(s), Some(0));
    s.snake_heads[0] = (11, 0);
    assert_eq!(checked_minimax(s), None);
}

#[test]
fn deepening_stops_after_thirty_milliseconds_or_depth_fifty_one() {
    assert!(!deepening_done(30, 50));
    assert!(deepening_done(31, 1));
    assert!(deepening_done(0, 51));
}

#[test]
fn a_lone_long_snake_is_answered() {
    let body: Vec<(i32, i32)> = (0..11).map(|x| (x, 0)).collect();
    let mut me = snake("me", body.clone(), 100);
    me.length = 200;
    let b = board(vec![snake("me", body, 100)], vec![]);
    assert!(check_turn(&b, &me));
    let answer = checked_calculate_direction(&3, &b, &me);
    assert!(answer.is_some());
}

#[test]
fn a_search_at_its_depth_evaluates_the_position() {
    let s = State {
        board_struct: [[0; 11]; 11],
        snake_lengths: [2, 2],
        snake_healths: [100, 90],
        snake_heads: [(5, 5), (0, 0)],
        are_snakes_alive: [true, true],
        turn: 0,
        original_board_struct: [[0; 11]; 11],
    };
    let leaf = opps(s, 3, 3, 0, 0, 0xFFFF_FFFF, false, std::time::Instant::now());
    assert_eq!(leaf, (battlesnake::eval::state_value(&s, &0), 4));
    assert_eq!(get_move_order(&s, &2), vec![0]);
}
