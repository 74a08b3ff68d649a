use battlesnake::board::State;
use battlesnake::moves::{end_turn, make_move};

/// Snake 0: head (1,1), body (1,0) (2 turns left), tail (0,0) (1 turn left).
/// Snake 1: head (9,9), body (9,10) (2 turns), tail (10,10) (1 turn).
fn duel() -> State {
    let mut s = State {
        board_struct: [[0; 11]; 11],
        snake_lengths: [3, 3],
        snake_healths: [100, 90],
        snake_heads: [(1, 1), (9, 9)],
        are_snakes_alive: [true, true],
        turn: 0,
        original_board_struct: [[0; 11]; 11],
    };
    s.board_struct[0][1] = 2;
    s.board_struct[0][0] = 1;
    s.board_struct[10][9] = 128 + 2;
    s.board_struct[10][10] = 128 + 1;
    s
}

#[test]
fn moving_up_shrinks_the_body() {
    let mut s = duel();
    make_move(&mut s, &0);
    assert_eq!(s.snake_heads[0], (1, 2));
    assert_eq!(s.board_struct[1][1], 2); // neck: length 3, one turn less
    assert_eq!(s.board_struct[0][1], 1);
    assert_eq!(s.board_struct[0][0], 0); // the tail left
    assert_eq!(s.snake_healths[0], 99);
    assert_eq!(s.snake_lengths[0], 3);
    end_turn(&mut s);
    assert_eq!(s.turn, 1);
    assert!(s.are_snakes_alive[0]);
    assert!(s.are_snakes_alive[1]);
}

#[test]
fn eating_grows_and_heals() {
    let mut s = duel();
    s.board_struct[2][1] = 0xFF;
    make_move(&mut s, &0);
    assert_eq!(s.snake_heads[0], (1, 2));
    assert_eq!(s.snake_lengths[0], 4);
    assert_eq!(s.snake_healths[0], 100);
    assert_eq!(s.board_struct[1][1], 3); // neck keeps the full length
    assert_eq!(s.board_struct[0][1], 2); // the body stays
    assert_eq!(s.board_struct[0][0], 0); // the part whose time was up left
    assert_eq!(s.board_struct[2][1], 0xFF); // food stays until the turn ends
    end_turn(&mut s);
    assert_eq!(s.board_struct[2][1], 0); // eaten
    assert!(s.are_snakes_alive[0]);
}

#[test]
fn moving_the_enemy_leaves_snake_zero_alone() {
    let mut s = duel();
    let before = s;
    make_move(&mut s, &(4 + 2)); // snake 1 left
    assert_eq!(s.snake_heads[1], (8, 9));
    assert_eq!(s.board_struct[9][9], 128 + 2); // neck: length 3, one turn less
    assert_eq!(s.board_struct[10][9], 128 + 1);
    assert_eq!(s.board_struct[10][10], 0);
    assert_eq!(s.snake_healths[1], 89);
    assert_eq!(s.board_struct[0][1], before.board_struct[0][1]);
    assert_eq!(s.board_struct[0][0], before.board_struct[0][0]);
    assert_eq!(s.snake_heads[0], before.snake_heads[0]);
    assert_eq!(s.snake_healths[0], before.snake_healths[0]);
}

#[test]
fn leaving_the_board_parks_the_head_and_the_turn_kills() {
    let mut s = duel();
    s.snake_heads[0] = (1, 0);
    s.board_struct[0][1] = 0;
    make_move(&mut s, &1); // down from row 0
    assert_eq!(s.snake_heads[0], (11, 11));
    assert_eq!(s.snake_healths[0], 100);
    assert_eq!(s.board_struct[0][1], 3); // the neck was written
    end_turn(&mut s);
    assert!(!s.are_snakes_alive[0]);
    assert_eq!(s.snake_lengths[0], 0);
    assert_eq!(s.snake_healths[0], 0);
    assert_eq!(s.board_struct[0][1], 0);
    assert_eq!(s.board_struct[0][0], 0);
    assert_eq!(s.board_struct[10][9], 128 + 2); // the other snake stays
    assert!(s.are_snakes_alive[1]);
}

#[test]
fn a_dead_snake_does_not_move() {
    let mut s = duel();
    s.are_snakes_alive[1] = false;
    let before = s;
    make_move(&mut s, &(4 + 0));
    assert_eq!(s.snake_heads, before.snake_heads);
    assert_eq!(s.board_struct, before.board_struct);
    assert_eq!(s.snake_healths, before.snake_healths);
}

#[test]
fn no_health_kills() {
    let mut s = duel();
    s.snake_healths[1] = 0;
    end_turn(&mut s);
    assert!(!s.are_snakes_alive[1]);
    assert_eq!(s.snake_heads[1], (11, 11));
    assert_eq!(s.board_struct[10][9], 0);
    assert_eq!(s.board_struct[10][10], 0);
    assert!(s.are_snakes_alive[0]);
}

#[test]
fn running_into_a_body_kills() {
    let mut s = duel();
    s.snake_heads[0] = (9, 10); // on snake 1's body
    end_turn(&mut s);
    assert!(!s.are_snakes_alive[0]);
    assert!(s.are_snakes_alive[1]);
}

#[test]
fn equal_heads_both_die() {
    let mut s = duel();
    s.snake_heads = [(5, 5), (5, 5)];
    end_turn(&mut s);
    assert!(!s.are_snakes_alive[0]);
    assert!(!s.are_snakes_alive[1]);
}

#[test]
fn the_longer_head_wins() {
    let mut s = duel();
    s.snake_heads = [(5, 5), (5, 5)];
    s.snake_lengths = [4, 3];
    s.board_struct[5][5] = 0xFF;
    end_turn(&mut s);
    assert!(s.are_snakes_alive[0]);
    assert!(!s.are_snakes_alive[1]);
    assert_eq!(s.board_struct[5][5], 0);
}
