//! Playing a move and closing a turn.
use vstd::prelude::*;
use crate::board::{
    before, grid_view, in_grid, write_cell,
    FOOD, SIZE, State, StateView, grid_wf, lemma_cell_bits, lemma_view_wf, off_board, on_board,
    owner, remaining, set_cell,
};

verus! {

/// The snake a move byte concerns: its bits 2 and 3.
pub open spec fn mover(m: u8) -> int {
    (m as int / 4) % 4
}

/// The direction a move byte names: its two low bits
/// (0 up, 1 down, 2 left, 3 right).
pub open spec fn direction(m: u8) -> int {
    m as int % 4
}

/// Where a head at `h` goes in direction `dir`, or `None` where it would leave
/// the board.
pub open spec fn step(h: (u8, u8), dir: int) -> Option<(u8, u8)> {
    if dir == 0 {
        if h.1 >= SIZE - 1 { None } else { Some((h.0, (h.1 + 1) as u8)) }
    } else if dir == 1 {
        if h.1 == 0 { None } else { Some((h.0, (h.1 - 1) as u8)) }
    } else if dir == 2 {
        if h.0 == 0 { None } else { Some(((h.0 - 1) as u8, h.1)) }
    } else {
        if h.0 >= SIZE - 1 { None } else { Some(((h.0 + 1) as u8, h.1)) }
    }
}

/// A cell of snake `i` one turn later, when `i` has not eaten: each of its body
/// parts has one turn less to stay, and a part whose time runs out leaves.
pub open spec fn shrink_cell(c: u8, i: int) -> u8 {
    if c != FOOD && owner(c) == i && remaining(c) > 0 {
        if remaining(c) == 1 { 0 } else { (c - 1) as u8 }
    } else {
        c
    }
}

/// A cell of snake `i` one turn later, when `i` has eaten: only the part whose
/// time is up (one turn left) leaves.
pub open spec fn trim_cell(c: u8, i: int) -> u8 {
    if owner(c) == i && remaining(c) == 1 { 0 } else { c }
}

/// Every cell of a board mapped by `f`.
pub open spec fn map_cells(b: Seq<Seq<u8>>, f: spec_fn(u8) -> u8) -> Seq<Seq<u8>> {
    Seq::new(b.len(), |y: int| Seq::new(b[y].len(), |x: int| f(b[y][x])))
}

/// The value written on the neck (the cell the head leaves) of snake `i`:
/// the snake's length, in the owner's encoding.
pub open spec fn neck_value(v: StateView, i: int) -> u8 {
    (v.lengths[i] + 128 * i) as u8
}

/// The board once snake `i` has left its head cell.
pub open spec fn board_with_neck(v: StateView, i: int) -> Seq<Seq<u8>> {
    set_cell(v.board, v.heads[i].0 as int, v.heads[i].1 as int, neck_value(v, i))
}

/// Whether the move of snake `i` in direction `d` reaches food.
pub open spec fn eats(v: StateView, i: int, d: int) -> bool {
    match step(v.heads[i], d) {
        Some(nh) => board_with_neck(v, i)[nh.1 as int][nh.0 as int] == FOOD,
        None => false,
    }
}

/// The state after the move byte `m` is played.
///
/// A dead snake does not move. A snake that moves off the board has its head
/// parked at `off_board()`, and nothing else changes but its neck. Otherwise
/// the head advances; on food the snake's health is reset to 100 and it grows
/// by one, else its body shrinks by one turn and its health drops by one.
pub open spec fn make_move_spec(v: StateView, m: u8) -> StateView {
    let i = mover(m);
    if !v.alive[i] {
        v
    } else {
        let b1 = board_with_neck(v, i);
        match step(v.heads[i], direction(m)) {
            None => StateView { board: b1, heads: v.heads.update(i, off_board()), ..v },
            Some(nh) => {
                if b1[nh.1 as int][nh.0 as int] == FOOD {
                    StateView {
                        board: map_cells(b1, |c: u8| trim_cell(c, i)),
                        heads: v.heads.update(i, nh),
                        healths: v.healths.update(i, 100),
                        lengths: v.lengths.update(i, (v.lengths[i] + 1) as u8),
                        ..v
                    }
                } else {
                    StateView {
                        board: map_cells(b1, |c: u8| shrink_cell(c, i)),
                        heads: v.heads.update(i, nh),
                        healths: v.healths.update(i, (v.healths[i] - 1) as u8),
                        ..v
                    }
                }
            },
        }
    }
}

/// The inputs on which playing move `m` stays within the machine's limits: the
/// move names snake 0 or 1; a live mover has its head on the board, a neck
/// value that fits a byte, room to grow, and health left to lose.
pub open spec fn make_move_ok(v: StateView, m: u8) -> bool {
    let i = mover(m);
    &&& i < 2
    &&& v.alive[i] ==> {
        &&& on_board(v.heads[i])
        &&& v.lengths[i] + 128 * i <= 255
        &&& (eats(v, i, direction(m)) ==> v.lengths[i] < 255)
        &&& (step(v.heads[i], direction(m)) is Some && !eats(v, i, direction(m))
            ==> v.healths[i] >= 1)
    }
}

/// Moves the head of `snake_to_move` one cell in `move_direction`; where that
/// leaves the board, parks it at `off_board()` and returns `false`.
fn move_head(heads: &mut [(u8, u8); 2], move_direction: &u8, snake_to_move: &usize) -> (moved: bool)
    requires
        *snake_to_move < 2,
        *move_direction < 4,
    ensures
        moved == (step(old(heads)@[*snake_to_move as int], *move_direction as int) is Some),
        final(heads)@ == old(heads)@.update(
            *snake_to_move as int,
            match step(old(heads)@[*snake_to_move as int], *move_direction as int) {
                Some(nh) => nh,
                None => off_board(),
            },
        ),
{
    let i = *snake_to_move;
    if *move_direction == 0 {
        if heads[i].1 >= SIZE as u8 - 1 {
            heads[i] = (SIZE as u8, SIZE as u8);
            return false;
        }
        heads[i] = (heads[i].0, heads[i].1 + 1);
    }
    if *move_direction == 1 {
        if heads[i].1 <= 0 {
            heads[i] = (SIZE as u8, SIZE as u8);
            return false;
        }
        heads[i] = (heads[i].0, heads[i].1 - 1);
    }
    if *move_direction == 2 {
        if heads[i].0 <= 0 {
            heads[i] = (SIZE as u8, SIZE as u8);
            return false;
        }
        heads[i] = (heads[i].0 - 1, heads[i].1);
    }
    if *move_direction == 3 {
        if heads[i].0 >= SIZE as u8 - 1 {
            heads[i] = (SIZE as u8, SIZE as u8);
            return false;
        }
        heads[i] = (heads[i].0 + 1, heads[i].1);
    }
    return true;
}

/// Shortens every body part of snake `snake` by one turn (the case where it has
/// not eaten).
fn shrink_body(board: &mut [[u8; SIZE]; SIZE], snake: usize)
    requires
        snake < 2,
    ensures
        grid_view(*final(board)) == map_cells(grid_view(*old(board)), |c: u8| shrink_cell(c, snake as int)),
{
    let ghost b0 = grid_view(*board);
    for y in 0..SIZE
        invariant
            snake < 2,
            grid_wf(b0),
            grid_wf(grid_view(*board)),
            forall|xx: int, yy: int| #![trigger grid_view(*board)[yy][xx]] in_grid(xx, yy) ==>
                grid_view(*board)[yy][xx] == if before(xx, yy, 0, y as int) {
                    shrink_cell(b0[yy][xx], snake as int)
                } else {
                    b0[yy][xx]
                },
    {
        for x in 0..SIZE
            invariant
                snake < 2,
                y < SIZE,
                grid_wf(b0),
                grid_wf(grid_view(*board)),
                forall|xx: int, yy: int| #![trigger grid_view(*board)[yy][xx]] in_grid(xx, yy) ==>
                    grid_view(*board)[yy][xx] == if before(xx, yy, x as int, y as int) {
                        shrink_cell(b0[yy][xx], snake as int)
                    } else {
                        b0[yy][xx]
                    },
        {
            let value = board[y][x];
            assert(value == grid_view(*board)[y as int][x as int]);
            proof { lemma_cell_bits(value); }
            let ghost before_write = grid_view(*board);
            if value != 0b11111111 {
                if (value & 0b10000000) >> 7 == snake as u8 {
                    if value & 0b01111111 > 0 {
                        let lowered = value - 1;
                        proof { lemma_cell_bits(lowered); }
                        if lowered & 0b01111111 == 0 {
                            write_cell(board, x, y, 0);
                        } else {
                            write_cell(board, x, y, lowered);
                        }
                    }
                }
            }
            assert(grid_view(*board)[y as int][x as int] == shrink_cell(b0[y as int][x as int], snake as int));
            assert forall|xx: int, yy: int| in_grid(xx, yy) && (xx, yy) != (x as int, y as int) implies
                #[trigger] grid_view(*board)[yy][xx] == before_write[yy][xx] by {}
        }
    }
    assert(grid_view(*board) =~~= map_cells(b0, |c: u8| shrink_cell(c, snake as int)));
}

/// Removes the body part of snake `snake` whose time is up (the case where it
/// has eaten, so the rest of its body stays).
fn trim_body(board: &mut [[u8; SIZE]; SIZE], snake: usize)
    requires
        snake < 2,
    ensures
        grid_view(*final(board)) == map_cells(grid_view(*old(board)), |c: u8| trim_cell(c, snake as int)),
{
    let ghost b0 = grid_view(*board);
    for y in 0..SIZE
        invariant
            snake < 2,
            grid_wf(b0),
            grid_wf(grid_view(*board)),
            forall|xx: int, yy: int| #![trigger grid_view(*board)[yy][xx]] in_grid(xx, yy) ==>
                grid_view(*board)[yy][xx] == if before(xx, yy, 0, y as int) {
                    trim_cell(b0[yy][xx], snake as int)
                } else {
                    b0[yy][xx]
                },
    {
        for x in 0..SIZE
            invariant
                snake < 2,
                y < SIZE,
                grid_wf(b0),
                grid_wf(grid_view(*board)),
                forall|xx: int, yy: int| #![trigger grid_view(*board)[yy][xx]] in_grid(xx, yy) ==>
                    grid_view(*board)[yy][xx] == if before(xx, yy, x as int, y as int) {
                        trim_cell(b0[yy][xx], snake as int)
                    } else {
                        b0[yy][xx]
                    },
        {
            let value = board[y][x];
            assert(value == grid_view(*board)[y as int][x as int]);
            proof { lemma_cell_bits(value); }
            let ghost before_write = grid_view(*board);
            if (value & 0b10000000) >> 7 == snake as u8 {
                if value & 0b01111111 == 1 {
                    write_cell(board, x, y, 0);
                }
            }
            assert(grid_view(*board)[y as int][x as int] == trim_cell(b0[y as int][x as int], snake as int));
            assert forall|xx: int, yy: int| in_grid(xx, yy) && (xx, yy) != (x as int, y as int) implies
                #[trigger] grid_view(*board)[yy][xx] == before_write[yy][xx] by {}
        }
    }
    assert(grid_view(*board) =~~= map_cells(b0, |c: u8| trim_cell(c, snake as int)));
}

/// Plays the move byte `move_struct` (bits 2-3: snake, bits 0-1: direction).
pub fn make_move(state: &mut State, move_struct: &u8)
    requires
        make_move_ok(old(state)@, *move_struct),
    ensures
        final(state)@ == make_move_spec(old(state)@, *move_struct),
{
    proof {
        lemma_view_wf(*state);
        let m = *move_struct;
        assert(((m & 0b00001100) >> 2) as int == mover(m)) by {
            assert(((m & 0b00001100) >> 2) == (m / 4) % 4) by (bit_vector);
        }
        assert((m & 0b00000011) as int == direction(m)) by {
            assert(m & 0b00000011 == m % 4) by (bit_vector);
        }
    }
    let ghost v = state@;
    let snake_to_move = ((*move_struct & 0b00001100) >> 2) as usize;
    if state.are_snakes_alive[snake_to_move] != true {
        return;
    }
    let hx = state.snake_heads[snake_to_move].0 as usize;
    let hy = state.snake_heads[snake_to_move].1 as usize;
    proof {
        let i = snake_to_move as u8;
        assert((i << 7) == 128 * i) by (bit_vector) requires i < 2;
    }
    let neck = state.snake_lengths[snake_to_move] + ((snake_to_move as u8) << 7);
    write_cell(&mut state.board_struct, hx, hy, neck);
    let ghost b1 = state@.board;

    let move_direction = *move_struct & 0b00000011;
    if move_head(&mut state.snake_heads, &move_direction, &snake_to_move) {
        let nx = state.snake_heads[snake_to_move].0 as usize;
        let ny = state.snake_heads[snake_to_move].1 as usize;
        let ate_food = state.board_struct[ny][nx] == 0b11111111;

        if !ate_food {
            shrink_body(&mut state.board_struct, snake_to_move);
        } else {
            trim_body(&mut state.board_struct, snake_to_move);
        }

        if ate_food {
            state.snake_healths[snake_to_move] = 100;
            state.snake_lengths[snake_to_move] += 1;
        } else {
            state.snake_healths[snake_to_move] -= 1;
        }
    }
}

/// Whether a snake whose head lies on cell `c` has run into a body part.
pub open spec fn crashed(c: u8) -> bool {
    c != FOOD && remaining(c) > 0
}

/// Whether snake `i` passes the first checks at the end of a turn: it has
/// health, its head is on the board, and not on a body part.
pub open spec fn survives_checks(v: StateView, i: int) -> bool {
    &&& v.healths[i] > 0
    &&& on_board(v.heads[i])
    &&& !crashed(v.cell(v.heads[i].0 as int, v.heads[i].1 as int))
}

/// Whether snake `i` shares its head cell with the other snake and is not
/// longer than it.
pub open spec fn loses_head_to_head(v: StateView, i: int) -> bool {
    v.heads[i] == v.heads[1 - i] && v.lengths[i] <= v.lengths[1 - i]
}

/// Whether snake `i` dies at the end of the turn: out of health, off the
/// board, on a body part, or beaten head to head.
pub open spec fn dies(v: StateView, i: int) -> bool {
    !survives_checks(v, i) || loses_head_to_head(v, i)
}

/// The board with the food under the head of snake `i` eaten, where `i`
/// passed the first checks.
pub open spec fn clear_food_at(b: Seq<Seq<u8>>, v: StateView, i: int) -> Seq<Seq<u8>> {
    let h = v.heads[i];
    if survives_checks(v, i) && b[h.1 as int][h.0 as int] == FOOD {
        set_cell(b, h.0 as int, h.1 as int, 0)
    } else {
        b
    }
}

/// A cell once snake `i` is removed from the board.
pub open spec fn kill_cell(c: u8, i: int) -> u8 {
    if c != FOOD && owner(c) == i { 0 } else { c }
}

/// The state with snake `i` dead: parked off the board, with no length, no
/// health and no body.
pub open spec fn kill_spec(v: StateView, i: int) -> StateView {
    StateView {
        board: map_cells(v.board, |c: u8| kill_cell(c, i)),
        heads: v.heads.update(i, off_board()),
        lengths: v.lengths.update(i, 0),
        healths: v.healths.update(i, 0),
        alive: v.alive.update(i, false),
        ..v
    }
}

/// The state after the end of a turn: the turn counter advances, food under
/// surviving heads is eaten, and the snakes that `dies` names are removed
/// (snake 0 first).
pub open spec fn end_turn_spec(v: StateView) -> StateView {
    let eaten = clear_food_at(clear_food_at(v.board, v, 0), v, 1);
    let w = StateView { board: eaten, turn: (v.turn + 1) as u16, ..v };
    let w0 = if dies(v, 0) { kill_spec(w, 0) } else { w };
    if dies(v, 1) { kill_spec(w0, 1) } else { w0 }
}

/// Removes snake `snake_index` from the game.
fn kill_snake(state: &mut State, snake_index: &usize)
    requires
        *snake_index < 2,
    ensures
        final(state)@ == kill_spec(old(state)@, *snake_index as int),
{
    let i = *snake_index;
    state.snake_heads[i] = (SIZE as u8, SIZE as u8);
    state.snake_lengths[i] = 0;
    state.snake_healths[i] = 0;
    state.are_snakes_alive[i] = false;
    clear_body(&mut state.board_struct, i);
    assert(state@ =~~= kill_spec(old(state)@, i as int));
}

/// Empties every (non-food) cell that snake `snake` owns.
fn clear_body(board: &mut [[u8; SIZE]; SIZE], snake: usize)
    requires
        snake < 2,
    ensures
        grid_view(*final(board)) == map_cells(grid_view(*old(board)), |c: u8| kill_cell(c, snake as int)),
{
    let ghost b0 = grid_view(*board);
    for y in 0..SIZE
        invariant
            snake < 2,
            grid_wf(b0),
            grid_wf(grid_view(*board)),
            forall|xx: int, yy: int| #![trigger grid_view(*board)[yy][xx]] in_grid(xx, yy) ==>
                grid_view(*board)[yy][xx] == if before(xx, yy, 0, y as int) {
                    kill_cell(b0[yy][xx], snake as int)
                } else {
                    b0[yy][xx]
                },
    {
        for x in 0..SIZE
            invariant
                snake < 2,
                y < SIZE,
                grid_wf(b0),
                grid_wf(grid_view(*board)),
                forall|xx: int, yy: int| #![trigger grid_view(*board)[yy][xx]] in_grid(xx, yy) ==>
                    grid_view(*board)[yy][xx] == if before(xx, yy, x as int, y as int) {
                        kill_cell(b0[yy][xx], snake as int)
                    } else {
                        b0[yy][xx]
                    },
        {
            let cell_value = board[y][x];
            assert(cell_value == grid_view(*board)[y as int][x as int]);
            proof { lemma_cell_bits(cell_value); }
            let ghost before_write = grid_view(*board);
            if cell_value != 0b11111111 {
                if (cell_value & 0b10000000) >> 7 == snake as u8 {
                    write_cell(board, x, y, 0);
                }
            }
            assert(grid_view(*board)[y as int][x as int] == kill_cell(b0[y as int][x as int], snake as int));
            assert forall|xx: int, yy: int| in_grid(xx, yy) && (xx, yy) != (x as int, y as int) implies
                #[trigger] grid_view(*board)[yy][xx] == before_write[yy][xx] by {}
        }
    }
    assert(grid_view(*board) =~~= map_cells(b0, |c: u8| kill_cell(c, snake as int)));
}

/// Closes a turn: advances the turn counter, removes the snakes that are out
/// of health, off the board, on a body part or beaten head to head, and eats
/// the food under the heads of the others.
pub fn end_turn(state: &mut State)
    requires
        old(state).turn < u16::MAX,
    ensures
        final(state)@ == end_turn_spec(old(state)@),
{
    let ghost v = state@;
    proof { lemma_view_wf(*state); }
    state.turn += 1;

    let mut to_kill: [bool; 2] = [false; 2];

    for snake_index in 0..2usize
        invariant
            v.wf(),
            state@ == (StateView {
                board: if snake_index == 0 { v.board } else if snake_index == 1 {
                    clear_food_at(v.board, v, 0)
                } else {
                    clear_food_at(clear_food_at(v.board, v, 0), v, 1)
                },
                turn: (v.turn + 1) as u16,
                ..v
            }),
            forall|j: int| 0 <= j < snake_index ==> to_kill@[j] == dies(v, j),
            forall|j: int| snake_index <= j < 2 ==> !to_kill@[j],
            to_kill@.len() == 2,
    {
        let ghost b = state@.board;
        assert(grid_wf(b));
        let head_x = state.snake_heads[snake_index].0;
        let head_y = state.snake_heads[snake_index].1;
        if state.snake_healths[snake_index] <= 0 {
            // out of health
            to_kill[snake_index] = true;
        } else if head_x >= SIZE as u8 || head_y >= SIZE as u8 {
            // off the board
            to_kill[snake_index] = true;
        } else {
            let cell = state.board_struct[head_y as usize][head_x as usize];
            proof {
                lemma_cell_bits(cell);
                assert(cell == b[head_y as int][head_x as int]);
                // eating food at the other snake's head only turns food into 0,
                // which is no body part either
                assert(crashed(cell) == crashed(v.cell(head_x as int, head_y as int)));
            }
            if cell != 0b11111111 && cell & 0b01111111 > 0 {
                // on a body part
                to_kill[snake_index] = true;
            } else {
                // beaten head to head
                for to_collide in 0..2usize
                    invariant
                        snake_index < 2,
                        state@ == (StateView { board: b, turn: (v.turn + 1) as u16, ..v }),
                        forall|j: int| 0 <= j < snake_index ==> to_kill@[j] == dies(v, j),
                        forall|j: int| snake_index < j < 2 ==> !to_kill@[j],
                        to_kill@.len() == 2,
                        to_kill@[snake_index as int] == (exists|k: int| 0 <= k < to_collide && k != snake_index
                            && v.heads[snake_index as int] == v.heads[k]
                            && v.lengths[snake_index as int] <= v.lengths[k]),
                {
                    if snake_index != to_collide {
                        let mine = state.snake_heads[snake_index];
                        let theirs = state.snake_heads[to_collide];
                        if mine.0 == theirs.0 && mine.1 == theirs.1 {
                            if state.snake_lengths[snake_index] <= state.snake_lengths[to_collide] {
                                to_kill[snake_index] = true;
                            }
                        }
                    }
                }

                // the food under the head is eaten
                if state.board_struct[head_y as usize][head_x as usize] == 0b11111111 {
                    write_cell(&mut state.board_struct, head_x as usize, head_y as usize, 0);
                }
            }
        }
    }

    let ghost w = state@;
    for s in 0..2usize
        invariant
            forall|j: int| 0 <= j < 2 ==> to_kill@[j] == dies(v, j),
            to_kill@.len() == 2,
            state@ == if s == 0 { w } else {
                let w0 = if to_kill@[0] { kill_spec(w, 0) } else { w };
                if s == 1 { w0 } else if to_kill@[1] { kill_spec(w0, 1) } else { w0 }
            },
    {
        if to_kill[s] {
            kill_snake(state, &s);
        }
    }
}

/// Writing one cell keeps the shape of a board.
pub proof fn lemma_set_cell_wf(b: Seq<Seq<u8>>, x: int, y: int, c: u8)
    requires
        grid_wf(b),
        in_grid(x, y),
    ensures
        grid_wf(set_cell(b, x, y, c)),
        forall|yy: int, xx: int| #![trigger set_cell(b, x, y, c)[yy][xx]] in_grid(xx, yy) ==>
            set_cell(b, x, y, c)[yy][xx] == if xx == x && yy == y { c } else { b[yy][xx] },
{
    assert forall|yy: int| 0 <= yy < SIZE implies #[trigger] set_cell(b, x, y, c)[yy].len() == SIZE by {}
}

/// Mapping every cell keeps the shape of a board.
pub proof fn lemma_map_cells_wf(b: Seq<Seq<u8>>, f: spec_fn(u8) -> u8)
    requires
        grid_wf(b),
    ensures
        grid_wf(map_cells(b, f)),
{
    assert forall|yy: int| 0 <= yy < SIZE implies #[trigger] map_cells(b, f)[yy].len() == SIZE by {}
}

/// Playing a move touches only the mover: the other snake's head, length,
/// health and life, which snakes live, the turn and the start-of-search board
/// stay as they were; the mover's length grows by at most one; and a mover
/// whose step stays on the board ends with its head there.
pub proof fn lemma_make_move_frame(v: StateView, m: u8)
    requires
        v.wf(),
        mover(m) < 2,
        v.alive[mover(m)] ==> on_board(v.heads[mover(m)]),
        v.lengths[mover(m)] < 255,
    ensures
        ({
            let w = make_move_spec(v, m);
            let i = mover(m);
            let j = 1 - i;
            &&& w.wf()
            &&& w.heads[j] == v.heads[j]
            &&& w.healths[j] == v.healths[j]
            &&& w.lengths[j] == v.lengths[j]
            &&& w.alive == v.alive
            &&& w.turn == v.turn
            &&& w.original == v.original
            &&& v.lengths[i] <= w.lengths[i] <= v.lengths[i] + 1
            &&& (v.alive[i] && step(v.heads[i], direction(m)) is Some ==> on_board(w.heads[i]))
        }),
{
    let i = mover(m);
    if v.alive[i] {
        let h = v.heads[i];
        lemma_set_cell_wf(v.board, h.0 as int, h.1 as int, neck_value(v, i));
        let b1 = board_with_neck(v, i);
        lemma_map_cells_wf(b1, |c: u8| trim_cell(c, i));
        lemma_map_cells_wf(b1, |c: u8| shrink_cell(c, i));
    }
}

/// A dead snake does not move: playing its move changes nothing.
pub proof fn lemma_dead_snake_stays(v: StateView, m: u8)
    requires
        !v.alive[mover(m)],
    ensures
        make_move_spec(v, m) == v,
{
}

/// What the end of a turn leaves: the turn counter has advanced by one; no
/// snake comes back to life; every snake still alive has health left, its
/// head on the board, and the head, length and health it had; and every
/// snake removed has no length, no health, its head parked off the board, and
/// no cell left on the board.
pub proof fn lemma_end_turn_outcome(v: StateView)
    requires
        v.wf(),
    ensures
        ({
            let w = end_turn_spec(v);
            &&& w.wf()
            &&& w.turn == (v.turn + 1) as u16
            &&& w.original == v.original
            &&& forall|i: int| 0 <= i < 2 ==> {
                &&& (#[trigger] w.alive[i] ==> {
                    &&& v.alive[i]
                    &&& w.healths[i] >= 1
                    &&& on_board(w.heads[i])
                    &&& w.heads[i] == v.heads[i]
                    &&& w.lengths[i] == v.lengths[i]
                    &&& w.healths[i] == v.healths[i]
                })
                &&& (dies(v, i) ==> {
                    &&& !w.alive[i]
                    &&& w.lengths[i] == 0
                    &&& w.healths[i] == 0
                    &&& w.heads[i] == off_board()
                    &&& forall|x: int, y: int| #![trigger w.board[y][x]] in_grid(x, y) && w.board[y][x] != FOOD
                        ==> owner(w.board[y][x]) != i || w.board[y][x] == 0
                })
                &&& (!dies(v, i) ==> w.alive[i] == v.alive[i])
            }
        }),
{
    let b0 = clear_food_at(v.board, v, 0);
    let h0 = v.heads[0];
    let h1 = v.heads[1];
    if survives_checks(v, 0) {
        lemma_set_cell_wf(v.board, h0.0 as int, h0.1 as int, 0);
    }
    assert(grid_wf(b0));
    let b1 = clear_food_at(b0, v, 1);
    if survives_checks(v, 1) {
        lemma_set_cell_wf(b0, h1.0 as int, h1.1 as int, 0);
    }
    assert(grid_wf(b1));
    let w = StateView { board: b1, turn: (v.turn + 1) as u16, ..v };
    lemma_map_cells_wf(w.board, |c: u8| kill_cell(c, 0));
    let w0 = if dies(v, 0) { kill_spec(w, 0) } else { w };
    lemma_map_cells_wf(w0.board, |c: u8| kill_cell(c, 1));
    let w1 = end_turn_spec(v);
    assert(w1.wf());
    assert forall|i: int| 0 <= i < 2 && dies(v, i) implies
        forall|x: int, y: int| #![trigger w1.board[y][x]] in_grid(x, y) && w1.board[y][x] != FOOD
            ==> owner(w1.board[y][x]) != i || w1.board[y][x] == 0 by {
        assert forall|x: int, y: int| #![trigger w1.board[y][x]] in_grid(x, y) && w1.board[y][x] != FOOD
            implies owner(w1.board[y][x]) != i || w1.board[y][x] == 0 by {
            assert(w0.board[y].len() == SIZE);
        }
    }
}

/// A move leaves food and the other snake's body alone: every cell other
/// than the mover's old head cell that holds food, or a part of the other
/// snake, holds the same after the move.
pub proof fn lemma_make_move_keeps_others(v: StateView, m: u8, x: int, y: int)
    requires
        v.wf(),
        mover(m) < 2,
        v.alive[mover(m)] ==> on_board(v.heads[mover(m)]),
        in_grid(x, y),
        !(v.alive[mover(m)] && x == v.heads[mover(m)].0 && y == v.heads[mover(m)].1),
        v.cell(x, y) == FOOD || owner(v.cell(x, y)) != mover(m),
    ensures
        make_move_spec(v, m).cell(x, y) == v.cell(x, y),
{
    let i = mover(m);
    if v.alive[i] {
        let h = v.heads[i];
        lemma_set_cell_wf(v.board, h.0 as int, h.1 as int, neck_value(v, i));
    }
}

/// The board encoding: every cell is empty, food, or a body part of snake 0
/// or 1 that stays between 1 and that snake's length more turns.
pub open spec fn encoding_ok(v: StateView) -> bool {
    forall|x: int, y: int| #![trigger v.board[y][x]] in_grid(x, y) ==> {
        let c = v.board[y][x];
        c == 0 || c == FOOD || 1 <= remaining(c) <= v.lengths[owner(c)]
    }
}

/// Playing a move keeps the board encoding, where a live mover has its head
/// on the board and a length between 1 and 126 (so that its neck is neither
/// empty nor food).
pub proof fn lemma_make_move_keeps_encoding(v: StateView, m: u8)
    requires
        v.wf(),
        encoding_ok(v),
        mover(m) < 2,
        v.alive[mover(m)] ==> on_board(v.heads[mover(m)]) && 1 <= v.lengths[mover(m)] <= 126,
    ensures
        encoding_ok(make_move_spec(v, m)),
{
    let i = mover(m);
    if v.alive[i] {
        let h = v.heads[i];
        let nv = neck_value(v, i);
        assert(owner(nv) == i && remaining(nv) == v.lengths[i] && nv != FOOD && nv != 0);
        lemma_set_cell_wf(v.board, h.0 as int, h.1 as int, nv);
        let b1 = board_with_neck(v, i);
        assert forall|x: int, y: int| in_grid(x, y) implies {
            let c = #[trigger] b1[y][x];
            c == 0 || c == FOOD || 1 <= remaining(c) <= v.lengths[owner(c)]
        } by {
            if !(x == h.0 && y == h.1) {
                assert(b1[y][x] == v.board[y][x]);
            }
        }
        let w = make_move_spec(v, m);
        match step(v.heads[i], direction(m)) {
            None => {},
            Some(nh) => {
                if b1[nh.1 as int][nh.0 as int] == FOOD {
                    assert forall|x: int, y: int| in_grid(x, y) implies {
                        let c = #[trigger] w.board[y][x];
                        c == 0 || c == FOOD || 1 <= remaining(c) <= w.lengths[owner(c)]
                    } by {
                        assert(b1[y].len() == SIZE);
                        assert(w.board[y][x] == trim_cell(b1[y][x], i));
                    }
                } else {
                    assert forall|x: int, y: int| in_grid(x, y) implies {
                        let c = #[trigger] w.board[y][x];
                        c == 0 || c == FOOD || 1 <= remaining(c) <= w.lengths[owner(c)]
                    } by {
                        assert(b1[y].len() == SIZE);
                        let c0 = b1[y][x];
                        assert(w.board[y][x] == shrink_cell(c0, i));
                        if c0 != FOOD && owner(c0) == i && remaining(c0) > 1 {
                            assert(owner((c0 - 1) as u8) == owner(c0));
                            assert(remaining((c0 - 1) as u8) == remaining(c0) - 1);
                        }
                    }
                }
            },
        }
    }
}

/// Ending a turn keeps the board encoding.
pub proof fn lemma_end_turn_keeps_encoding(v: StateView)
    requires
        v.wf(),
        encoding_ok(v),
    ensures
        encoding_ok(end_turn_spec(v)),
{
    let h0 = v.heads[0];
    let h1 = v.heads[1];
    let b0 = clear_food_at(v.board, v, 0);
    if survives_checks(v, 0) {
        lemma_set_cell_wf(v.board, h0.0 as int, h0.1 as int, 0);
    }
    let b1 = clear_food_at(b0, v, 1);
    if survives_checks(v, 1) {
        lemma_set_cell_wf(b0, h1.0 as int, h1.1 as int, 0);
    }
    assert forall|x: int, y: int| in_grid(x, y) implies {
        let c = #[trigger] b1[y][x];
        c == 0 || c == FOOD || 1 <= remaining(c) <= v.lengths[owner(c)]
    } by {
        assert(b0[y][x] == v.board[y][x] || b0[y][x] == 0);
    }
    let w = StateView { board: b1, turn: (v.turn + 1) as u16, ..v };
    assert(encoding_ok(w));
    lemma_map_cells_wf(w.board, |c: u8| kill_cell(c, 0));
    let w0 = if dies(v, 0) { kill_spec(w, 0) } else { w };
    assert forall|x: int, y: int| in_grid(x, y) implies {
        let c = #[trigger] w0.board[y][x];
        c == 0 || c == FOOD || 1 <= remaining(c) <= w0.lengths[owner(c)]
    } by {
        assert(b1[y].len() == SIZE);
    }
    lemma_map_cells_wf(w0.board, |c: u8| kill_cell(c, 1));
    let w1 = end_turn_spec(v);
    assert forall|x: int, y: int| in_grid(x, y) implies {
        let c = #[trigger] w1.board[y][x];
        c == 0 || c == FOOD || 1 <= remaining(c) <= w1.lengths[owner(c)]
    } by {
        assert(w0.board[y].len() == SIZE);
    }
}

/// Where a move sends a live snake whose head is on the board: up adds one to
/// the row, down takes one off it, left takes one off the column and right
/// adds one to it; only a step past the edge (up or right from 10, down or
/// left from 0) parks the head off the board at (11, 11).
pub proof fn lemma_move_directions(v: StateView, m: u8)
    requires
        v.wf(),
        mover(m) < 2,
        v.alive[mover(m)],
        on_board(v.heads[mover(m)]),
    ensures
        ({
            let i = mover(m);
            let x = v.heads[i].0;
            let y = v.heads[i].1;
            let h = make_move_spec(v, m).heads[i];
            &&& m % 4 == 0 ==> h == if y < 10 { (x, (y + 1) as u8) } else { (11u8, 11u8) }
            &&& m % 4 == 1 ==> h == if y > 0 { (x, (y - 1) as u8) } else { (11u8, 11u8) }
            &&& m % 4 == 2 ==> h == if x > 0 { ((x - 1) as u8, y) } else { (11u8, 11u8) }
            &&& m % 4 == 3 ==> h == if x < 10 { ((x + 1) as u8, y) } else { (11u8, 11u8) }
        }),
{
}

/// Who lives after the end of a turn: exactly the snakes that were alive,
/// have health left, have their head on the board, on a cell that is food or
/// holds no body part that stays (its low seven bits are 0), and are not
/// beaten head to head (sharing the head cell with a snake at least as long).
pub proof fn lemma_end_turn_who_lives(v: StateView)
    requires
        v.wf(),
    ensures
        forall|i: int|
            0 <= i < 2 ==> #[trigger] end_turn_spec(v).alive[i] == {
                let h = v.heads[i];
                &&& v.alive[i]
                &&& v.healths[i] > 0
                &&& h.0 < 11 && h.1 < 11
                &&& (v.board[h.1 as int][h.0 as int] == 0xFF || v.board[h.1 as int][h.0 as int] % 128 == 0)
                &&& !(h == v.heads[1 - i] && v.lengths[i] <= v.lengths[1 - i])
            },
{
    lemma_end_turn_outcome(v);
}

} // verus!
