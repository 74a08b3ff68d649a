//! A depth-first probe of how far snake 0 can run from its head.
use vstd::prelude::*;
use std::collections::VecDeque;
use crate::board::{
    FOOD, SIZE, State, StateView, before, grid_view, grid_wf, in_grid, lemma_cell_bits, lemma_view_wf, owner,
    remaining, set_cell, write_cell,
};
use crate::moves::map_cells;
use crate::eval::signed;

verus! {

/// A board of flags of `SIZE` rows of `SIZE` flags, indexed `[y][x]`.
pub open spec fn flags_wf(b: Seq<Seq<bool>>) -> bool {
    &&& b.len() == SIZE
    &&& forall|y: int| 0 <= y < SIZE ==> #[trigger] b[y].len() == SIZE
}

/// The view of an array of flags.
pub open spec fn flags_view(b: [[bool; SIZE]; SIZE]) -> Seq<Seq<bool>> {
    b@.map_values(|r: [bool; SIZE]| r@)
}

/// Writes `v` into flag `(x, y)`.
fn write_flag(b: &mut [[bool; SIZE]; SIZE], x: usize, y: usize, v: bool)
    requires
        x < SIZE,
        y < SIZE,
    ensures
        flags_view(*final(b)) == flags_view(*old(b)).update(y as int, flags_view(*old(b))[y as int].update(x as int, v)),
{
    b[y][x] = v;
    assert(flags_view(*b) =~~= flags_view(*old(b)).update(y as int, flags_view(*old(b))[y as int].update(x as int, v)));
}

/// A start cell: food stays food, any other value is raised by `buffer`.
pub open spec fn start_cell(c: u8, buffer: u8) -> u8 {
    if c == FOOD { c } else { (c + buffer) as u8 }
}

/// The board the probe starts from: every body part stays `buffer` turns
/// longer.
pub open spec fn start_board(b: Seq<Seq<u8>>, buffer: u8) -> Seq<Seq<u8>> {
    map_cells(b, |c: u8| start_cell(c, buffer))
}

/// The boards on which raising every non-food cell by `buffer` fits a byte.
pub open spec fn start_ok(b: Seq<Seq<u8>>, buffer: u8) -> bool {
    forall|x: int, y: int| #![trigger b[y][x]] in_grid(x, y) && b[y][x] != FOOD ==> b[y][x] + buffer <= 255
}

/// Returns the board with every body part lasting `buffer` turns longer.
fn get_start_struct(board_struct: [[u8; SIZE]; SIZE], snake_lengths: [u8; 2], buffer: u8) -> (r: [[u8; SIZE]; SIZE])
    requires
        start_ok(grid_view(board_struct), buffer),
    ensures
        grid_view(r) == start_board(grid_view(board_struct), buffer),
{
    let ghost b0 = grid_view(board_struct);
    let mut start_struct: [[u8; SIZE]; SIZE] = [[0; SIZE]; SIZE];
    proof {
        assert forall|y: int| 0 <= y < SIZE implies #[trigger] b0[y].len() == SIZE by {}
    }

    for y in 0..SIZE
        invariant
            b0 == grid_view(board_struct),
            grid_wf(b0),
            start_ok(b0, buffer),
            grid_wf(grid_view(start_struct)),
            forall|xx: int, yy: int| #![trigger grid_view(start_struct)[yy][xx]] in_grid(xx, yy) && before(xx, yy, 0, y as int)
                ==> grid_view(start_struct)[yy][xx] == start_cell(b0[yy][xx], buffer),
    {
        for x in 0..SIZE
            invariant
                b0 == grid_view(board_struct),
                y < SIZE,
                grid_wf(b0),
                start_ok(b0, buffer),
                grid_wf(grid_view(start_struct)),
                forall|xx: int, yy: int| #![trigger grid_view(start_struct)[yy][xx]] in_grid(xx, yy)
                    && before(xx, yy, x as int, y as int) ==> grid_view(start_struct)[yy][xx] == start_cell(
                    b0[yy][xx],
                    buffer,
                ),
        {
            let cell = board_struct[y][x];
            assert(cell == b0[y as int][x as int]);
            let ghost before_write = grid_view(start_struct);
            if cell == 0b11111111 {
                write_cell(&mut start_struct, x, y, cell);
            } else {
                write_cell(&mut start_struct, x, y, cell + buffer);
            }
            assert forall|xx: int, yy: int| in_grid(xx, yy) && (xx, yy) != (x as int, y as int) implies
                #[trigger] grid_view(start_struct)[yy][xx] == before_write[yy][xx] by {}
        }
    }
    assert(grid_view(start_struct) =~~= start_board(b0, buffer));
    start_struct
}

/// A cell one probe step later: snake 0's parts last one turn less unless it
/// ate; the enemy's parts last one turn less and leave when their time is up.
pub open spec fn probe_cell(c: u8, ate: bool) -> u8 {
    if c == FOOD || c == 0 {
        c
    } else if owner(c) == 0 {
        if ate { c } else { (c - 1) as u8 }
    } else if remaining((c - 1) as u8) == 0 {
        0
    } else {
        (c - 1) as u8
    }
}

/// The board after snake 0's head moves from `(old_x, old_y)`, with `len`
/// its length once the move is made: every cell is aged by `probe_cell`, and
/// the cell left becomes the neck, which stays `len - 1 + buffer` turns.
pub open spec fn probe_board(b: Seq<Seq<u8>>, ate: bool, old_x: int, old_y: int, len: u8, buffer: u8) -> Seq<Seq<u8>> {
    set_cell(map_cells(b, |c: u8| probe_cell(c, ate)), old_x, old_y, (len - 1 + buffer) as u8)
}

/// Moves snake 0's head from `(old_x, old_y)` to `(new_x, new_y)` on a probe
/// board: counts food eaten into `snake_lengths[0]` and returns the aged board.
fn move_head(
    board_struct: [[u8; SIZE]; SIZE],
    snake_lengths: &mut [u8; 2],
    old_x: u8,
    old_y: u8,
    new_x: u8,
    new_y: u8,
    buffer: u8,
) -> (r: [[u8; 11]; 11])
    requires
        old_x < SIZE,
        old_y < SIZE,
        new_x < SIZE,
        new_y < SIZE,
        ({
            let len = old(snake_lengths)@[0] + if grid_view(board_struct)[new_y as int][new_x as int] == FOOD {
                1int
            } else {
                0
            };
            1 <= len <= 255 && len - 1 + buffer <= 255
        }),
    ensures
        ({
            let ate = grid_view(board_struct)[new_y as int][new_x as int] == FOOD;
            let len = (old(snake_lengths)@[0] + if ate { 1int } else { 0 }) as u8;
            &&& final(snake_lengths)@ == old(snake_lengths)@.update(0, len)
            &&& grid_view(r) == probe_board(grid_view(board_struct), ate, old_x as int, old_y as int, len, buffer)
        }),
{
    let ghost b0 = grid_view(board_struct);
    proof {
        assert forall|y: int| 0 <= y < SIZE implies #[trigger] b0[y].len() == SIZE by {}
    }
    let ate_food = board_struct[new_y as usize][new_x as usize] == 0b11111111;
    assert(ate_food == (b0[new_y as int][new_x as int] == FOOD));
    snake_lengths[0] += if ate_food { 1u8 } else { 0u8 };

    let mut new_board_struct: [[u8; SIZE]; SIZE] = [[0; SIZE]; SIZE];

    for y in 0..SIZE
        invariant
            b0 == grid_view(board_struct),
            grid_wf(b0),
            grid_wf(grid_view(new_board_struct)),
            forall|xx: int, yy: int| #![trigger grid_view(new_board_struct)[yy][xx]] in_grid(xx, yy) && before(xx, yy, 0, y as int)
                ==> grid_view(new_board_struct)[yy][xx] == probe_cell(b0[yy][xx], ate_food),
    {
        for x in 0..SIZE
            invariant
                b0 == grid_view(board_struct),
                y < SIZE,
                grid_wf(b0),
                grid_wf(grid_view(new_board_struct)),
                forall|xx: int, yy: int| #![trigger grid_view(new_board_struct)[yy][xx]] in_grid(xx, yy)
                    && before(xx, yy, x as int, y as int) ==> grid_view(new_board_struct)[yy][xx] == probe_cell(
                    b0[yy][xx],
                    ate_food,
                ),
        {
            let cell = board_struct[y][x];
            assert(cell == b0[y as int][x as int]);
            proof { lemma_cell_bits(cell); }
            let ghost before_write = grid_view(new_board_struct);
            write_cell(&mut new_board_struct, x, y, cell);

            if cell == 0b11111111 {
            } else if cell > 0 {
                let index = ((cell & 0b10000000) >> 7) as usize;

                if index == 0 {
                    // snake 0's parts stay put when it has eaten
                    write_cell(&mut new_board_struct, x, y, cell - if !ate_food { 1u8 } else { 0u8 });
                } else {
                    let lowered = cell - 1;
                    proof { lemma_cell_bits(lowered); }
                    write_cell(&mut new_board_struct, x, y, lowered);
                    if lowered & 0b01111111 == 0 {
                        write_cell(&mut new_board_struct, x, y, 0);
                    }
                }
            }
            assert(grid_view(new_board_struct)[y as int][x as int] == probe_cell(b0[y as int][x as int], ate_food));
            assert forall|xx: int, yy: int| in_grid(xx, yy) && (xx, yy) != (x as int, y as int) implies
                #[trigger] grid_view(new_board_struct)[yy][xx] == before_write[yy][xx] by {}
        }
    }
    let ghost aged = grid_view(new_board_struct);
    assert(aged =~~= map_cells(b0, |c: u8| probe_cell(c, ate_food)));

    write_cell(&mut new_board_struct, old_x as usize, old_y as usize, snake_lengths[0] - 1 + buffer);

    return new_board_struct;
}

/// Flag `(x, y)` one step later: set if it was, or if the cell is free (at
/// most one turn of body left) and a neighbour's flag is set.
pub open spec fn spread_flag(h: Seq<Seq<bool>>, b: Seq<Seq<u8>>, x: int, y: int) -> bool {
    ||| h[y][x]
    ||| (remaining(b[y][x]) <= 1 && (
        (y < SIZE - 1 && h[y + 1][x]) || (y > 0 && h[y - 1][x]) || (x > 0 && h[y][x - 1]) || (x < SIZE - 1 && h[y][x + 1])))
}

/// The flags one step later.
pub open spec fn spread(h: Seq<Seq<bool>>, b: Seq<Seq<u8>>) -> Seq<Seq<bool>> {
    Seq::new(SIZE as nat, |y: int| Seq::new(SIZE as nat, |x: int| spread_flag(h, b, x, y)))
}

/// Spreads the enemy-head flags by one step onto the free neighbouring cells:
/// where an enemy head may be one move later.
fn update_head_struct(head_struct: [[bool; SIZE]; SIZE], board_struct: [[u8; SIZE]; SIZE]) -> (r: [[bool; SIZE]; SIZE])
    ensures
        flags_view(r) == spread(flags_view(head_struct), grid_view(board_struct)),
{
    let ghost h0 = flags_view(head_struct);
    let ghost b0 = grid_view(board_struct);
    let mut new_head_struct = head_struct;
    proof {
        assert forall|y: int| 0 <= y < SIZE implies #[trigger] b0[y].len() == SIZE by {}
        assert forall|y: int| 0 <= y < SIZE implies #[trigger] h0[y].len() == SIZE by {}
    }

    for y in 0..SIZE
        invariant
            h0 == flags_view(head_struct),
            b0 == grid_view(board_struct),
            grid_wf(b0),
            flags_wf(h0),
            flags_wf(flags_view(new_head_struct)),
            forall|xx: int, yy: int| #![trigger flags_view(new_head_struct)[yy][xx]] in_grid(xx, yy) ==>
                flags_view(new_head_struct)[yy][xx] == if before(xx, yy, 0, y as int) {
                    spread_flag(h0, b0, xx, yy)
                } else {
                    h0[yy][xx]
                },
    {
        for x in 0..SIZE
            invariant
                h0 == flags_view(head_struct),
                b0 == grid_view(board_struct),
                y < SIZE,
                grid_wf(b0),
                flags_wf(h0),
                flags_wf(flags_view(new_head_struct)),
                forall|xx: int, yy: int| #![trigger flags_view(new_head_struct)[yy][xx]] in_grid(xx, yy) ==>
                    flags_view(new_head_struct)[yy][xx] == if before(xx, yy, x as int, y as int) {
                        spread_flag(h0, b0, xx, yy)
                    } else {
                        h0[yy][xx]
                    },
        {
            let ghost before_write = flags_view(new_head_struct);
            let cell = board_struct[y][x];
            proof { lemma_cell_bits(cell); }
            assert(cell == b0[y as int][x as int]);
            let free = cell & 0b01111111 <= 1;
            let mut flag = new_head_struct[y][x];
            assert(flag == flags_view(new_head_struct)[y as int][x as int]);
            assert(flag == h0[y as int][x as int]);
            if y < SIZE - 1 {
                if free {
                    flag = flag || head_struct[y + 1][x];
                }
            }
            if y > 0 {
                if free {
                    flag = flag || head_struct[y - 1][x];
                }
            }
            if x > 0 {
                if free {
                    flag = flag || head_struct[y][x - 1];
                }
            }
            if x < SIZE - 1 {
                if free {
                    flag = flag || head_struct[y][x + 1];
                }
            }
            write_flag(&mut new_head_struct, x, y, flag);
            assert(flags_view(new_head_struct)[y as int][x as int] == spread_flag(h0, b0, x as int, y as int));
            assert forall|xx: int, yy: int| in_grid(xx, yy) && (xx, yy) != (x as int, y as int) implies
                #[trigger] flags_view(new_head_struct)[yy][xx] == before_write[yy][xx] by {}
        }
    }
    assert(flags_view(new_head_struct) =~~= spread(h0, b0));
    return new_head_struct;
}

/// One node of the probe: the board, snake 0's head, how many moves were made
/// to get here, and where the enemy's head may be (if at least as long as
/// snake 0, and if shorter).
pub struct Probe {
    pub board: Seq<Seq<u8>>,
    pub x: u8,
    pub y: u8,
    pub depth: u8,
    pub enemy: Seq<Seq<bool>>,
    pub smaller: Seq<Seq<bool>>,
}

/// The column step of direction `k` (up, down, left, right).
pub open spec fn step_x(k: int) -> int {
    if k == 2 { -1 } else if k == 3 { 1 } else { 0 }
}

/// The row step of direction `k` (up, down, left, right).
pub open spec fn step_y(k: int) -> int {
    if k == 0 { 1 } else if k == 1 { -1 } else { 0 }
}

/// The nodes that follow `p`, for the directions `k..4` in order (the head's
/// coordinates read as signed bytes), with `len`
/// snake 0's length so far (it counts the food eaten by earlier directions
/// of the same node): each step that stays on the board, is not (for
/// `worst_case`) where an enemy head may be, and enters food or a cell with
/// at most one turn of body left (in its six low bits).
pub open spec fn children(p: Probe, k: int, len: u8, worst_case: bool, buffer: u8) -> Seq<Probe>
    decreases 4 - k,
{
    if k < 0 || k >= 4 {
        seq![]
    } else {
        let nx = signed(p.x) + step_x(k);
        let ny = signed(p.y) + step_y(k);
        if !in_grid(nx, ny) || (worst_case && (p.enemy[ny][nx] || p.smaller[ny][nx])) {
            children(p, k + 1, len, worst_case, buffer)
        } else {
            let c = p.board[ny][nx];
            if c == FOOD || c % 64 <= 1 {
                let ate = c == FOOD;
                let len2 = (len + if ate { 1int } else { 0 }) as u8;
                let child = Probe {
                    board: probe_board(p.board, ate, p.x as int, p.y as int, len2, buffer),
                    x: nx as u8,
                    y: ny as u8,
                    depth: (p.depth + 1) as u8,
                    enemy: spread(p.enemy, p.board),
                    smaller: spread(p.smaller, p.board),
                };
                seq![child] + children(p, k + 1, len2, worst_case, buffer)
            } else {
                children(p, k + 1, len, worst_case, buffer)
            }
        }
    }
}

/// The probe as a depth-first search over a stack of nodes, `iteration`
/// nodes having been taken already and `best` the greatest depth among them:
/// the search stops (with `best`) when the stack is empty or at the
/// hundredth node; a node more than `len + 10` moves deep ends it with its
/// depth; otherwise the node's children are pushed.
pub open spec fn probe_run(stack: Seq<Probe>, iteration: int, len: u8, worst_case: bool, buffer: u8, best: u8) -> u8
    decreases 100 - iteration,
{
    if stack.len() == 0 || iteration + 1 >= 100 || iteration < 0 {
        best
    } else {
        let p = stack.last();
        if p.depth > len + 10 {
            p.depth
        } else {
            let best2 = if p.depth > best { p.depth } else { best };
            probe_run(
                stack.drop_last() + children(p, 0, len, worst_case, buffer),
                iteration + 1,
                len,
                worst_case,
                buffer,
                best2,
            )
        }
    }
}

/// The flags with only `(x, y)` set, where `set`; no flag otherwise.
pub open spec fn single_flag(x: int, y: int, set: bool) -> Seq<Seq<bool>> {
    Seq::new(SIZE as nat, |yy: int| Seq::new(SIZE as nat, |xx: int| set && xx == x && yy == y))
}

/// The first node of the probe: the start board, snake 0's head, depth 0,
/// and the enemy's head flagged (as at least as long as snake 0, or as
/// shorter) where it is at least three long.
pub open spec fn root_probe(v: StateView, buffer: u8) -> Probe {
    let h = v.heads[1];
    let big = v.lengths[1] >= 3 && v.lengths[1] >= v.lengths[0];
    let small = v.lengths[1] >= 3 && v.lengths[1] < v.lengths[0];
    Probe {
        board: start_board(v.board, buffer),
        x: v.heads[0].0,
        y: v.heads[0].1,
        depth: 0,
        enemy: single_flag(h.0 as int, h.1 as int, big),
        smaller: single_flag(h.0 as int, h.1 as int, small),
    }
}

/// What `floodfill` returns: the greatest depth the probe reaches among the
/// first 99 nodes it takes (in depth-first order), or, as soon as a node lies
/// more than `length + 10` moves deep, that node's depth.
pub open spec fn floodfill_spec(v: StateView, worst_case: bool, buffer: u8) -> u8 {
    probe_run(seq![root_probe(v, buffer)], 0, v.lengths[0], worst_case, buffer, 0)
}

/// Whether playing the directions `k..4` from node `p` stays within the
/// machine's limits, `len` being snake 0's length so far: the head
/// coordinates plus a step fit a signed byte (the column is only computed
/// once the row lies on the board); and for every step taken, the head it
/// leaves is on the board, the length after eating fits a byte and is at
/// least 1, and the neck value `len - 1 + buffer` fits a byte.
pub open spec fn children_safe(p: Probe, k: int, len: u8, worst_case: bool, buffer: u8) -> bool
    decreases 4 - k,
{
    if k < 0 || k >= 4 {
        true
    } else {
        let ny = signed(p.y) + step_y(k);
        let nx = signed(p.x) + step_x(k);
        if !(-128 <= ny <= 127) {
            false
        } else if !(0 <= ny < SIZE) {
            children_safe(p, k + 1, len, worst_case, buffer)
        } else if !(-128 <= nx <= 127) {
            false
        } else if !(0 <= nx < SIZE) || (worst_case && (p.enemy[ny][nx] || p.smaller[ny][nx])) {
            children_safe(p, k + 1, len, worst_case, buffer)
        } else {
            let c = p.board[ny][nx];
            if c == FOOD || c % 64 <= 1 {
                let len2 = len + if c == FOOD { 1int } else { 0 };
                &&& p.x < SIZE && p.y < SIZE
                &&& 1 <= len2 <= 255
                &&& len2 - 1 + buffer <= 255
                &&& children_safe(p, k + 1, len2 as u8, worst_case, buffer)
            } else {
                children_safe(p, k + 1, len, worst_case, buffer)
            }
        }
    }
}

/// Whether the probe from `stack` (as `probe_run` takes it) stays within the
/// machine's limits: the depth test `len + 10` fits a byte, and every node
/// expanded can play its children.
pub open spec fn probe_safe(stack: Seq<Probe>, iteration: int, len: u8, worst_case: bool, buffer: u8) -> bool
    decreases 100 - iteration,
{
    if stack.len() == 0 || iteration + 1 >= 100 || iteration < 0 {
        true
    } else {
        let p = stack.last();
        &&& len + 10 <= 255
        &&& (p.depth <= len + 10 ==> {
            &&& children_safe(p, 0, len, worst_case, buffer)
            &&& probe_safe(stack.drop_last() + children(p, 0, len, worst_case, buffer), iteration + 1, len, worst_case, buffer)
        })
    }
}

/// The inputs on which the probe stays on the board and within the
/// machine's limits: the enemy's head is on the board where it is at least
/// three long, the buffer can be added to every body part, and the probe
/// itself stays within the limits.
pub open spec fn floodfill_ok(v: StateView, worst_case: bool, buffer: u8) -> bool {
    &&& v.lengths[1] >= 3 ==> v.heads[1].0 < SIZE && v.heads[1].1 < SIZE
    &&& start_ok(v.board, buffer)
    &&& probe_safe(seq![root_probe(v, buffer)], 0, v.lengths[0], worst_case, buffer)
}

/// A node of the probe as the code stores it: board, lengths, head, depth,
/// and the two boards of enemy-head flags.
pub type Node = ([[u8; SIZE]; SIZE], [u8; 2], u8, u8, u8, [[bool; SIZE]; SIZE], [[bool; SIZE]; SIZE]);

/// The probe node a stored node stands for.
pub open spec fn node_view(e: Node) -> Probe {
    Probe { board: grid_view(e.0), x: e.2, y: e.3, depth: e.4, enemy: flags_view(e.5), smaller: flags_view(e.6) }
}

/// The probe nodes a stack of stored nodes stands for.
pub open spec fn stack_view(q: Seq<Node>) -> Seq<Probe> {
    q.map_values(|e: Node| node_view(e))
}

/// A stored node which carries `lengths` and lies at most `iteration` moves
/// deep.
pub open spec fn node_ok(e: Node, lengths: [u8; 2], iteration: int) -> bool {
    &&& e.1 == lengths
    &&& e.4 <= iteration
}

/// Probes depth-first how far snake 0 can run from its head (at most 99
/// nodes): returns the longest path found, stopping as soon as one is more
/// than its length plus 10 moves long. A body part counts `buffer` turns longer; with
/// `worst_case`, cells where the enemy's head may be are avoided.
pub fn floodfill(state: &State, worst_case: bool, buffer: u8) -> (r: u8)
    requires
        floodfill_ok(state@, worst_case, buffer),
    ensures
        r == floodfill_spec(state@, worst_case, buffer),
{
    let ghost v = state@;
    proof { lemma_view_wf(*state); }

    let board_struct: [[u8; SIZE]; SIZE] = state.board_struct;
    let lengths: [u8; 2] = state.snake_lengths;

    let start_struct = get_start_struct(board_struct, lengths, buffer);

    let heads_of_snakes = state.snake_heads;

    let mut enemy_head_struct: [[bool; SIZE]; SIZE] = [[false; SIZE]; SIZE];
    let mut smaller_enemy_head_struct: [[bool; SIZE]; SIZE] = [[false; SIZE]; SIZE];
    assert(flags_view(enemy_head_struct) =~~= single_flag(0, 0, false));
    assert(flags_view(smaller_enemy_head_struct) =~~= single_flag(0, 0, false));

    for i in 1..2usize
        invariant
            v == state@,
            v.wf(),
            floodfill_ok(v, worst_case, buffer),
            lengths@ == v.lengths,
            heads_of_snakes@ == v.heads,
            flags_view(enemy_head_struct) == if i == 1 { single_flag(0, 0, false) } else {
                single_flag(v.heads[1].0 as int, v.heads[1].1 as int, v.lengths[1] >= 3 && v.lengths[1] >= v.lengths[0])
            },
            flags_view(smaller_enemy_head_struct) == if i == 1 { single_flag(0, 0, false) } else {
                single_flag(v.heads[1].0 as int, v.heads[1].1 as int, v.lengths[1] >= 3 && v.lengths[1] < v.lengths[0])
            },
    {
        if lengths[i] >= 3 {
            if lengths[i] >= lengths[0] {
                write_flag(&mut enemy_head_struct, heads_of_snakes[i].0 as usize, heads_of_snakes[i].1 as usize, true);
            } else {
                write_flag(&mut smaller_enemy_head_struct, heads_of_snakes[i].0 as usize, heads_of_snakes[i].1 as usize, true);
            }
        }
        let h = heads_of_snakes[1];
        let big = lengths[1] >= 3 && lengths[1] >= lengths[0];
        let small = lengths[1] >= 3 && lengths[1] < lengths[0];
        assert(flags_view(enemy_head_struct) =~~= single_flag(h.0 as int, h.1 as int, big));
        assert(flags_view(smaller_enemy_head_struct) =~~= single_flag(h.0 as int, h.1 as int, small));
    }

    let mut lifo_queue: VecDeque<Node> = VecDeque::new();
    lifo_queue.push_back(
        (start_struct, lengths, heads_of_snakes[0].0, heads_of_snakes[0].1, 0, enemy_head_struct, smaller_enemy_head_struct),
    );
    assert(stack_view(lifo_queue@) =~= seq![root_probe(v, buffer)]);

    let mut max_depth: u8 = 0;
    let mut iteration: u32 = 0;
    let ghost len = v.lengths[0];
    while lifo_queue.len() > 0
        invariant_except_break
            iteration < 100,
            probe_run(stack_view(lifo_queue@), iteration as int, len, worst_case, buffer, max_depth)
                == floodfill_spec(v, worst_case, buffer),
            probe_safe(stack_view(lifo_queue@), iteration as int, len, worst_case, buffer),
        invariant
            v == state@,
            floodfill_ok(v, worst_case, buffer),
            lengths@ == v.lengths,
            len == v.lengths[0],
            forall|k: int| 0 <= k < lifo_queue@.len() ==> #[trigger] node_ok(lifo_queue@[k], lengths, iteration as int),
        ensures
            floodfill_spec(v, worst_case, buffer) == max_depth,
        decreases 100 - iteration,
    {
        let ghost stack = lifo_queue@;
        let cur = lifo_queue.pop_back().unwrap();
        assert(cur == stack.last());
        assert(node_ok(cur, lengths, iteration as int));
        assert(stack_view(lifo_queue@) =~= stack_view(stack).drop_last());
        iteration += 1;
        assert forall|j: int| 0 <= j < lifo_queue@.len() implies #[trigger] node_ok(lifo_queue@[j], lengths, iteration as int) by {
            assert(lifo_queue@[j] == stack[j]);
            assert(node_ok(stack[j], lengths, iteration - 1));
        }

        if iteration >= 100 {
            break;
        }

        let cur_board_struct = cur.0;
        let mut snake_lengths = cur.1;
        let cur_x = cur.2 as i8;
        let cur_y = cur.3 as i8;
        let ghost cx = cur.2;
        let ghost cy = cur.3;
        assert(cur_x as int == signed(cx) && (cur_x as u8) == cx) by (bit_vector)
            requires cur_x == cx as i8;
        assert(cur_y as int == signed(cy) && (cur_y as u8) == cy) by (bit_vector)
            requires cur_y == cy as i8;
        let depth = cur.4;
        let enemy_head_struct = cur.5;
        let smaller_enemy_head_struct = cur.6;

        if depth > snake_lengths[0] + 10 {
            return depth;
        }
        if depth > max_depth {
            max_depth = depth;
        }
        let ghost best = max_depth;

        let new_enemy_head_struct = update_head_struct(enemy_head_struct, cur_board_struct);

        let directions: [(i8, i8); 4] = [(0, 1), (0, -1), (-1, 0), (1, 0)];
        let ghost p = node_view(cur);
        let ghost rest = stack_view(lifo_queue@);
        proof {
            let g = grid_view(cur_board_struct);
            assert forall|y: int| 0 <= y < SIZE implies #[trigger] g[y].len() == SIZE by {}
            let e = flags_view(enemy_head_struct);
            assert forall|y: int| 0 <= y < SIZE implies #[trigger] e[y].len() == SIZE by {}
            let f = flags_view(smaller_enemy_head_struct);
            assert forall|y: int| 0 <= y < SIZE implies #[trigger] f[y].len() == SIZE by {}
        }

        for k in 0..4usize
            invariant
                floodfill_ok(v, worst_case, buffer),
                lengths@ == v.lengths,
                len == v.lengths[0],
                p == node_view(cur),
                cur_x as int == signed(cur.2),
                cur_y as int == signed(cur.3),
                cur_x as u8 == cur.2,
                cur_y as u8 == cur.3,
                depth == cur.4,
                depth <= iteration - 1,
                iteration < 100,
                max_depth == best,
                cur_board_struct == cur.0,
                enemy_head_struct == cur.5,
                smaller_enemy_head_struct == cur.6,
                flags_view(new_enemy_head_struct) == spread(p.enemy, p.board),
                directions@ == seq![(0i8, 1i8), (0i8, -1i8), (-1i8, 0i8), (1i8, 0i8)],
                snake_lengths@ == v.lengths.update(0, snake_lengths@[0]),
                children_safe(p, k as int, snake_lengths@[0], worst_case, buffer),
                stack_view(lifo_queue@) + children(p, k as int, snake_lengths@[0], worst_case, buffer)
                    == rest + children(p, 0, len, worst_case, buffer),
                forall|j: int| 0 <= j < lifo_queue@.len() ==> #[trigger] node_ok(lifo_queue@[j], lengths, iteration as int),
        {
            let (dx, dy) = directions[k];
            assert(dx as int == step_x(k as int) && dy as int == step_y(k as int));
            let ghost before = stack_view(lifo_queue@);
            let ghost before_q = lifo_queue@;
            let ghost len_k = snake_lengths@[0];
            assert(-128 <= cur_y + dy <= 127);
            if cur_y + dy >= SIZE as i8 || cur_y + dy < 0 || cur_x + dx >= SIZE as i8 || cur_x + dx < 0 {
            } else if worst_case && (enemy_head_struct[(cur_y + dy) as usize][(cur_x + dx) as usize]
                || smaller_enemy_head_struct[(cur_y + dy) as usize][(cur_x + dx) as usize]) {
                assert(enemy_head_struct[(cur_y + dy) as int][(cur_x + dx) as int] == p.enemy[(cur_y + dy) as int][(cur_x + dx) as int]);
                assert(smaller_enemy_head_struct[(cur_y + dy) as int][(cur_x + dx) as int] == p.smaller[(cur_y + dy) as int][(cur_x + dx) as int]);
            } else {
                let nx = (cur_x + dx) as usize;
                let ny = (cur_y + dy) as usize;
                assert(!worst_case || !(p.enemy[ny as int][nx as int] || p.smaller[ny as int][nx as int])) by {
                    assert(enemy_head_struct[ny as int][nx as int] == p.enemy[ny as int][nx as int]);
                    assert(smaller_enemy_head_struct[ny as int][nx as int] == p.smaller[ny as int][nx as int]);
                }
                let target = cur_board_struct[ny][nx];
                proof { lemma_cell_bits(target); }
                assert(target == p.board[ny as int][nx as int]);
                if target == 0b11111111 || target & 0b00111111 <= 1 {
                    let new_smaller_enemy_head_struct = update_head_struct(smaller_enemy_head_struct, cur_board_struct);
                    let new_board_struct = move_head(
                        cur_board_struct,
                        &mut snake_lengths,
                        cur_x as u8,
                        cur_y as u8,
                        nx as u8,
                        ny as u8,
                        buffer,
                    );
                    lifo_queue.push_back(
                        (new_board_struct, lengths, nx as u8, ny as u8, depth + 1, new_enemy_head_struct, new_smaller_enemy_head_struct),
                    );
                    proof {
                        assert(stack_view(lifo_queue@) =~= before.push(node_view(lifo_queue@.last())));
                        assert forall|j: int| 0 <= j < lifo_queue@.len() implies #[trigger] node_ok(lifo_queue@[j], lengths, iteration as int) by {
                            if j < lifo_queue@.len() - 1 {
                                assert(lifo_queue@[j] == before_q[j]);
                            }
                        }
                    }
                }
            }
        }
        assert(stack_view(lifo_queue@) =~= rest + children(p, 0, len, worst_case, buffer));
    }
    max_depth
}

/// Every node that follows `p` lies one move deeper.
proof fn lemma_children_depth(p: Probe, k: int, len: u8, worst_case: bool, buffer: u8)
    ensures
        forall|j: int| 0 <= j < children(p, k, len, worst_case, buffer).len() ==>
            #[trigger] children(p, k, len, worst_case, buffer)[j].depth == (p.depth + 1) as u8,
    decreases 4 - k,
{
    if !(k < 0 || k >= 4) {
        let nx = signed(p.x) + step_x(k);
        let ny = signed(p.y) + step_y(k);
        if !in_grid(nx, ny) || (worst_case && (p.enemy[ny][nx] || p.smaller[ny][nx])) {
            lemma_children_depth(p, k + 1, len, worst_case, buffer);
            assert(children(p, k, len, worst_case, buffer) == children(p, k + 1, len, worst_case, buffer));
        } else {
            let c = p.board[ny][nx];
            if c == FOOD || c % 64 <= 1 {
                let ate = c == FOOD;
                let len2 = (len + if ate { 1int } else { 0 }) as u8;
                lemma_children_depth(p, k + 1, len2, worst_case, buffer);
                let rest = children(p, k + 1, len2, worst_case, buffer);
                let all = children(p, k, len, worst_case, buffer);
                assert(all[0].depth == (p.depth + 1) as u8);
                assert forall|j: int| 0 <= j < all.len() implies #[trigger] all[j].depth == (p.depth + 1) as u8 by {
                    if j > 0 {
                        assert(all[j] == rest[j - 1]);
                    }
                }
            } else {
                lemma_children_depth(p, k + 1, len, worst_case, buffer);
                assert(children(p, k, len, worst_case, buffer) == children(p, k + 1, len, worst_case, buffer));
            }
        }
    }
}

/// The probe ends with a depth below 100 and at least the greatest depth
/// reached so far.
pub proof fn lemma_probe_run_result(stack: Seq<Probe>, iteration: int, len: u8, worst_case: bool, buffer: u8, best: u8)
    requires
        0 <= iteration < 100,
        best <= iteration,
        best <= len + 10,
        forall|k: int| 0 <= k < stack.len() ==> #[trigger] stack[k].depth <= iteration,
    ensures
        ({
            let r = probe_run(stack, iteration, len, worst_case, buffer, best);
            best <= r < 100
        }),
    decreases 100 - iteration,
{
    if !(stack.len() == 0 || iteration + 1 >= 100 || iteration < 0) {
        let p = stack.last();
        assert(p.depth <= iteration);
        if p.depth <= len + 10 {
            let kids = children(p, 0, len, worst_case, buffer);
            lemma_children_depth(p, 0, len, worst_case, buffer);
            let next = stack.drop_last() + kids;
            assert forall|k: int| 0 <= k < next.len() implies #[trigger] next[k].depth <= iteration + 1 by {
                if k < stack.len() - 1 {
                    assert(next[k] == stack[k]);
                } else {
                    assert(next[k] == kids[k - (stack.len() - 1)]);
                }
            }
            let best2 = if p.depth > best { p.depth } else { best };
            lemma_probe_run_result(next, iteration + 1, len, worst_case, buffer, best2);
        }
    }
}

/// `floodfill` returns a depth below 100.
pub proof fn lemma_floodfill_result(v: StateView, worst_case: bool, buffer: u8)
    ensures
        floodfill_spec(v, worst_case, buffer) < 100,
{
    lemma_probe_run_result(seq![root_probe(v, buffer)], 0, v.lengths[0], worst_case, buffer, 0);
}

/// Whether the probe may step onto a cell holding `c`: food, or at most one
/// turn of body left (in its six low bits).
pub open spec fn free_cell(c: u8) -> bool {
    c == FOOD || c % 64 <= 1
}

/// Where one of the directions `k..4` from `p` leads onto the board and onto
/// a free cell, and no enemy head is avoided, `p` has a child.
proof fn lemma_children_nonempty(p: Probe, k: int, len: u8, buffer: u8, j: int)
    requires
        0 <= k <= j < 4,
        in_grid(signed(p.x) + step_x(j), signed(p.y) + step_y(j)),
        free_cell(p.board[signed(p.y) + step_y(j)][signed(p.x) + step_x(j)]),
    ensures
        children(p, k, len, false, buffer).len() > 0,
    decreases 4 - k,
{
    let nx = signed(p.x) + step_x(k);
    let ny = signed(p.y) + step_y(k);
    if k < j && !(in_grid(nx, ny) && free_cell(p.board[ny][nx])) {
        lemma_children_nonempty(p, k + 1, len, buffer, j);
    }
}

/// The probe finds a path of at least one move wherever snake 0 has a first
/// step: a neighbour of its head on the board that holds food or a body part
/// with at most one turn left (once the buffer is added), when enemy heads
/// are not avoided.
pub proof fn lemma_floodfill_first_step(v: StateView, buffer: u8, j: int)
    requires
        v.wf(),
        v.heads[0].0 < SIZE,
        v.heads[0].1 < SIZE,
        0 <= j < 4,
        in_grid(v.heads[0].0 + step_x(j), v.heads[0].1 + step_y(j)),
        free_cell(start_cell(v.cell(v.heads[0].0 + step_x(j), v.heads[0].1 + step_y(j)), buffer)),
    ensures
        floodfill_spec(v, false, buffer) >= 1,
{
    let len = v.lengths[0];
    let p = root_probe(v, buffer);
    let nx = v.heads[0].0 + step_x(j);
    let ny = v.heads[0].1 + step_y(j);
    assert(signed(p.x) == p.x && signed(p.y) == p.y);
    assert(v.board[ny].len() == SIZE);
    assert(p.board[ny][nx] == start_cell(v.cell(nx, ny), buffer));
    lemma_children_nonempty(p, 0, len, buffer, j);
    let kids = children(p, 0, len, false, buffer);
    lemma_children_depth(p, 0, len, false, buffer);
    let s0 = seq![p];
    assert(s0.drop_last() + kids =~= kids);
    assert(probe_run(s0, 0, len, false, buffer, 0) == probe_run(kids, 1, len, false, buffer, 0));
    let q = kids.last();
    assert(q.depth == 1);
    let kids2 = children(q, 0, len, false, buffer);
    lemma_children_depth(q, 0, len, false, buffer);
    let next = kids.drop_last() + kids2;
    assert forall|k: int| 0 <= k < next.len() implies #[trigger] next[k].depth <= 2 by {
        if k < kids.len() - 1 {
            assert(next[k] == kids[k]);
        } else {
            assert(next[k] == kids2[k - (kids.len() - 1)]);
        }
    }
    lemma_probe_run_result(next, 2, len, false, buffer, 1);
}

/// From a head on the board, with a length of at least 1 that leaves room
/// for the food the remaining directions may add and for the neck, playing
/// the children stays within the machine's limits, and every child has its
/// head on the board.
proof fn lemma_children_safe(p: Probe, k: int, len: u8, worst_case: bool, buffer: u8)
    requires
        p.x < SIZE,
        p.y < SIZE,
        0 <= k <= 4,
        1 <= len,
        len + (4 - k) + buffer <= 255,
    ensures
        children_safe(p, k, len, worst_case, buffer),
        forall|j: int| 0 <= j < children(p, k, len, worst_case, buffer).len() ==>
            (#[trigger] children(p, k, len, worst_case, buffer)[j]).x < SIZE
            && children(p, k, len, worst_case, buffer)[j].y < SIZE,
    decreases 4 - k,
{
    if k < 4 {
        let ny = signed(p.y) + step_y(k);
        let nx = signed(p.x) + step_x(k);
        if !in_grid(nx, ny) || (worst_case && (p.enemy[ny][nx] || p.smaller[ny][nx])) {
            lemma_children_safe(p, k + 1, len, worst_case, buffer);
            assert(children(p, k, len, worst_case, buffer) == children(p, k + 1, len, worst_case, buffer));
        } else {
            let c = p.board[ny][nx];
            if c == FOOD || c % 64 <= 1 {
                let len2 = (len + if c == FOOD { 1int } else { 0 }) as u8;
                lemma_children_safe(p, k + 1, len2, worst_case, buffer);
                let rest = children(p, k + 1, len2, worst_case, buffer);
                let all = children(p, k, len, worst_case, buffer);
                assert forall|j: int| 0 <= j < all.len() implies (#[trigger] all[j]).x < SIZE && all[j].y < SIZE by {
                    if j > 0 {
                        assert(all[j] == rest[j - 1]);
                    }
                }
            } else {
                lemma_children_safe(p, k + 1, len, worst_case, buffer);
                assert(children(p, k, len, worst_case, buffer) == children(p, k + 1, len, worst_case, buffer));
            }
        }
    }
}

/// A probe whose nodes all have their heads on the board, with a length of
/// at least 1 that leaves room for four food and the neck, and for the depth
/// test, stays within the machine's limits.
proof fn lemma_probe_safe_from(stack: Seq<Probe>, iteration: int, len: u8, worst_case: bool, buffer: u8)
    requires
        forall|k: int| 0 <= k < stack.len() ==> (#[trigger] stack[k]).x < SIZE && stack[k].y < SIZE,
        1 <= len,
        len + 10 <= 255,
        len + 4 + buffer <= 255,
    ensures
        probe_safe(stack, iteration, len, worst_case, buffer),
    decreases 100 - iteration,
{
    if !(stack.len() == 0 || iteration + 1 >= 100 || iteration < 0) {
        let p = stack.last();
        assert(p.x < SIZE && p.y < SIZE);
        lemma_children_safe(p, 0, len, worst_case, buffer);
        let kids = children(p, 0, len, worst_case, buffer);
        let next = stack.drop_last() + kids;
        assert forall|k: int| 0 <= k < next.len() implies (#[trigger] next[k]).x < SIZE && next[k].y < SIZE by {
            if k < stack.len() - 1 {
                assert(next[k] == stack[k]);
            } else {
                assert(next[k] == kids[k - (stack.len() - 1)]);
            }
        }
        lemma_probe_safe_from(next, iteration + 1, len, worst_case, buffer);
    }
}

/// Snake 0's head on the board, a length between 1 and 245 that leaves room
/// for four food and the neck, the enemy's head on the board where it is at
/// least three long, and room to add the buffer to every body part: the
/// probe runs within the machine's limits.
pub proof fn lemma_floodfill_room_is_safe(v: StateView, worst_case: bool, buffer: u8)
    requires
        v.heads[0].0 < SIZE,
        v.heads[0].1 < SIZE,
        v.lengths[1] >= 3 ==> v.heads[1].0 < SIZE && v.heads[1].1 < SIZE,
        start_ok(v.board, buffer),
        1 <= v.lengths[0] <= 245,
        v.lengths[0] + 4 + buffer <= 255,
    ensures
        floodfill_ok(v, worst_case, buffer),
{
    lemma_probe_safe_from(seq![root_probe(v, buffer)], 0, v.lengths[0], worst_case, buffer);
}

} // verus!
