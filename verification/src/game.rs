//! The game as the server describes it, and how a turn's position is read
//! into a `State` and answered with a direction.
use vstd::prelude::*;
use crate::board::{FOOD, SIZE, State, StateView, grid_view, grid_wf, set_cell, write_cell};
use crate::moves::lemma_set_cell_wf;
use crate::search::{best_move_at, checked_minimax, deepest_search, lone_ok, minimax, minimax_ok, minimax_safe};

verus! {

/// A cell of the board, `(0, 0)` bottom left.
#[derive(Clone, Copy)]
pub struct Coord {
    pub x: i32,
    pub y: i32,
}

/// A snake as the server describes it; `body[0]` is the head.
pub struct Battlesnake {
    pub id: String,
    pub name: String,
    pub health: i32,
    pub body: Vec<Coord>,
    pub head: Coord,
    pub length: i32,
    pub latency: String,
    pub shout: Option<String>,
}

/// The board as the server describes it.
pub struct Board {
    pub height: u32,
    pub width: i32,
    pub food: Vec<Coord>,
    pub snakes: Vec<Battlesnake>,
    pub hazards: Vec<Coord>,
}

/// A coordinate that lies on the board.
pub open spec fn coord_on_board(c: Coord) -> bool {
    0 <= c.x < SIZE && 0 <= c.y < SIZE
}

/// A head coordinate that lies on the board once read as a byte.
pub open spec fn head_on_board(c: Coord) -> bool {
    (c.x as u8) < SIZE && (c.y as u8) < SIZE
}

/// The code written for body part `i` of a snake `len` long owned by snake
/// `owner`: the turns it stays, `len - i`, in the owner's encoding.
pub open spec fn body_code(len: int, i: int, owner: int) -> u8 {
    ((len - i) as u8 + 128 * owner) as u8
}

/// The board with the body parts `i .. len` (all but the head) written with
/// their codes, the part nearest the tail first, so that the part nearer the
/// head wins a shared cell.
pub open spec fn paint_body(g: Seq<Seq<u8>>, body: Seq<Coord>, len: int, owner: int, i: int) -> Seq<Seq<u8>>
    decreases len - i,
{
    if i < 1 || i >= len {
        g
    } else {
        set_cell(paint_body(g, body, len, owner, i + 1), body[i].x as int, body[i].y as int, body_code(len, i, owner))
    }
}

/// The board with the cells of the body parts `i .. len` marked `mark`.
pub open spec fn mark_body(g: Seq<Seq<u8>>, body: Seq<Coord>, len: int, mark: u8, i: int) -> Seq<Seq<u8>>
    decreases len - i,
{
    if i < 1 || i >= len {
        g
    } else {
        set_cell(mark_body(g, body, len, mark, i + 1), body[i].x as int, body[i].y as int, mark)
    }
}

/// The board with food written on the cells `food[0 .. k]`.
pub open spec fn paint_food(g: Seq<Seq<u8>>, food: Seq<Coord>, k: int) -> Seq<Seq<u8>>
    decreases k,
{
    if k <= 0 || k > food.len() {
        g
    } else {
        set_cell(paint_food(g, food, k - 1), food[k - 1].x as int, food[k - 1].y as int, FOOD)
    }
}

/// The number of snakes the server's list is read up to (its length as a
/// byte).
pub open spec fn listed(board: &Board) -> int {
    (board.snakes@.len() as u8) as int
}

/// Whether snake `s` of the list is an enemy: it is read, and its id is not
/// ours.
pub open spec fn is_enemy(board: &Board, you: &Battlesnake, s: int) -> bool {
    0 <= s < listed(board) && board.snakes@[s].id@ != you.id@
}

/// Whether the list holds an enemy.
pub open spec fn has_enemy(board: &Board, you: &Battlesnake) -> bool {
    exists|s: int| is_enemy(board, you, s)
}

/// The enemy's place in the list.
pub open spec fn enemy_of(board: &Board, you: &Battlesnake) -> int {
    choose|s: int| is_enemy(board, you, s)
}

/// Whether a snake's listed body can be written: its parts `1 .. length` are
/// in the list and on the board, and their codes fit the owner's encoding.
pub open spec fn body_ok(body: Seq<Coord>, len: int, owner: int) -> bool {
    &&& parts_on_board(body, len)
    &&& forall|i: int| 1 <= i < len ==> #[trigger] body_code_fits(len, i, owner)
}

/// Whether the body parts `1 .. len` are listed and lie on the board.
pub open spec fn parts_on_board(body: Seq<Coord>, len: int) -> bool {
    &&& (len <= 1 || len <= body.len())
    &&& forall|i: int| 1 <= i < len ==> coord_on_board(#[trigger] body[i])
}

/// Whether the code of body part `i` of a snake `len` long fits the encoding
/// of snake `owner`.
pub open spec fn body_code_fits(len: int, i: int, owner: int) -> bool {
    (len - i) as u8 + 128 * owner <= 255
}

/// The inputs the reading accepts: at most one enemy is listed, and its
/// body, ours and the food are on the board, as are both heads.
pub open spec fn init_ok(board: &Board, you: &Battlesnake) -> bool {
    &&& forall|s: int, t: int| is_enemy(board, you, s) && is_enemy(board, you, t) ==> s == t
    &&& has_enemy(board, you) ==> {
        let e = board.snakes@[enemy_of(board, you)];
        &&& body_ok(e.body@, e.length as int, 1)
        &&& head_on_board(e.head)
    }
    &&& body_ok(you.body@, you.body@.len() as int, 0)
    &&& head_on_board(you.head)
    &&& forall|k: int| 0 <= k < board.food@.len() ==> coord_on_board(#[trigger] board.food@[k])
}

/// The board after reading: the enemy's body (if any), then ours, then the
/// food, written over `g`.
pub open spec fn read_board(g: Seq<Seq<u8>>, board: &Board, you: &Battlesnake) -> Seq<Seq<u8>> {
    let g1 = if has_enemy(board, you) {
        let e = board.snakes@[enemy_of(board, you)];
        paint_body(g, e.body@, e.length as int, 1, 1)
    } else {
        g
    };
    let g2 = paint_body(g1, you.body@, you.body@.len() as int, 0, 1);
    paint_food(g2, board.food@, board.food@.len() as int)
}

/// The start-of-search board after reading: the cells of the enemy's body
/// and head marked 2, then those of ours marked 1, over `g`.
pub open spec fn read_original(g: Seq<Seq<u8>>, board: &Board, you: &Battlesnake) -> Seq<Seq<u8>> {
    let g1 = if has_enemy(board, you) {
        let e = board.snakes@[enemy_of(board, you)];
        let m = mark_body(g, e.body@, e.length as int, 2, 1);
        set_cell(m, (e.head.x as u8) as int, (e.head.y as u8) as int, 2)
    } else {
        g
    };
    let g2 = mark_body(g1, you.body@, you.body@.len() as int, 1, 1);
    set_cell(g2, (you.head.x as u8) as int, (you.head.y as u8) as int, 1)
}

/// A head read as a pair of bytes.
pub open spec fn head_bytes(c: Coord) -> (u8, u8) {
    (c.x as u8, c.y as u8)
}

/// What painting the body parts `k .. len` writes: a cell on which some of
/// them lie holds the code `len - i` (in the owner's encoding) of the part
/// `i` nearest the head among them; any other cell keeps its value.
pub proof fn lemma_paint_body_cells(g: Seq<Seq<u8>>, body: Seq<Coord>, len: int, owner: int, k: int, x: int, y: int)
    requires
        grid_wf(g),
        parts_on_board(body, len),
        1 <= k,
        0 <= x < 11,
        0 <= y < 11,
    ensures
        forall|i: int|
            k <= i < len && #[trigger] body[i].x == x && body[i].y == y && (forall|j: int|
                k <= j < i ==> !(body[j].x == x && body[j].y == y)) ==> paint_body(g, body, len, owner, k)[y][x]
                == ((len - i) as u8 + 128 * owner) as u8,
        (forall|i: int| k <= i < len ==> !(#[trigger] body[i].x == x && body[i].y == y)) ==> paint_body(
            g,
            body,
            len,
            owner,
            k,
        )[y][x] == g[y][x],
    decreases len - k,
{
    if k < len {
        lemma_paint_body_cells(g, body, len, owner, k + 1, x, y);
        lemma_paint_body_wf(g, body, len, owner, k + 1);
        assert(coord_on_board(body[k]));
        lemma_set_cell_wf(paint_body(g, body, len, owner, k + 1), body[k].x as int, body[k].y as int, body_code(len, k, owner));
        assert forall|i: int|
            k <= i < len && #[trigger] body[i].x == x && body[i].y == y && (forall|j: int|
                k <= j < i ==> !(body[j].x == x && body[j].y == y)) implies paint_body(g, body, len, owner, k)[y][x]
                == ((len - i) as u8 + 128 * owner) as u8 by {
            if i > k {
                assert(!(body[k].x == x && body[k].y == y));
                assert forall|j: int| k + 1 <= j < i implies !(body[j].x == x && body[j].y == y) by {}
            }
        }
    }
}

/// What marking the body parts `k .. len` writes: `mark` on every cell on
/// which one of them lies; any other cell keeps its value.
pub proof fn lemma_mark_body_cells(g: Seq<Seq<u8>>, body: Seq<Coord>, len: int, mark: u8, k: int, x: int, y: int)
    requires
        grid_wf(g),
        parts_on_board(body, len),
        1 <= k,
        0 <= x < 11,
        0 <= y < 11,
    ensures
        mark_body(g, body, len, mark, k)[y][x] == if exists|i: int|
            k <= i < len && #[trigger] body[i].x == x && body[i].y == y {
            mark
        } else {
            g[y][x]
        },
    decreases len - k,
{
    if k < len {
        lemma_mark_body_cells(g, body, len, mark, k + 1, x, y);
        lemma_mark_body_wf(g, body, len, mark, k + 1);
        assert(coord_on_board(body[k]));
        lemma_set_cell_wf(mark_body(g, body, len, mark, k + 1), body[k].x as int, body[k].y as int, mark);
        if exists|i: int| k + 1 <= i < len && #[trigger] body[i].x == x && body[i].y == y {
            let i = choose|i: int| k + 1 <= i < len && #[trigger] body[i].x == x && body[i].y == y;
            assert(k <= i < len && body[i].x == x && body[i].y == y);
        }
        if body[k].x == x && body[k].y == y {
            assert(k <= k < len && body[k].x == x && body[k].y == y);
        }
    }
}

/// Painting body parts keeps the shape of the board.
proof fn lemma_paint_body_wf(g: Seq<Seq<u8>>, body: Seq<Coord>, len: int, owner: int, i: int)
    requires
        grid_wf(g),
        parts_on_board(body, len),
    ensures
        grid_wf(paint_body(g, body, len, owner, i)),
    decreases len - i,
{
    if !(i < 1 || i >= len) {
        lemma_paint_body_wf(g, body, len, owner, i + 1);
        assert(coord_on_board(body[i]));
        lemma_set_cell_wf(paint_body(g, body, len, owner, i + 1), body[i].x as int, body[i].y as int, body_code(len, i, owner));
    }
}

/// Marking body parts keeps the shape of the board.
proof fn lemma_mark_body_wf(g: Seq<Seq<u8>>, body: Seq<Coord>, len: int, mark: u8, i: int)
    requires
        grid_wf(g),
        parts_on_board(body, len),
    ensures
        grid_wf(mark_body(g, body, len, mark, i)),
    decreases len - i,
{
    if !(i < 1 || i >= len) {
        lemma_mark_body_wf(g, body, len, mark, i + 1);
        assert(coord_on_board(body[i]));
        lemma_set_cell_wf(mark_body(g, body, len, mark, i + 1), body[i].x as int, body[i].y as int, mark);
    }
}

/// Writes the body parts `1 .. len` of a snake, tail first, with their codes
/// into `board_struct` and with `mark` into `original_board_struct`.
fn write_body(
    board_struct: &mut [[u8; SIZE]; SIZE],
    original_board_struct: &mut [[u8; SIZE]; SIZE],
    body: &Vec<Coord>,
    len: usize,
    owner: usize,
    mark: u8,
)
    requires
        owner < 2,
        body_ok(body@, len as int, owner as int),
    ensures
        grid_view(*final(board_struct)) == paint_body(grid_view(*old(board_struct)), body@, len as int, owner as int, 1),
        grid_view(*final(original_board_struct)) == mark_body(grid_view(*old(original_board_struct)), body@, len as int, mark, 1),
{
    let ghost g0 = grid_view(*board_struct);
    let ghost o0 = grid_view(*original_board_struct);
    let mut i = len;
    while i > 1
        invariant
            owner < 2,
            1 <= i <= len || (len == 0 && i == 0),
            body_ok(body@, len as int, owner as int),
            grid_view(*board_struct) == paint_body(g0, body@, len as int, owner as int, i as int),
            grid_view(*original_board_struct) == mark_body(o0, body@, len as int, mark, i as int),
        decreases i,
    {
        i -= 1;
        assert(coord_on_board(body@[i as int]));
        assert(body_code_fits(len as int, i as int, owner as int));
        assert((len - i) as u8 == ((len - i) as int) as u8);
        let x_pos = body[i].x as usize;
        let y_pos = body[i].y as usize;

        let mut to_add = (len - i) as u8;
        assert((owner << 7) as u8 == 128 * owner) by (bit_vector) requires owner < 2;
        to_add += ((owner << 7) as u8);

        write_cell(board_struct, x_pos, y_pos, to_add);
        write_cell(original_board_struct, x_pos, y_pos, mark);
    }
}

/// Whether an enemy is listed before place `s`.
pub open spec fn enemy_before(board: &Board, you: &Battlesnake, s: int) -> bool {
    exists|t: int| 0 <= t < s && #[trigger] is_enemy(board, you, t)
}

/// Reads the server's description of a turn into the board arrays and the
/// per-snake arrays: the enemy (the listed snake whose id is not ours) goes
/// to index 1 and is marked alive, with its health, length, head and body;
/// our head goes to index 0 and our body is written; then the food.
/// On the start-of-search board, our cells are marked 1 and the enemy's 2.
pub fn initialize_board_struct_for_position(
    board_struct: &mut [[u8; SIZE]; SIZE],
    snake_lengths: &mut [u8; 2],
    snake_healths: &mut [u8; 2],
    snake_heads: &mut [(u8, u8); 2],
    are_snakes_alive: &mut [bool; 2],
    board: &Board,
    you: &Battlesnake,
    original_board_struct: &mut [[u8; SIZE]; SIZE],
)
    requires
        init_ok(board, you),
    ensures
        grid_view(*final(board_struct)) == read_board(grid_view(*old(board_struct)), board, you),
        grid_view(*final(original_board_struct)) == read_original(grid_view(*old(original_board_struct)), board, you),
        final(snake_heads)@ == (if has_enemy(board, you) {
            old(snake_heads)@.update(1, head_bytes(board.snakes@[enemy_of(board, you)].head))
        } else {
            old(snake_heads)@
        }).update(0, head_bytes(you.head)),
        final(snake_lengths)@ == if has_enemy(board, you) {
            old(snake_lengths)@.update(1, board.snakes@[enemy_of(board, you)].length as u8)
        } else {
            old(snake_lengths)@
        },
        final(snake_healths)@ == if has_enemy(board, you) {
            old(snake_healths)@.update(1, board.snakes@[enemy_of(board, you)].health as u8)
        } else {
            old(snake_healths)@
        },
        final(are_snakes_alive)@ == if has_enemy(board, you) {
            old(are_snakes_alive)@.update(1, true)
        } else {
            old(are_snakes_alive)@
        },
{
    let me_id = &you.id;

    let amount_of_alive_snakes: u8 = board.snakes.len() as u8;

    let ghost g0 = grid_view(*board_struct);
    let ghost o0 = grid_view(*original_board_struct);
    let ghost heads0 = snake_heads@;
    let ghost lengths0 = snake_lengths@;
    let ghost healths0 = snake_healths@;
    let ghost alive0 = are_snakes_alive@;
    proof {
        let n = SIZE as int;
        assert forall|y: int| 0 <= y < SIZE implies #[trigger] g0[y].len() == SIZE by {}
        assert forall|y: int| 0 <= y < SIZE implies #[trigger] o0[y].len() == SIZE by {}
    }

    // the enemy: life, health, length, body and head
    let mut snake_index: usize = 1;
    for s in 0..amount_of_alive_snakes as usize
        invariant
            init_ok(board, you),
            amount_of_alive_snakes as int == listed(board),
            listed(board) <= board.snakes@.len(),
            me_id == &you.id,
            snake_index == if enemy_before(board, you, s as int) { 2usize } else { 1usize },
            enemy_before(board, you, s as int) ==> {
                let e = board.snakes@[enemy_of(board, you)];
                &&& grid_view(*board_struct) == paint_body(g0, e.body@, e.length as int, 1, 1)
                &&& grid_view(*original_board_struct) == set_cell(
                    mark_body(o0, e.body@, e.length as int, 2, 1),
                    (e.head.x as u8) as int,
                    (e.head.y as u8) as int,
                    2,
                )
                &&& snake_heads@ == heads0.update(1, head_bytes(e.head))
                &&& snake_lengths@ == lengths0.update(1, e.length as u8)
                &&& snake_healths@ == healths0.update(1, e.health as u8)
                &&& are_snakes_alive@ == alive0.update(1, true)
            },
            !enemy_before(board, you, s as int) ==> {
                &&& grid_view(*board_struct) == g0
                &&& grid_view(*original_board_struct) == o0
                &&& snake_heads@ == heads0
                &&& snake_lengths@ == lengths0
                &&& snake_healths@ == healths0
                &&& are_snakes_alive@ == alive0
            },
    {
        let other = &board.snakes[s];
        if !(other.id == *me_id) {
            assert(is_enemy(board, you, s as int));
            assert(!enemy_before(board, you, s as int));
            assert(enemy_of(board, you) == s as int);
            are_snakes_alive[snake_index] = true;

            snake_healths[snake_index] = other.health as u8;

            snake_lengths[snake_index] = other.length as u8;

            let body_length = other.length;
            if body_length > 1 {
                write_body(board_struct, original_board_struct, &other.body, body_length as usize, 1, 2);
            } else {
                assert(paint_body(g0, other.body@, body_length as int, 1, 1) == g0);
                assert(mark_body(o0, other.body@, body_length as int, 2, 1) == o0);
            }

            let head = other.head;
            let head_x = head.x as u8;
            let head_y = head.y as u8;

            snake_heads[snake_index] = (head_x, head_y);
            write_cell(original_board_struct, head_x as usize, head_y as usize, 2);

            snake_index += 1;
        }
        assert(enemy_before(board, you, s + 1) == (enemy_before(board, you, s as int) || is_enemy(board, you, s as int)));
    }
    assert(enemy_before(board, you, listed(board)) == has_enemy(board, you));

    // our body and head
    let body_length = you.body.len();
    write_body(board_struct, original_board_struct, &you.body, body_length, 0, 1);

    let head = you.head;
    let head_x = head.x as u8;
    let head_y = head.y as u8;
    snake_heads[0] = (head_x, head_y);
    write_cell(original_board_struct, head_x as usize, head_y as usize, 1);

    // the food
    let ghost g2 = grid_view(*board_struct);
    for s in 0..board.food.len()
        invariant
            init_ok(board, you),
            grid_view(*board_struct) == paint_food(g2, board.food@, s as int),
    {
        let x_pos = board.food[s].x as usize;
        let y_pos = board.food[s].y as usize;
        assert(coord_on_board(board.food@[s as int]));
        write_cell(board_struct, x_pos, y_pos, 0b11111111);
    }
}

/// An empty board.
pub open spec fn empty_grid() -> Seq<Seq<u8>> {
    Seq::new(SIZE as nat, |y: int| Seq::new(SIZE as nat, |x: int| 0u8))
}

/// The position a turn's description is read into: our length and health at
/// index 0 and the enemy's (if any) at index 1, the heads, the boards, and
/// the turn number (as 16 bits).
pub open spec fn initial_view(turn: u32, board: &Board, you: &Battlesnake) -> StateView {
    let has = has_enemy(board, you);
    let e = board.snakes@[enemy_of(board, you)];
    let off = (SIZE as u8, SIZE as u8);
    StateView {
        board: read_board(empty_grid(), board, you),
        lengths: if has { seq![you.length as u8, e.length as u8] } else { seq![you.length as u8, 0u8] },
        healths: if has { seq![you.health as u8, e.health as u8] } else { seq![you.health as u8, 0u8] },
        heads: seq![head_bytes(you.head), if has { head_bytes(e.head) } else { off }],
        alive: seq![true, has],
        turn: turn as u16,
        original: read_original(empty_grid(), board, you),
    }
}

/// The name the server expects for a move: 0 up, 1 down, 2 left, anything
/// else right.
pub open spec fn direction_name(m: u8) -> Seq<char> {
    if m == 0 {
        "up"@
    } else if m == 1 {
        "down"@
    } else if m == 2 {
        "left"@
    } else {
        "right"@
    }
}

/// Reads the server's description of a turn into a `State`.
fn read_turn(turn: &u32, board: &Board, you: &Battlesnake) -> (state: State)
    requires
        init_ok(board, you),
    ensures
        state@ == initial_view(*turn, board, you),
{
    let mut board_struct: [[u8; SIZE]; SIZE] = [[0; SIZE]; SIZE];
    let mut snake_lengths: [u8; 2] = [you.length as u8, 0];
    let mut snake_healths: [u8; 2] = [you.health as u8, 0];
    let mut snake_heads: [(u8, u8); 2] = [(SIZE as u8, SIZE as u8); 2];
    let mut are_snakes_alive: [bool; 2] = [true, false];
    let turn16 = *turn as u16;
    let mut original_board_struct: [[u8; SIZE]; SIZE] = [[0; SIZE]; SIZE];
    assert(grid_view(board_struct) =~~= empty_grid());
    assert(grid_view(original_board_struct) =~~= empty_grid());
    initialize_board_struct_for_position(
        &mut board_struct,
        &mut snake_lengths,
        &mut snake_healths,
        &mut snake_heads,
        &mut are_snakes_alive,
        board,
        you,
        &mut original_board_struct,
    );
    let state = State {
        board_struct,
        snake_lengths,
        snake_healths,
        snake_heads,
        are_snakes_alive,
        turn: turn16,
        original_board_struct,
    };
    assert(state@ =~~= initial_view(*turn, board, you));
    state
}

/// The answer for move `to_move`.
fn direction_of(to_move: u8, turn: u16) -> (r: String)
    ensures
        r@ == direction_name(to_move),
{
    let move_normally = true;
    if move_normally {
        if to_move == 0 {
            return "up".to_string();
        }
        if to_move == 1 {
            return "down".to_string();
        }
        if to_move == 2 {
            return "left".to_string();
        }
        return "right".to_string();
    }
    if turn % 2 == 0 {
        return "right".to_string();
    }
    return "left".to_string();
}

/// Answers a turn: reads the position, searches it, and names the move.
pub fn calculate_direction(turn: &u32, board: &Board, you: &Battlesnake) -> (r: String)
    requires
        init_ok(board, you),
        minimax_safe(initial_view(*turn, board, you)),
    ensures
        exists|d: u8|
            1 <= d <= deepest_search() && r@ == direction_name(best_move_at(initial_view(*turn, board, you), d)),
{
    let state = read_turn(turn, board, you);
    let to_move = minimax(state);
    direction_of(to_move, *turn as u16)
}

/// Finds the enemy among the listed snakes: whether at most one listed
/// snake is an enemy and, if so, its place (the first enemy's).
fn find_enemy(board: &Board, you: &Battlesnake) -> (r: (bool, usize))
    ensures
        r.0 == (forall|s: int, t: int| is_enemy(board, you, s) && is_enemy(board, you, t) ==> s == t),
        r.0 && has_enemy(board, you) ==> r.1 == enemy_of(board, you),
{
    let n: u8 = board.snakes.len() as u8;
    let mut found = false;
    let mut idx: usize = 0;
    for s in 0..n as usize
        invariant
            n as int == listed(board),
            listed(board) <= board.snakes@.len(),
            found == enemy_before(board, you, s as int),
            found ==> is_enemy(board, you, idx as int) && idx < s,
            forall|a: int, b: int| 0 <= a < s && 0 <= b < s && is_enemy(board, you, a) && is_enemy(board, you, b) ==> a == b,
    {
        let other = &board.snakes[s];
        if !(other.id == you.id) {
            assert(is_enemy(board, you, s as int));
            if found {
                return (false, 0);
            }
            found = true;
            idx = s;
        }
        assert(enemy_before(board, you, s + 1) == (enemy_before(board, you, s as int) || is_enemy(board, you, s as int)));
    }
    assert forall|a: int, b: int| is_enemy(board, you, a) && is_enemy(board, you, b) implies a == b by {}
    assert(enemy_before(board, you, listed(board)) == has_enemy(board, you));
    (true, idx)
}

/// Whether a snake's listed body can be written (`body_ok`), for a length
/// of at least 2.
fn body_fits(body: &Vec<Coord>, len: usize, owner: u8) -> (r: bool)
    requires
        owner < 2,
    ensures
        r == body_ok(body@, len as int, owner as int),
{
    if len > 1 && len > body.len() {
        return false;
    }
    let mut i: usize = 1;
    while i < len
        invariant
            owner < 2,
            1 <= i,
            len <= 1 || len <= body@.len(),
            i <= len || len <= 1,
            forall|j: int| #![trigger body@[j]] 1 <= j < i ==> coord_on_board(body@[j]),
            forall|j: int| #![trigger body_code_fits(len as int, j, owner as int)] 1 <= j < i ==> body_code_fits(len as int, j, owner as int),
        decreases len - i,
    {
        let c = body[i];
        if !(0 <= c.x && c.x < SIZE as i32 && 0 <= c.y && c.y < SIZE as i32) {
            assert(!coord_on_board(body@[i as int]));
            return false;
        }
        let code = (len - i) as u8;
        assert(code == ((len - i) as int) as u8);
        if code as u16 + 128 * owner as u16 > 255 {
            assert(!body_code_fits(len as int, i as int, owner as int));
            return false;
        }
        assert(body_code_fits(len as int, i as int, owner as int));
        assert(coord_on_board(body@[i as int]));
        i += 1;
    }
    true
}

/// Whether a head lies on the board once read as a byte.
fn head_fits(c: Coord) -> (r: bool)
    ensures
        r == head_on_board(c),
{
    (c.x as u8) < SIZE as u8 && (c.y as u8) < SIZE as u8
}

/// Checks at run time the inputs the reading accepts (`init_ok`).
pub fn check_turn(board: &Board, you: &Battlesnake) -> (r: bool)
    ensures
        r == init_ok(board, you),
{
    let (unique, e) = find_enemy(board, you);
    if !unique {
        return false;
    }
    let ghost has = has_enemy(board, you);
    let n: u8 = board.snakes.len() as u8;
    let mut any = false;
    for s in 0..n as usize
        invariant
            n as int == listed(board),
            listed(board) <= board.snakes@.len(),
            any == enemy_before(board, you, s as int),
    {
        if !(board.snakes[s].id == you.id) {
            assert(is_enemy(board, you, s as int));
            any = true;
        }
        assert(enemy_before(board, you, s + 1) == (enemy_before(board, you, s as int) || is_enemy(board, you, s as int)));
    }
    assert(enemy_before(board, you, listed(board)) == has_enemy(board, you));
    if any {
        let enemy = &board.snakes[e];
        let ok = if enemy.length > 1 { body_fits(&enemy.body, enemy.length as usize, 1) } else {
            assert(body_ok(enemy.body@, enemy.length as int, 1));
            true
        };
        if !ok || !head_fits(enemy.head) {
            return false;
        }
    }
    if !body_fits(&you.body, you.body.len(), 0) || !head_fits(you.head) {
        return false;
    }
    for k in 0..board.food.len()
        invariant
            forall|j: int| 0 <= j < k ==> coord_on_board(#[trigger] board.food@[j]),
    {
        let c = board.food[k];
        if !(0 <= c.x && c.x < SIZE as i32 && 0 <= c.y && c.y < SIZE as i32) {
            return false;
        }
    }
    true
}

/// Answers a turn after checking at run time that the description can be
/// read (`init_ok`) and that the position leaves room for the deepest search
/// (`minimax_ok`, or `lone_ok` where at most one snake lives); `None` where it
/// cannot or does not.
pub fn checked_calculate_direction(turn: &u32, board: &Board, you: &Battlesnake) -> (r: Option<String>)
    ensures
        r is Some <==> init_ok(board, you) && (minimax_ok(initial_view(*turn, board, you)) || lone_ok(
            initial_view(*turn, board, you),
        )),
        r matches Some(name) ==> exists|d: u8|
            1 <= d <= deepest_search() && name@ == direction_name(best_move_at(initial_view(*turn, board, you), d)),
{
    if !check_turn(board, you) {
        return None;
    }
    let state = read_turn(turn, board, you);
    match checked_minimax(state) {
        None => None,
        Some(to_move) => Some(direction_of(to_move, *turn as u16)),
    }
}

/// Every answer is one of the four directions the server knows.
pub proof fn lemma_direction_names(m: u8)
    ensures
        direction_name(m) == "up"@ || direction_name(m) == "down"@ || direction_name(m) == "left"@
            || direction_name(m) == "right"@,
{
}

} // verus!
