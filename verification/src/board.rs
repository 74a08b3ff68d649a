//! The game state of a duel and the encoding of its board cells.
//!
//! A board cell holds one byte. `0xFF` is food. Any other value is read as
//! two parts: the high bit names the snake that owns the cell (0 or 1) and the
//! low seven bits say for how many more turns the snake's body stays on that
//! cell. An empty cell is `0`.
use vstd::prelude::*;

verus! {

/// Width and height of the (square) game board.
pub const SIZE: usize = 11;

/// Cell value that marks food.
pub const FOOD: u8 = 0xFF;

/// The snake that owns a (non-food) cell: the cell's high bit.
pub open spec fn owner(c: u8) -> int {
    c as int / 128
}

/// For how many more turns a body part stays on a (non-food) cell: the low
/// seven bits.
pub open spec fn remaining(c: u8) -> int {
    c as int % 128
}

/// Whether `(x, y)` lies on the board.
pub open spec fn in_grid(x: int, y: int) -> bool {
    0 <= x < SIZE && 0 <= y < SIZE
}

/// Whether a head position lies on the board.
pub open spec fn on_board(p: (u8, u8)) -> bool {
    p.0 < SIZE && p.1 < SIZE
}

/// The position a dead or fallen-off snake's head is parked at.
pub open spec fn off_board() -> (u8, u8) {
    (SIZE as u8, SIZE as u8)
}

/// The bit operations of the code and the arithmetic of the specification
/// agree on the two parts of a cell.
pub proof fn lemma_cell_bits(c: u8)
    ensures
        (c & 0x80) >> 7 == c / 128,
        c & 0x7F == c % 128,
        c & 0x3F == c % 64,
{
    assert((c & 0x80) >> 7 == c / 128) by (bit_vector);
    assert(c & 0x7F == c % 128) by (bit_vector);
    assert(c & 0x3F == c % 64) by (bit_vector);
}

/// A board of `SIZE` rows of `SIZE` cells each, indexed `[y][x]`.
pub open spec fn grid_wf(b: Seq<Seq<u8>>) -> bool {
    &&& b.len() == SIZE
    &&& forall|y: int| 0 <= y < SIZE ==> #[trigger] b[y].len() == SIZE
}

/// The board with cell `(x, y)` set to `v`.
pub open spec fn set_cell(b: Seq<Seq<u8>>, x: int, y: int, v: u8) -> Seq<Seq<u8>> {
    b.update(y, b[y].update(x, v))
}

/// The view of a board array.
pub open spec fn grid_view(b: [[u8; SIZE]; SIZE]) -> Seq<Seq<u8>> {
    b@.map_values(|r: [u8; SIZE]| r@)
}

/// Writes `v` into cell `(x, y)` of a board array.
pub fn write_cell(b: &mut [[u8; SIZE]; SIZE], x: usize, y: usize, v: u8)
    requires
        x < SIZE,
        y < SIZE,
    ensures
        grid_view(*final(b)) == set_cell(grid_view(*old(b)), x as int, y as int, v),
{
    b[y][x] = v;
    assert(grid_view(*b) =~~= set_cell(grid_view(*old(b)), x as int, y as int, v));
}

/// Whether cell `(xx, yy)` comes before `(x, y)` in row-major order.
pub open spec fn before(xx: int, yy: int, x: int, y: int) -> bool {
    yy < y || (yy == y && xx < x)
}

/// The state of a duel: board, snakes and turn.
///
/// Index 0 is the snake this engine plays, index 1 its opponent.
#[derive(Clone, Copy)]
pub struct State {
    pub board_struct: [[u8; SIZE]; SIZE],
    pub snake_lengths: [u8; 2],
    pub snake_healths: [u8; 2],
    pub snake_heads: [(u8, u8); 2],
    pub are_snakes_alive: [bool; 2],
    pub turn: u16,
    pub original_board_struct: [[u8; SIZE]; SIZE],
}

/// The mathematical value of a `State`.
#[verifier::ext_equal]
pub struct StateView {
    pub board: Seq<Seq<u8>>,
    pub lengths: Seq<u8>,
    pub healths: Seq<u8>,
    pub heads: Seq<(u8, u8)>,
    pub alive: Seq<bool>,
    pub turn: u16,
    pub original: Seq<Seq<u8>>,
}

impl View for State {
    type V = StateView;

    open spec fn view(&self) -> StateView {
        StateView {
            board: grid_view(self.board_struct),
            lengths: self.snake_lengths@,
            healths: self.snake_healths@,
            heads: self.snake_heads@,
            alive: self.are_snakes_alive@,
            turn: self.turn,
            original: grid_view(self.original_board_struct),
        }
    }
}

impl StateView {
    /// The shape every state's view has: two snakes and two full boards.
    pub open spec fn wf(self) -> bool {
        &&& grid_wf(self.board)
        &&& grid_wf(self.original)
        &&& self.lengths.len() == 2
        &&& self.healths.len() == 2
        &&& self.heads.len() == 2
        &&& self.alive.len() == 2
    }

    /// The cell at `(x, y)`.
    pub open spec fn cell(self, x: int, y: int) -> u8 {
        self.board[y][x]
    }
}

/// Every state's view has the shape of `StateView::wf`.
pub proof fn lemma_view_wf(s: State)
    ensures
        s@.wf(),
{
    assert forall|y: int| 0 <= y < SIZE implies #[trigger] s@.board[y].len() == SIZE by {}
    assert forall|y: int| 0 <= y < SIZE implies #[trigger] s@.original[y].len() == SIZE by {}
}

} // verus!
