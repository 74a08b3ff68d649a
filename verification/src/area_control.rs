//! How much of the board each snake reaches first.
use vstd::prelude::*;
use std::collections::VecDeque;
use crate::board::{
    FOOD, SIZE, State, StateView, before, grid_view, grid_wf, in_grid, lemma_cell_bits, lemma_view_wf,
    on_board, owner, remaining, set_cell, write_cell,
};

verus! {

/// Whether cell `c` may hold the tail of snake `who`: a body part of `who`
/// with between 1 and 120 turns left.
pub open spec fn tail_candidate(c: u8, who: int) -> bool {
    &&& c != FOOD
    &&& owner(c) == who
    &&& 1 <= remaining(c) < (SIZE * SIZE)
}

/// Whether `p` is the tail cell of snake `who` among the cells before
/// `(x, y)` in row-major order: a candidate with the fewest turns left, and the
/// first such in row-major order.
pub open spec fn tail_before(v: StateView, who: int, p: (u8, u8), x: int, y: int) -> bool {
    &&& in_grid(p.0 as int, p.1 as int)
    &&& before(p.0 as int, p.1 as int, x, y)
    &&& tail_candidate(v.cell(p.0 as int, p.1 as int), who)
    &&& forall|qx: int, qy: int|
        #![trigger v.board[qy][qx]]
        in_grid(qx, qy) && before(qx, qy, x, y) && tail_candidate(v.cell(qx, qy), who) ==> {
            ||| remaining(v.cell(p.0 as int, p.1 as int)) < remaining(v.cell(qx, qy))
            ||| (remaining(v.cell(p.0 as int, p.1 as int)) == remaining(v.cell(qx, qy))
                && !before(qx, qy, p.0 as int, p.1 as int))
        }
}

/// Whether some cell before `(x, y)` may hold the tail of `who`.
pub open spec fn has_candidate_before(v: StateView, who: int, x: int, y: int) -> bool {
    exists|qx: int, qy: int|
        #![trigger v.board[qy][qx]]
        in_grid(qx, qy) && before(qx, qy, x, y) && tail_candidate(v.cell(qx, qy), who)
}

/// Whether `p` is the tail cell of snake `who` on the whole board.
pub open spec fn is_tail(v: StateView, who: int, p: (u8, u8)) -> bool {
    tail_before(v, who, p, 0, SIZE as int)
}

/// Whether snake `who` has any cell that may hold its tail.
pub open spec fn has_tail(v: StateView, who: int) -> bool {
    has_candidate_before(v, who, 0, SIZE as int)
}

/// Writes into `me_tail_spot` the tail cell of snake `player` and into
/// `enemy_tail_spot` that of the other snake: the cell of the snake's body
/// with the fewest turns left, the first in row-major order among equals.
/// A spot is left as it was where the snake has no such cell.
pub fn get_tail_positions(
    state: &State,
    me_tail_spot: &mut (u8, u8),
    enemy_tail_spot: &mut (u8, u8),
    player: &u8,
)
    requires
        *player <= 1,
    ensures
        has_tail(state@, *player as int) ==> is_tail(state@, *player as int, *final(me_tail_spot)),
        !has_tail(state@, *player as int) ==> *final(me_tail_spot) == *old(me_tail_spot),
        has_tail(state@, 1 - *player) ==> is_tail(state@, 1 - *player, *final(enemy_tail_spot)),
        !has_tail(state@, 1 - *player) ==> *final(enemy_tail_spot) == *old(enemy_tail_spot),
{
    let ghost v = state@;
    proof { lemma_view_wf(*state); }
    let ghost me = *player as int;
    let ghost enemy = 1 - *player as int;
    let mut smallest_me_index = (SIZE * SIZE) as u8;
    let mut smallest_enemy_index = (SIZE * SIZE) as u8;

    for y in 0..SIZE
        invariant
            v == state@,
            v.wf(),
            *player <= 1,
            me == *player as int,
            enemy == 1 - *player as int,
            has_candidate_before(v, me, 0, y as int) ==> tail_before(v, me, *me_tail_spot, 0, y as int)
                && smallest_me_index as int == remaining(v.cell(me_tail_spot.0 as int, me_tail_spot.1 as int)),
            !has_candidate_before(v, me, 0, y as int) ==> *me_tail_spot == *old(me_tail_spot)
                && smallest_me_index == SIZE * SIZE,
            has_candidate_before(v, enemy, 0, y as int) ==> tail_before(v, enemy, *enemy_tail_spot, 0, y as int)
                && smallest_enemy_index as int == remaining(v.cell(enemy_tail_spot.0 as int, enemy_tail_spot.1 as int)),
            !has_candidate_before(v, enemy, 0, y as int) ==> *enemy_tail_spot == *old(enemy_tail_spot)
                && smallest_enemy_index == SIZE * SIZE,
    {
        for x in 0..SIZE
            invariant
                v == state@,
                v.wf(),
                y < SIZE,
                *player <= 1,
                me == *player as int,
                enemy == 1 - *player as int,
                has_candidate_before(v, me, x as int, y as int) ==> tail_before(v, me, *me_tail_spot, x as int, y as int)
                    && smallest_me_index as int == remaining(v.cell(me_tail_spot.0 as int, me_tail_spot.1 as int)),
                !has_candidate_before(v, me, x as int, y as int) ==> *me_tail_spot == *old(me_tail_spot)
                    && smallest_me_index == SIZE * SIZE,
                has_candidate_before(v, enemy, x as int, y as int) ==> tail_before(v, enemy, *enemy_tail_spot, x as int, y as int)
                    && smallest_enemy_index as int == remaining(v.cell(enemy_tail_spot.0 as int, enemy_tail_spot.1 as int)),
                !has_candidate_before(v, enemy, x as int, y as int) ==> *enemy_tail_spot == *old(enemy_tail_spot)
                    && smallest_enemy_index == SIZE * SIZE,
        {
            let cell = state.board_struct[y][x];
            assert(cell == v.cell(x as int, y as int));
            proof { lemma_cell_bits(cell); }
            let ghost old_me = *me_tail_spot;
            let ghost old_enemy = *enemy_tail_spot;
            if cell != 0b11111111 {
                let index = (cell & 0b10000000) >> 7;
                let size = cell & 0b01111111;
                if size >= 1 {
                    if index == *player {
                        if size < smallest_me_index {
                            smallest_me_index = size;
                            me_tail_spot.0 = x as u8;
                            me_tail_spot.1 = y as u8;
                        }
                    }
                    if index == (1 - *player) {
                        if size < smallest_enemy_index {
                            smallest_enemy_index = size;
                            enemy_tail_spot.0 = x as u8;
                            enemy_tail_spot.1 = y as u8;
                        }
                    }
                }
            }
            proof {
                let nx = if x + 1 == SIZE { 0int } else { x + 1 };
                let ny = if x + 1 == SIZE { y + 1 } else { y as int };
                assert forall|qx: int, qy: int| in_grid(qx, qy) implies
                    (#[trigger] before(qx, qy, nx, ny)) == (before(qx, qy, x as int, y as int) || (qx == x && qy == y)) by {}
                if tail_candidate(cell, me) {
                    assert(has_candidate_before(v, me, nx, ny)) by {
                        assert(v.board[y as int][x as int] == cell);
                    }
                }
                if tail_candidate(cell, enemy) {
                    assert(has_candidate_before(v, enemy, nx, ny)) by {
                        assert(v.board[y as int][x as int] == cell);
                    }
                }
                if has_candidate_before(v, me, nx, ny) && !tail_candidate(cell, me) {
                    assert(has_candidate_before(v, me, x as int, y as int));
                }
                if has_candidate_before(v, enemy, nx, ny) && !tail_candidate(cell, enemy) {
                    assert(has_candidate_before(v, enemy, x as int, y as int));
                }
                if !has_candidate_before(v, me, nx, ny) {
                    assert(!tail_candidate(v.board[y as int][x as int], me));
                }
                if !has_candidate_before(v, enemy, nx, ny) {
                    assert(!tail_candidate(v.board[y as int][x as int], enemy));
                }
            }
        }
    }
}

/// One entry of the search frontier: `(x, y, snake, distance)`.
pub type Entry = (u8, u8, u8, u8);

/// What the search has found so far: how many cells the asking snake claims,
/// the distances at which each snake meets food, in the order met, and whether
/// the asking snake reaches its own tail.
pub struct Flood {
    pub area: nat,
    pub food: Seq<Seq<u8>>,
    pub tail_reached: bool,
}

/// Whether a body part on cell `c` is still there when a snake arrives after
/// `d` moves.
pub open spec fn blocked_at(c: u8, d: u8) -> bool {
    c != FOOD && remaining(c) > d
}

/// Whether an entry `d` moves out on cell `c` is dropped as blocked: a body
/// part is still there, unless the search starts from every body part
/// (`is_body`) and the entry is a start entry (`d == 0`), which claims its
/// own cell.
pub open spec fn blocked(c: u8, d: u8, is_body: bool) -> bool {
    blocked_at(c, d) && !(is_body && d == 0)
}

/// An entry on the board, for snake 0 or 1.
pub open spec fn entry_ok(e: Entry) -> bool {
    e.0 < SIZE && e.1 < SIZE && e.2 < 2
}

/// A frontier of entries on the board.
pub open spec fn queue_ok(q: Seq<Entry>) -> bool {
    forall|k: int| 0 <= k < q.len() ==> #[trigger] entry_ok(q[k])
}

/// The entries that follow `e`: its neighbours up, down, left and right (in
/// that order) that lie on the board, one move further away.
pub open spec fn neighbours(e: Entry) -> Seq<Entry> {
    let d = (e.3 + 1) as u8;
    (if e.1 < SIZE - 1 { seq![(e.0, (e.1 + 1) as u8, e.2, d)] } else { seq![] })
    + (if e.1 > 0 { seq![(e.0, (e.1 - 1) as u8, e.2, d)] } else { seq![] })
    + (if e.0 > 0 { seq![((e.0 - 1) as u8, e.1, e.2, d)] } else { seq![] })
    + (if e.0 < SIZE - 1 { seq![((e.0 + 1) as u8, e.1, e.2, d)] } else { seq![] })
}

/// The mark of a cell that no snake has claimed yet.
pub open spec fn unclaimed() -> u8 {
    4
}

/// How many of the first `k` cells (row-major) of `g` are unclaimed.
pub open spec fn count_unclaimed(g: Seq<Seq<u8>>, k: int) -> nat
    decreases k,
{
    if k <= 0 {
        0
    } else {
        count_unclaimed(g, k - 1) + if g[(k - 1) / SIZE as int][(k - 1) % SIZE as int] == unclaimed() {
            1nat
        } else {
            0nat
        }
    }
}

/// How many cells of `g` are unclaimed.
pub open spec fn unclaimed_cells(g: Seq<Seq<u8>>) -> nat {
    count_unclaimed(g, (SIZE * SIZE) as int)
}

/// At most `k` of the first `k` cells are unclaimed.
pub proof fn lemma_count_bound(g: Seq<Seq<u8>>, k: int)
    requires
        0 <= k,
    ensures
        count_unclaimed(g, k) <= k,
    decreases k,
{
    if k > 0 {
        lemma_count_bound(g, k - 1);
    }
}

/// Claiming an unclaimed cell lowers the count by one.
pub proof fn lemma_count_claim(g: Seq<Seq<u8>>, x: int, y: int, m: u8, k: int)
    requires
        grid_wf(g),
        in_grid(x, y),
        g[y][x] == unclaimed(),
        m != unclaimed(),
        0 <= k <= SIZE * SIZE,
    ensures
        count_unclaimed(set_cell(g, x, y, m), k) + (if y * SIZE + x < k { 1int } else { 0 })
            == count_unclaimed(g, k),
    decreases k,
{
    if k > 0 {
        lemma_count_claim(g, x, y, m, k - 1);
        let j = k - 1;
        let n = SIZE as int;
        assert(0 <= j / n && j / n < n && 0 <= j % n && j % n < n && j == (j / n) * n + j % n)
            by (nonlinear_arith) requires 0 <= j < n * n, n == 11;
        if j / n == y && j % n == x {
            assert(y * n + x == j);
        } else {
            assert(y * n + x != j) by (nonlinear_arith)
                requires
                    j == (j / n) * n + j % n,
                    0 <= j % n < n,
                    0 <= x < n,
                    !(j / n == y && j % n == x);
        }
    }
}

/// Termination of `flood`: claiming a cell lowers the count of unclaimed
/// cells by one.
#[via_fn]
proof fn flood_decreases(
    v: StateView,
    tail: (u8, u8),
    player: u8,
    is_body: bool,
    q: Seq<Entry>,
    g: Seq<Seq<u8>>,
    acc: Flood,
) {
    if q.len() > 0 {
        let e = q[0];
        assert(entry_ok(e));
        if !blocked(v.cell(e.0 as int, e.1 as int), e.3, is_body) && g[e.1 as int][e.0 as int] == unclaimed() {
            lemma_count_claim(g, e.0 as int, e.1 as int, e.2, (SIZE * SIZE) as int);
            assert(e.1 * SIZE + e.0 < SIZE * SIZE) by (nonlinear_arith)
                requires e.1 < SIZE, e.0 < SIZE;
        }
    }
}

/// The breadth-first search that shares the board out: entries are taken
/// from the front of the frontier; an entry whose cell is still blocked by a
/// body part at its distance (see `blocked`), or already claimed, is dropped; otherwise the
/// entry's snake claims the cell, the result is updated, and the cell's
/// neighbours join the back of the frontier.
#[verifier::opaque]
pub open spec fn flood(
    v: StateView,
    tail: (u8, u8),
    player: u8,
    is_body: bool,
    q: Seq<Entry>,
    g: Seq<Seq<u8>>,
    acc: Flood,
) -> Flood
    decreases 5 * unclaimed_cells(g) + q.len(),
    when queue_ok(q) && grid_wf(g)
    via flood_decreases
{
    if q.len() == 0 {
        acc
    } else {
        let e = q[0];
        let c = v.cell(e.0 as int, e.1 as int);
        if blocked(c, e.3, is_body) || g[e.1 as int][e.0 as int] != unclaimed() {
            flood(v, tail, player, is_body, q.drop_first(), g, acc)
        } else {
            let next = Flood {
                area: acc.area + if e.2 == player { 1nat } else { 0nat },
                food: if c == FOOD {
                    acc.food.update(e.2 as int, acc.food[e.2 as int].push(e.3))
                } else {
                    acc.food
                },
                tail_reached: acc.tail_reached || ((e.0, e.1) == tail && e.2 == player),
            };
            flood(v, tail, player, is_body, q.drop_first() + neighbours(e), set_cell(g, e.0 as int, e.1 as int, e.2), next)
        }
    }
}

/// The tail cell of snake `who`, or `off` where it has none.
pub open spec fn tail_or(v: StateView, who: int, off: (u8, u8)) -> (u8, u8) {
    if has_tail(v, who) {
        choose|p: (u8, u8)| is_tail(v, who, p)
    } else {
        off
    }
}

/// A snake has at most one tail cell.
pub proof fn lemma_tail_unique(v: StateView, who: int, p: (u8, u8), q: (u8, u8))
    requires
        is_tail(v, who, p),
        is_tail(v, who, q),
    ensures
        p == q,
{
    assert(v.board[q.1 as int][q.0 as int] == v.cell(q.0 as int, q.1 as int));
    assert(v.board[p.1 as int][p.0 as int] == v.cell(p.0 as int, p.1 as int));
}

/// The frontier entry for the head of snake `i`, where the snake is at least
/// three long.
pub open spec fn head_entry(v: StateView, i: int) -> Seq<Entry> {
    if v.lengths[i] >= 3 {
        seq![(v.heads[i].0, v.heads[i].1, i as u8, 0u8)]
    } else {
        seq![]
    }
}

/// The snake whose head is searched from first: the longer one, snake 0 on a
/// tie.
pub open spec fn first_searcher(v: StateView) -> int {
    if v.lengths[1] > v.lengths[0] { 1 } else { 0 }
}

/// The frontier entries for every body part among the first `k` cells
/// (row-major), each for the snake that owns it.
pub open spec fn body_entries(v: StateView, k: int) -> Seq<Entry>
    decreases k,
{
    if k <= 0 {
        seq![]
    } else {
        let x = (k - 1) % SIZE as int;
        let y = (k - 1) / SIZE as int;
        let c = v.cell(x, y);
        body_entries(v, k - 1) + if c != FOOD && c != 0 {
            seq![(x as u8, y as u8, owner(c) as u8, 0u8)]
        } else {
            seq![]
        }
    }
}

/// The search starts from the heads of the snakes at least three long, the
/// longer first; with `is_body` it also starts from every body part.
pub open spec fn start_frontier(v: StateView, is_body: bool) -> Seq<Entry> {
    head_entry(v, first_searcher(v)) + head_entry(v, 1 - first_searcher(v))
        + if is_body { body_entries(v, (SIZE * SIZE) as int) } else { seq![] }
}

/// A board of claims where no cell is claimed.
pub open spec fn no_claims() -> Seq<Seq<u8>> {
    Seq::new(SIZE as nat, |y: int| Seq::new(SIZE as nat, |x: int| unclaimed()))
}

/// What the search finds for snake `player`: the cells it claims first, the
/// distances at which each snake meets food, and whether `player` reaches its
/// own tail.
pub open spec fn area_control_spec(v: StateView, player: u8, is_body: bool) -> Flood {
    flood(
        v,
        tail_or(v, player as int, (SIZE as u8, SIZE as u8)),
        player,
        is_body,
        start_frontier(v, is_body),
        no_claims(),
        Flood { area: 0, food: seq![seq![], seq![]], tail_reached: false },
    )
}

/// The inputs on which the search stays on the board: the asking snake is 0
/// or 1, and every snake at least three long has its head on the board.
pub open spec fn area_control_ok(v: StateView, player: u8) -> bool {
    &&& player <= 1
    &&& forall|i: int| 0 <= i < 2 && v.lengths[i] >= 3 ==> on_board(#[trigger] v.heads[i])
}

/// One step of `flood` on a non-empty frontier.
proof fn lemma_flood_step(
    v: StateView,
    tail: (u8, u8),
    player: u8,
    is_body: bool,
    q: Seq<Entry>,
    g: Seq<Seq<u8>>,
    acc: Flood,
)
    requires
        queue_ok(q),
        grid_wf(g),
        q.len() > 0,
    ensures
        ({
            let e = q[0];
            let c = v.cell(e.0 as int, e.1 as int);
            flood(v, tail, player, is_body, q, g, acc) == if blocked(c, e.3, is_body) || g[e.1 as int][e.0 as int] != unclaimed() {
                flood(v, tail, player, is_body, q.drop_first(), g, acc)
            } else {
                flood(v, tail, player, is_body, q.drop_first() + neighbours(e), set_cell(g, e.0 as int, e.1 as int, e.2),
                    Flood {
                        area: acc.area + if e.2 == player { 1nat } else { 0nat },
                        food: if c == FOOD {
                            acc.food.update(e.2 as int, acc.food[e.2 as int].push(e.3))
                        } else {
                            acc.food
                        },
                        tail_reached: acc.tail_reached || ((e.0, e.1) == tail && e.2 == player),
                    })
            }
        }),
{
    reveal(flood);
    let e = q[0];
    assert(entry_ok(e));
}

/// An empty frontier ends the search.
proof fn lemma_flood_done(v: StateView, tail: (u8, u8), player: u8, is_body: bool, q: Seq<Entry>, g: Seq<Seq<u8>>, acc: Flood)
    requires
        grid_wf(g),
        q.len() == 0,
    ensures
        flood(v, tail, player, is_body, q, g, acc) == acc,
{
    reveal(flood);
}

/// Every cell of the empty claim board is unclaimed.
proof fn lemma_no_claims_count(k: int)
    requires
        0 <= k <= SIZE * SIZE,
    ensures
        count_unclaimed(no_claims(), k) == k,
    decreases k,
{
    if k > 0 {
        lemma_no_claims_count(k - 1);
        let j = k - 1;
        let n = SIZE as int;
        assert(0 <= j / n && j / n < n && 0 <= j % n && j % n < n) by (nonlinear_arith)
            requires 0 <= j < n * n, n == 11;
    }
}

/// The body entries lie on the board, belong to snake 0 or 1, and start at
/// distance 0.
proof fn lemma_body_entries(v: StateView, k: int)
    requires
        v.wf(),
        0 <= k <= SIZE * SIZE,
    ensures
        queue_ok(body_entries(v, k)),
        forall|j: int| 0 <= j < body_entries(v, k).len() ==> (#[trigger] body_entries(v, k)[j]).3 == 0,
    decreases k,
{
    if k > 0 {
        lemma_body_entries(v, k - 1);
        let j = k - 1;
        let n = SIZE as int;
        assert(0 <= j / n && j / n < n && 0 <= j % n && j % n < n) by (nonlinear_arith)
            requires 0 <= j < n * n, n == 11;
        let c = v.cell(j % n, j / n);
        assert(owner(c) < 2);
        let b = body_entries(v, k);
        let a = body_entries(v, k - 1);
        assert forall|i: int| 0 <= i < b.len() implies #[trigger] entry_ok(b[i]) && b[i].3 == 0 by {
            if i < a.len() {
                assert(b[i] == a[i]);
                assert(entry_ok(a[i]));
            }
        }
    }
}

/// The search never takes back a claim: it ends with at least the area it
/// has already.
proof fn lemma_flood_area_grows(
    v: StateView,
    tail: (u8, u8),
    player: u8,
    is_body: bool,
    q: Seq<Entry>,
    g: Seq<Seq<u8>>,
    acc: Flood,
)
    requires
        queue_ok(q),
        grid_wf(g),
    ensures
        flood(v, tail, player, is_body, q, g, acc).area >= acc.area,
    decreases 5 * unclaimed_cells(g) + q.len(),
{
    if q.len() == 0 {
        lemma_flood_done(v, tail, player, is_body, q, g, acc);
    } else {
        lemma_flood_step(v, tail, player, is_body, q, g, acc);
        let e = q[0];
        assert(entry_ok(e));
        let c = v.cell(e.0 as int, e.1 as int);
        assert(queue_ok(q.drop_first())) by {
            assert forall|k: int| 0 <= k < q.drop_first().len() implies #[trigger] entry_ok(q.drop_first()[k]) by {
                assert(q.drop_first()[k] == q[k + 1]);
            }
        }
        if blocked(c, e.3, is_body) || g[e.1 as int][e.0 as int] != unclaimed() {
            lemma_flood_area_grows(v, tail, player, is_body, q.drop_first(), g, acc);
        } else {
            let g2 = set_cell(g, e.0 as int, e.1 as int, e.2);
            let q2 = q.drop_first() + neighbours(e);
            lemma_count_claim(g, e.0 as int, e.1 as int, e.2, (SIZE * SIZE) as int);
            assert(e.1 * SIZE + e.0 < SIZE * SIZE) by (nonlinear_arith)
                requires e.1 < SIZE, e.0 < SIZE;
            crate::moves::lemma_set_cell_wf(g, e.0 as int, e.1 as int, e.2);
            assert(queue_ok(q2)) by {
                let nb = neighbours(e);
                assert forall|k: int| 0 <= k < q2.len() implies #[trigger] entry_ok(q2[k]) by {
                    if k < q.len() - 1 {
                        assert(q2[k] == q[k + 1]);
                    } else {
                        assert(q2[k] == nb[k - (q.len() - 1)]);
                    }
                }
            }
            let next = Flood {
                area: acc.area + if e.2 == player { 1nat } else { 0nat },
                food: if c == FOOD {
                    acc.food.update(e.2 as int, acc.food[e.2 as int].push(e.3))
                } else {
                    acc.food
                },
                tail_reached: acc.tail_reached || ((e.0, e.1) == tail && e.2 == player),
            };
            lemma_flood_area_grows(v, tail, player, is_body, q2, g2, next);
        }
    }
}

/// How many entries of `q` lie on cell `(x, y)`.
pub open spec fn occurrences(q: Seq<Entry>, x: u8, y: u8) -> nat
    decreases q.len(),
{
    if q.len() == 0 {
        0
    } else {
        (if q[0].0 == x && q[0].1 == y { 1nat } else { 0nat }) + occurrences(q.drop_first(), x, y)
    }
}

/// How many entries of `pre` are for `player`, on a cell still unclaimed in
/// `g` that no other entry of `whole` shares.
pub open spec fn sole_claims(pre: Seq<Entry>, g: Seq<Seq<u8>>, player: u8, whole: Seq<Entry>) -> nat
    decreases pre.len(),
{
    if pre.len() == 0 {
        0
    } else {
        let e = pre[0];
        (if e.2 == player && g[e.1 as int][e.0 as int] == unclaimed() && occurrences(whole, e.0, e.1) == 1 {
            1nat
        } else {
            0nat
        }) + sole_claims(pre.drop_first(), g, player, whole)
    }
}

/// Counting entries over a concatenation adds up.
proof fn lemma_occurrences_add(a: Seq<Entry>, b: Seq<Entry>, x: u8, y: u8)
    ensures
        occurrences(a + b, x, y) == occurrences(a, x, y) + occurrences(b, x, y),
    decreases a.len(),
{
    if a.len() > 0 {
        assert((a + b).drop_first() =~= a.drop_first() + b);
        lemma_occurrences_add(a.drop_first(), b, x, y);
    }
}

/// Counting sole claims over a concatenation adds up.
proof fn lemma_sole_claims_add(a: Seq<Entry>, b: Seq<Entry>, g: Seq<Seq<u8>>, player: u8, whole: Seq<Entry>)
    ensures
        sole_claims(a + b, g, player, whole) == sole_claims(a, g, player, whole) + sole_claims(b, g, player, whole),
    decreases a.len(),
{
    if a.len() > 0 {
        assert((a + b).drop_first() =~= a.drop_first() + b);
        lemma_sole_claims_add(a.drop_first(), b, g, player, whole);
    }
}

/// Claiming a cell that the entries of `s` share with another entry of
/// `whole` keeps every sole claim of `s`.
proof fn lemma_sole_claims_keep(s: Seq<Entry>, g: Seq<Seq<u8>>, x: int, y: int, m: u8, player: u8, whole: Seq<Entry>)
    requires
        grid_wf(g),
        in_grid(x, y),
        queue_ok(s),
        occurrences(s, x as u8, y as u8) > 0 ==> occurrences(whole, x as u8, y as u8) >= 2,
    ensures
        sole_claims(s, g, player, whole) <= sole_claims(s, set_cell(g, x, y, m), player, whole),
    decreases s.len(),
{
    if s.len() > 0 {
        let e = s[0];
        assert(entry_ok(e));
        assert(queue_ok(s.drop_first())) by {
            assert forall|k: int| 0 <= k < s.drop_first().len() implies #[trigger] entry_ok(s.drop_first()[k]) by {
                assert(s.drop_first()[k] == s[k + 1]);
            }
        }
        crate::moves::lemma_set_cell_wf(g, x, y, m);
        lemma_sole_claims_keep(s.drop_first(), g, x, y, m, player, whole);
    }
}

/// With `is_body`, the start entries (all at distance 0) of `pre` claim
/// every cell that they hold alone: the search ends with at least the sole
/// claims of `pre` added to its area.
proof fn lemma_flood_sole_claims(
    v: StateView,
    tail: (u8, u8),
    player: u8,
    pre: Seq<Entry>,
    rest: Seq<Entry>,
    g: Seq<Seq<u8>>,
    acc: Flood,
    whole: Seq<Entry>,
)
    requires
        queue_ok(pre + rest),
        grid_wf(g),
        forall|j: int| 0 <= j < pre.len() ==> (#[trigger] pre[j]).3 == 0,
        forall|x: u8, y: u8| occurrences(pre, x, y) <= #[trigger] occurrences(whole, x, y),
    ensures
        flood(v, tail, player, true, pre + rest, g, acc).area >= acc.area + sole_claims(pre, g, player, whole),
    decreases pre.len(),
{
    let q = pre + rest;
    if pre.len() == 0 {
        assert(q =~= rest);
        lemma_flood_area_grows(v, tail, player, true, q, g, acc);
    } else {
        let e = pre[0];
        assert(q[0] == e);
        assert(entry_ok(q[0]));
        assert(e.3 == 0);
        lemma_flood_step(v, tail, player, true, q, g, acc);
        let pre2 = pre.drop_first();
        assert(q.drop_first() =~= pre2 + rest);
        assert forall|j: int| 0 <= j < pre2.len() implies (#[trigger] pre2[j]).3 == 0 by {
            assert(pre2[j] == pre[j + 1]);
        }
        assert forall|x: u8, y: u8| occurrences(pre2, x, y) <= #[trigger] occurrences(whole, x, y) by {
            assert(occurrences(pre2, x, y) <= occurrences(pre, x, y));
        }
        assert(queue_ok(pre2 + rest)) by {
            assert forall|k: int| 0 <= k < (pre2 + rest).len() implies #[trigger] entry_ok((pre2 + rest)[k]) by {
                assert((pre2 + rest)[k] == q[k + 1]);
            }
        }
        assert(queue_ok(pre2)) by {
            assert forall|k: int| 0 <= k < pre2.len() implies #[trigger] entry_ok(pre2[k]) by {
                assert(pre2[k] == (pre2 + rest)[k]);
            }
        }
        if g[e.1 as int][e.0 as int] != unclaimed() {
            lemma_flood_sole_claims(v, tail, player, pre2, rest, g, acc, whole);
        } else {
            let c = v.cell(e.0 as int, e.1 as int);
            let g2 = set_cell(g, e.0 as int, e.1 as int, e.2);
            let nb = neighbours(e);
            assert(q.drop_first() + nb =~= pre2 + (rest + nb));
            crate::moves::lemma_set_cell_wf(g, e.0 as int, e.1 as int, e.2);
            assert(queue_ok(pre2 + (rest + nb))) by {
                assert forall|k: int| 0 <= k < (pre2 + (rest + nb)).len() implies #[trigger] entry_ok((pre2 + (rest + nb))[k]) by {
                    if k < q.len() - 1 {
                        assert((pre2 + (rest + nb))[k] == q[k + 1]);
                    } else {
                        assert((pre2 + (rest + nb))[k] == nb[k - (q.len() - 1)]);
                    }
                }
            }
            let next = Flood {
                area: acc.area + if e.2 == player { 1nat } else { 0nat },
                food: if c == FOOD {
                    acc.food.update(e.2 as int, acc.food[e.2 as int].push(e.3))
                } else {
                    acc.food
                },
                tail_reached: acc.tail_reached || ((e.0, e.1) == tail && e.2 == player),
            };
            lemma_flood_sole_claims(v, tail, player, pre2, rest + nb, g2, next, whole);
            assert(occurrences(pre, e.0, e.1) == 1 + occurrences(pre2, e.0, e.1));
            assert(occurrences(pre, e.0, e.1) <= occurrences(whole, e.0, e.1));
            lemma_sole_claims_keep(pre2, g, e.0 as int, e.1 as int, e.2, player, whole);
        }
    }
}

/// Whether cell `c` holds a body part of `player`.
pub open spec fn body_part_of(c: u8, player: u8) -> bool {
    c != FOOD && c != 0 && owner(c) == player
}

/// How many of the first `k` cells (row-major) hold a body part of `player`.
pub open spec fn body_count(v: StateView, player: u8, k: int) -> nat
    decreases k,
{
    if k <= 0 {
        0
    } else {
        body_count(v, player, k - 1) + if body_part_of(v.cell((k - 1) % SIZE as int, (k - 1) / SIZE as int), player) {
            1nat
        } else {
            0nat
        }
    }
}

/// The body entries among the first `k` cells hold cell `(x, y)` once where
/// it is a body part among them, and not at all otherwise.
proof fn lemma_body_entries_occurrences(v: StateView, k: int, x: int, y: int)
    requires
        v.wf(),
        0 <= k <= SIZE * SIZE,
        in_grid(x, y),
    ensures
        occurrences(body_entries(v, k), x as u8, y as u8) == if y * SIZE + x < k && v.cell(x, y) != FOOD && v.cell(
            x,
            y,
        ) != 0 {
            1nat
        } else {
            0nat
        },
    decreases k,
{
    if k > 0 {
        lemma_body_entries_occurrences(v, k - 1, x, y);
        let j = k - 1;
        let n = SIZE as int;
        let cx = j % n;
        let cy = j / n;
        assert(0 <= cx < n && 0 <= cy < n && j == cy * n + cx) by (nonlinear_arith)
            requires 0 <= j < n * n, n == 11, cx == j % n, cy == j / n;
        let c = v.cell(cx, cy);
        let tail_part: Seq<Entry> = if c != FOOD && c != 0 { seq![(cx as u8, cy as u8, owner(c) as u8, 0u8)] } else { seq![] };
        assert(body_entries(v, k) == body_entries(v, k - 1) + tail_part);
        lemma_occurrences_add(body_entries(v, k - 1), tail_part, x as u8, y as u8);
        if tail_part.len() > 0 {
            assert(tail_part.drop_first() =~= seq![]);
        }
        assert(occurrences(seq![], x as u8, y as u8) == 0);
        if cx == x && cy == y {
            assert(y * n + x == j);
        } else {
            assert(y * n + x != j) by (nonlinear_arith)
                requires j == cy * n + cx, 0 <= cx < n, 0 <= x < n, !(cx == x && cy == y);
        }
        if c != FOOD && c != 0 {
            assert(tail_part[0] == (cx as u8, cy as u8, owner(c) as u8, 0u8));
            assert(tail_part.drop_first().len() == 0);
            assert((cx as u8 == x as u8 && cy as u8 == y as u8) == (cx == x && cy == y));
        }
    }
}

/// The body entries among the first `k` cells hold the body parts of
/// `player` among them alone, where they are held alone in `whole`.
proof fn lemma_body_entries_sole(v: StateView, player: u8, k: int, whole: Seq<Entry>)
    requires
        v.wf(),
        player <= 1,
        0 <= k <= SIZE * SIZE,
        forall|x: int, y: int| in_grid(x, y) && body_part_of(v.cell(x, y), player)
            ==> #[trigger] occurrences(whole, x as u8, y as u8) == 1,
    ensures
        sole_claims(body_entries(v, k), no_claims(), player, whole) == body_count(v, player, k),
    decreases k,
{
    if k > 0 {
        lemma_body_entries_sole(v, player, k - 1, whole);
        let j = k - 1;
        let n = SIZE as int;
        let cx = j % n;
        let cy = j / n;
        assert(0 <= cx < n && 0 <= cy < n) by (nonlinear_arith)
            requires 0 <= j < n * n, n == 11, cx == j % n, cy == j / n;
        let c = v.cell(cx, cy);
        let tail_part: Seq<Entry> = if c != FOOD && c != 0 { seq![(cx as u8, cy as u8, owner(c) as u8, 0u8)] } else { seq![] };
        assert(body_entries(v, k) == body_entries(v, k - 1) + tail_part);
        lemma_sole_claims_add(body_entries(v, k - 1), tail_part, no_claims(), player, whole);
        if tail_part.len() > 0 {
            assert(tail_part.drop_first() =~= seq![]);
        }
        assert(sole_claims(seq![], no_claims(), player, whole) == 0);
        if c != FOOD && c != 0 {
            assert(owner(c) < 2);
            assert(tail_part.drop_first().len() == 0);
            assert(no_claims()[cy][cx] == unclaimed());
            if body_part_of(c, player) {
                assert(occurrences(whole, cx as u8, cy as u8) == 1);
            }
        }
    }
}

/// The head entry of snake `i` does not hold a body part of `player` where
/// no searched head lies on one.
proof fn lemma_head_entry_elsewhere(v: StateView, player: u8, i: int, x: int, y: int)
    requires
        0 <= i < 2,
        in_grid(x, y),
        body_part_of(v.cell(x, y), player),
        v.lengths[i] >= 3 ==> !body_part_of(v.cell(v.heads[i].0 as int, v.heads[i].1 as int), player),
    ensures
        occurrences(head_entry(v, i), x as u8, y as u8) == 0,
{
    let h = head_entry(v, i);
    assert(occurrences(seq![], x as u8, y as u8) == 0);
    if v.lengths[i] >= 3 {
        assert(h.drop_first() =~= seq![]);
        if h[0].0 == x as u8 && h[0].1 == y as u8 {
            assert(v.heads[i].0 as int == x && v.heads[i].1 as int == y);
        }
    }
}

/// Where the search starts from every body part, each body part of `player`
/// that no searched head lies on is claimed by `player`: the area is at
/// least the number of `player`'s body parts.
pub proof fn lemma_body_search_claims_own_body(v: StateView, player: u8)
    requires
        v.wf(),
        area_control_ok(v, player),
        forall|i: int| 0 <= i < 2 && v.lengths[i] >= 3 ==> !body_part_of(
            v.cell(v.heads[i].0 as int, v.heads[i].1 as int),
            player,
        ),
    ensures
        area_control_spec(v, player, true).area >= body_count(v, player, (SIZE * SIZE) as int),
{
    let whole = start_frontier(v, true);
    let f = first_searcher(v);
    assert(v.lengths[f] >= 3 ==> !body_part_of(v.cell(v.heads[f].0 as int, v.heads[f].1 as int), player));
    assert(v.lengths[1 - f] >= 3 ==> !body_part_of(v.cell(v.heads[1 - f].0 as int, v.heads[1 - f].1 as int), player));
    let heads = head_entry(v, f) + head_entry(v, 1 - f);
    let body = body_entries(v, (SIZE * SIZE) as int);
    assert(whole == heads + body);
    lemma_body_entries(v, (SIZE * SIZE) as int);
    assert(v.lengths[f] >= 3 ==> on_board(v.heads[f]));
    assert(v.lengths[1 - f] >= 3 ==> on_board(v.heads[1 - f]));
    assert forall|k: int| 0 <= k < whole.len() implies #[trigger] entry_ok(whole[k]) && whole[k].3 == 0 by {
        if k >= heads.len() {
            assert(whole[k] == body[k - heads.len()]);
        } else {
            assert(whole[k] == heads[k]);
        }
    }
    assert forall|x: int, y: int| in_grid(x, y) && body_part_of(v.cell(x, y), player)
        implies #[trigger] occurrences(whole, x as u8, y as u8) == 1 by {
        lemma_occurrences_add(heads, body, x as u8, y as u8);
        lemma_occurrences_add(head_entry(v, f), head_entry(v, 1 - f), x as u8, y as u8);
        lemma_body_entries_occurrences(v, (SIZE * SIZE) as int, x, y);
        assert(y * SIZE + x < SIZE * SIZE) by (nonlinear_arith)
            requires 0 <= y < SIZE, 0 <= x < SIZE;
        lemma_head_entry_elsewhere(v, player, f, x, y);
        lemma_head_entry_elsewhere(v, player, 1 - f, x, y);
    }
    lemma_sole_claims_add(heads, body, no_claims(), player, whole);
    lemma_body_entries_sole(v, player, (SIZE * SIZE) as int, whole);
    assert(whole + seq![] =~= whole);
    assert(grid_wf(no_claims()));
    lemma_flood_sole_claims(
        v,
        tail_or(v, player as int, (SIZE as u8, SIZE as u8)),
        player,
        whole,
        seq![],
        no_claims(),
        Flood { area: 0, food: seq![seq![], seq![]], tail_reached: false },
        whole,
    );
}

/// A snake with a cell that may hold its tail, among the cells before
/// `(x, y)`, has a tail cell among them.
proof fn lemma_tail_exists(v: StateView, who: int, x: int, y: int)
    requires
        v.wf(),
        0 <= x < SIZE,
        0 <= y <= SIZE,
        y == SIZE ==> x == 0,
        has_candidate_before(v, who, x, y),
    ensures
        exists|p: (u8, u8)| tail_before(v, who, p, x, y),
    decreases y * SIZE + x,
{
    let px: int = if x == 0 { SIZE - 1 } else { x - 1 };
    let py: int = if x == 0 { y - 1 } else { y };
    let (qx, qy) = choose|qx: int, qy: int| #![trigger v.board[qy][qx]]
        in_grid(qx, qy) && before(qx, qy, x, y) && tail_candidate(v.cell(qx, qy), who);
    assert(py >= 0);
    assert forall|ax: int, ay: int| in_grid(ax, ay) implies
        (#[trigger] before(ax, ay, x, y)) == (before(ax, ay, px, py) || (ax == px && ay == py)) by {}
    let c = v.cell(px, py);
    let here = (px as u8, py as u8);
    if has_candidate_before(v, who, px, py) {
        lemma_tail_exists(v, who, px, py);
        let p0 = choose|p: (u8, u8)| tail_before(v, who, p, px, py);
        if tail_candidate(c, who) && remaining(c) < remaining(v.cell(p0.0 as int, p0.1 as int)) {
            assert(tail_before(v, who, here, x, y)) by {
                assert(v.board[py][px] == c);
                assert forall|rx: int, ry: int|
                    #![trigger v.board[ry][rx]]
                    in_grid(rx, ry) && before(rx, ry, x, y) && tail_candidate(v.cell(rx, ry), who) implies {
                        ||| remaining(v.cell(here.0 as int, here.1 as int)) < remaining(v.cell(rx, ry))
                        ||| (remaining(v.cell(here.0 as int, here.1 as int)) == remaining(v.cell(rx, ry))
                            && !before(rx, ry, here.0 as int, here.1 as int))
                    } by {
                    if !(rx == px && ry == py) {
                        assert(before(rx, ry, px, py));
                    }
                }
            }
        } else {
            assert(tail_before(v, who, p0, x, y)) by {
                assert(before(p0.0 as int, p0.1 as int, x, y));
                assert forall|rx: int, ry: int|
                    #![trigger v.board[ry][rx]]
                    in_grid(rx, ry) && before(rx, ry, x, y) && tail_candidate(v.cell(rx, ry), who) implies {
                        ||| remaining(v.cell(p0.0 as int, p0.1 as int)) < remaining(v.cell(rx, ry))
                        ||| (remaining(v.cell(p0.0 as int, p0.1 as int)) == remaining(v.cell(rx, ry))
                            && !before(rx, ry, p0.0 as int, p0.1 as int))
                    } by {
                    if rx == px && ry == py {
                        assert(v.board[py][px] == c);
                    } else {
                        assert(before(rx, ry, px, py));
                    }
                }
            }
        }
    } else {
        assert(qx == px && qy == py) by {
            if !(qx == px && qy == py) {
                assert(before(qx, qy, px, py));
                assert(has_candidate_before(v, who, px, py));
            }
        }
        assert(tail_before(v, who, here, x, y)) by {
            assert forall|rx: int, ry: int|
                #![trigger v.board[ry][rx]]
                in_grid(rx, ry) && before(rx, ry, x, y) && tail_candidate(v.cell(rx, ry), who) implies {
                    ||| remaining(v.cell(here.0 as int, here.1 as int)) < remaining(v.cell(rx, ry))
                    ||| (remaining(v.cell(here.0 as int, here.1 as int)) == remaining(v.cell(rx, ry))
                        && !before(rx, ry, here.0 as int, here.1 as int))
                } by {
                if !(rx == px && ry == py) {
                    assert(before(rx, ry, px, py));
                    assert(has_candidate_before(v, who, px, py));
                }
            }
        }
    }
}

/// The search reads the state's board only: two states with the same board
/// search alike.
proof fn lemma_flood_same_board(
    v: StateView,
    w: StateView,
    tail: (u8, u8),
    player: u8,
    is_body: bool,
    q: Seq<Entry>,
    g: Seq<Seq<u8>>,
    acc: Flood,
)
    requires
        v.board == w.board,
        queue_ok(q),
        grid_wf(g),
    ensures
        flood(v, tail, player, is_body, q, g, acc) == flood(w, tail, player, is_body, q, g, acc),
    decreases 5 * unclaimed_cells(g) + q.len(),
{
    if q.len() == 0 {
        lemma_flood_done(v, tail, player, is_body, q, g, acc);
        lemma_flood_done(w, tail, player, is_body, q, g, acc);
    } else {
        lemma_flood_step(v, tail, player, is_body, q, g, acc);
        lemma_flood_step(w, tail, player, is_body, q, g, acc);
        let e = q[0];
        assert(entry_ok(e));
        let c = v.cell(e.0 as int, e.1 as int);
        assert(c == w.cell(e.0 as int, e.1 as int));
        assert(queue_ok(q.drop_first())) by {
            assert forall|k: int| 0 <= k < q.drop_first().len() implies #[trigger] entry_ok(q.drop_first()[k]) by {
                assert(q.drop_first()[k] == q[k + 1]);
            }
        }
        if blocked(c, e.3, is_body) || g[e.1 as int][e.0 as int] != unclaimed() {
            lemma_flood_same_board(v, w, tail, player, is_body, q.drop_first(), g, acc);
        } else {
            let g2 = set_cell(g, e.0 as int, e.1 as int, e.2);
            let q2 = q.drop_first() + neighbours(e);
            lemma_count_claim(g, e.0 as int, e.1 as int, e.2, (SIZE * SIZE) as int);
            assert(e.1 * SIZE + e.0 < SIZE * SIZE) by (nonlinear_arith)
                requires e.1 < SIZE, e.0 < SIZE;
            crate::moves::lemma_set_cell_wf(g, e.0 as int, e.1 as int, e.2);
            assert(queue_ok(q2)) by {
                let nb = neighbours(e);
                assert forall|k: int| 0 <= k < q2.len() implies #[trigger] entry_ok(q2[k]) by {
                    if k < q.len() - 1 {
                        assert(q2[k] == q[k + 1]);
                    } else {
                        assert(q2[k] == nb[k - (q.len() - 1)]);
                    }
                }
            }
            let next = Flood {
                area: acc.area + if e.2 == player { 1nat } else { 0nat },
                food: if c == FOOD {
                    acc.food.update(e.2 as int, acc.food[e.2 as int].push(e.3))
                } else {
                    acc.food
                },
                tail_reached: acc.tail_reached || ((e.0, e.1) == tail && e.2 == player),
            };
            lemma_flood_same_board(v, w, tail, player, is_body, q2, g2, next);
        }
    }
}

/// The body entries read the board only.
proof fn lemma_body_entries_same_board(v: StateView, w: StateView, k: int)
    requires
        v.board == w.board,
    ensures
        body_entries(v, k) == body_entries(w, k),
    decreases k,
{
    if k > 0 {
        lemma_body_entries_same_board(v, w, k - 1);
    }
}

/// What the search finds depends only on the board, the lengths and the
/// heads: health, life, the turn and the start-of-search board play no part.
pub proof fn lemma_area_control_reads_board(v: StateView, w: StateView, player: u8, is_body: bool)
    requires
        v.wf(),
        area_control_ok(v, player),
        v.board == w.board,
        v.lengths == w.lengths,
        v.heads == w.heads,
    ensures
        area_control_spec(v, player, is_body) == area_control_spec(w, player, is_body),
{
    lemma_body_entries_same_board(v, w, (SIZE * SIZE) as int);
    assert(start_frontier(v, is_body) == start_frontier(w, is_body));
    let who = player as int;
    assert(has_tail(v, who) == has_tail(w, who)) by {
        if has_tail(v, who) {
            let (qx, qy) = choose|qx: int, qy: int| #![trigger v.board[qy][qx]]
                in_grid(qx, qy) && before(qx, qy, 0, SIZE as int) && tail_candidate(v.cell(qx, qy), who);
            assert(w.board[qy][qx] == v.board[qy][qx]);
        }
        if has_tail(w, who) {
            let (qx, qy) = choose|qx: int, qy: int| #![trigger w.board[qy][qx]]
                in_grid(qx, qy) && before(qx, qy, 0, SIZE as int) && tail_candidate(w.cell(qx, qy), who);
            assert(w.board[qy][qx] == v.board[qy][qx]);
        }
    }
    assert forall|p: (u8, u8)| is_tail(v, who, p) == is_tail(w, who, p) by {
        assert(v.cell(p.0 as int, p.1 as int) == w.cell(p.0 as int, p.1 as int));
    }
    if has_tail(v, who) {
        lemma_tail_exists(v, who, 0, SIZE as int);
        let p0 = choose|p: (u8, u8)| tail_before(v, who, p, 0, SIZE as int);
        assert(is_tail(v, who, p0));
        let p = choose|p: (u8, u8)| is_tail(v, who, p);
        assert(is_tail(v, who, p));
        assert(is_tail(w, who, p));
        let q = choose|p: (u8, u8)| is_tail(w, who, p);
        assert(is_tail(w, who, q));
        assert(is_tail(v, who, q));
        lemma_tail_unique(v, who, p, q);
    }
    let tail = tail_or(v, who, (SIZE as u8, SIZE as u8));
    assert(tail == tail_or(w, who, (SIZE as u8, SIZE as u8)));
    lemma_body_entries(v, (SIZE * SIZE) as int);
    let q0 = start_frontier(v, is_body);
    let f = first_searcher(v);
    let heads = head_entry(v, f) + head_entry(v, 1 - f);
    let body = if is_body { body_entries(v, (SIZE * SIZE) as int) } else { seq![] };
    assert(q0 == heads + body);
    assert(v.lengths[f] >= 3 ==> on_board(v.heads[f]));
    assert(v.lengths[1 - f] >= 3 ==> on_board(v.heads[1 - f]));
    assert forall|k: int| 0 <= k < q0.len() implies #[trigger] entry_ok(q0[k]) by {
        if k >= heads.len() {
            assert(q0[k] == body[k - heads.len()]);
        } else {
            assert(q0[k] == heads[k]);
        }
    }
    assert(grid_wf(no_claims()));
    lemma_flood_same_board(v, w, tail, player, is_body, q0, no_claims(),
        Flood { area: 0, food: seq![seq![], seq![]], tail_reached: false });
}

/// Whether cell `(x, y)` is next to `h` (up, down, left or right).
pub open spec fn adjacent(x: int, y: int, h: (u8, u8)) -> bool {
    ||| (x == h.0 && (y == h.1 + 1 || y + 1 == h.1))
    ||| (y == h.1 && (x == h.0 + 1 || x + 1 == h.0))
}

/// Every neighbour entry lies next to the entry's cell, for the same snake,
/// one move further away.
proof fn lemma_neighbours_adjacent(e: Entry)
    ensures
        forall|k: int| 0 <= k < neighbours(e).len() ==> {
            let n = #[trigger] neighbours(e)[k];
            adjacent(n.0 as int, n.1 as int, (e.0, e.1)) && n.2 == e.2 && n.3 == (e.3 + 1) as u8
        },
{
}

/// The frontier entries of `player` in a search from its boxed-in head `h`:
/// the head itself at distance 0, or a neighbour of it at distance 1.
pub open spec fn boxed_entries(q: Seq<Entry>, h: (u8, u8), player: u8) -> bool {
    forall|k: int| 0 <= k < q.len() && (#[trigger] q[k]).2 == player ==> {
        ||| (q[k].0 == h.0 && q[k].1 == h.1 && q[k].3 == 0)
        ||| (adjacent(q[k].0 as int, q[k].1 as int, h) && q[k].3 == 1)
    }
}

/// From a head whose neighbours all hold body parts still there after one
/// move, the search claims at most the head cell for its snake.
proof fn lemma_flood_boxed(
    v: StateView,
    tail: (u8, u8),
    player: u8,
    h: (u8, u8),
    q: Seq<Entry>,
    g: Seq<Seq<u8>>,
    acc: Flood,
)
    requires
        player < 2,
        in_grid(h.0 as int, h.1 as int),
        forall|x: int, y: int| in_grid(x, y) && adjacent(x, y, h) ==> #[trigger] v.board[y][x] != 0xFF && v.board[y][x] % 128
            >= 2,
        queue_ok(q),
        grid_wf(g),
        boxed_entries(q, h, player),
        acc.area == 0 || (acc.area == 1 && g[h.1 as int][h.0 as int] != unclaimed()),
    ensures
        flood(v, tail, player, false, q, g, acc).area <= 1,
    decreases 5 * unclaimed_cells(g) + q.len(),
{
    if q.len() == 0 {
        lemma_flood_done(v, tail, player, false, q, g, acc);
    } else {
        lemma_flood_step(v, tail, player, false, q, g, acc);
        let e = q[0];
        assert(entry_ok(e));
        let c = v.cell(e.0 as int, e.1 as int);
        let q1 = q.drop_first();
        assert(queue_ok(q1) && boxed_entries(q1, h, player)) by {
            assert forall|k: int| 0 <= k < q1.len() implies #[trigger] entry_ok(q1[k]) by {
                assert(q1[k] == q[k + 1]);
            }
            assert forall|k: int| 0 <= k < q1.len() && (#[trigger] q1[k]).2 == player implies {
                ||| (q1[k].0 == h.0 && q1[k].1 == h.1 && q1[k].3 == 0)
                ||| (adjacent(q1[k].0 as int, q1[k].1 as int, h) && q1[k].3 == 1)
            } by {
                assert(q1[k] == q[k + 1]);
            }
        }
        if blocked(c, e.3, false) || g[e.1 as int][e.0 as int] != unclaimed() {
            lemma_flood_boxed(v, tail, player, h, q1, g, acc);
        } else {
            if e.2 == player {
                assert(q[0].2 == player);
                if adjacent(e.0 as int, e.1 as int, h) && e.3 == 1 {
                    assert(v.board[e.1 as int][e.0 as int] != 0xFF && v.board[e.1 as int][e.0 as int] % 128 >= 2);
                    assert(false);
                }
                assert(e.0 == h.0 && e.1 == h.1 && e.3 == 0);
            }
            let g2 = set_cell(g, e.0 as int, e.1 as int, e.2);
            let nb = neighbours(e);
            let q2 = q1 + nb;
            lemma_count_claim(g, e.0 as int, e.1 as int, e.2, (SIZE * SIZE) as int);
            assert(e.1 * SIZE + e.0 < SIZE * SIZE) by (nonlinear_arith)
                requires e.1 < SIZE, e.0 < SIZE;
            crate::moves::lemma_set_cell_wf(g, e.0 as int, e.1 as int, e.2);
            lemma_neighbours_adjacent(e);
            assert(queue_ok(q2) && boxed_entries(q2, h, player)) by {
                assert forall|k: int| 0 <= k < q2.len() implies #[trigger] entry_ok(q2[k]) by {
                    if k < q1.len() {
                        assert(q2[k] == q1[k]);
                    } else {
                        assert(q2[k] == nb[k - q1.len()]);
                    }
                }
                assert forall|k: int| 0 <= k < q2.len() && (#[trigger] q2[k]).2 == player implies {
                    ||| (q2[k].0 == h.0 && q2[k].1 == h.1 && q2[k].3 == 0)
                    ||| (adjacent(q2[k].0 as int, q2[k].1 as int, h) && q2[k].3 == 1)
                } by {
                    if k < q1.len() {
                        assert(q2[k] == q1[k]);
                    } else {
                        assert(q2[k] == nb[k - q1.len()]);
                    }
                }
            }
            let next = Flood {
                area: acc.area + if e.2 == player { 1nat } else { 0nat },
                food: if c == FOOD {
                    acc.food.update(e.2 as int, acc.food[e.2 as int].push(e.3))
                } else {
                    acc.food
                },
                tail_reached: acc.tail_reached || ((e.0, e.1) == tail && e.2 == player),
            };
            assert(g2[h.1 as int][h.0 as int] != unclaimed() || next.area == 0);
            lemma_flood_boxed(v, tail, player, h, q2, g2, next);
        }
    }
}

/// A snake boxed in claims only its head: where every cell next to the head
/// of `player` holds a body part (not food) that stays at least two more
/// turns, a body part the search reaches after one move is still there, so
/// the search from the heads gives `player` an area of at most 1.
pub proof fn lemma_boxed_in_area(v: StateView, player: u8)
    requires
        v.wf(),
        area_control_ok(v, player),
        on_board(v.heads[player as int]),
        forall|x: int, y: int| in_grid(x, y) && adjacent(x, y, v.heads[player as int]) ==> #[trigger] v.board[y][x] != 0xFF
            && v.board[y][x] % 128 >= 2,
    ensures
        area_control_spec(v, player, false).area <= 1,
{
    let h = v.heads[player as int];
    let q0 = start_frontier(v, false);
    let f = first_searcher(v);
    let heads = head_entry(v, f) + head_entry(v, 1 - f);
    assert(q0 =~= heads);
    assert(v.lengths[f] >= 3 ==> on_board(v.heads[f]));
    assert(v.lengths[1 - f] >= 3 ==> on_board(v.heads[1 - f]));
    assert(queue_ok(q0) && boxed_entries(q0, h, player)) by {
        assert forall|k: int| 0 <= k < q0.len() implies #[trigger] entry_ok(q0[k]) by {
            assert(q0[k] == heads[k]);
        }
        assert forall|k: int| 0 <= k < q0.len() && (#[trigger] q0[k]).2 == player implies {
            ||| (q0[k].0 == h.0 && q0[k].1 == h.1 && q0[k].3 == 0)
            ||| (adjacent(q0[k].0 as int, q0[k].1 as int, h) && q0[k].3 == 1)
        } by {
            assert(q0[k] == heads[k]);
        }
    }
    assert(grid_wf(no_claims()));
    lemma_flood_boxed(
        v,
        tail_or(v, player as int, (SIZE as u8, SIZE as u8)),
        player,
        h,
        q0,
        no_claims(),
        Flood { area: 0, food: seq![seq![], seq![]], tail_reached: false },
    );
}

/// A snake at least three long whose head is on the board, on a cell that is
/// food or holds no body part that stays (its low seven bits are 0), and not
/// on the other head, claims at least its head cell: the search from the
/// heads gives it an area of at least 1.
pub proof fn lemma_free_head_area(v: StateView, player: u8)
    requires
        v.wf(),
        area_control_ok(v, player),
        v.lengths[player as int] >= 3,
        v.heads[0] != v.heads[1],
        ({
            let h = v.heads[player as int];
            v.board[h.1 as int][h.0 as int] == 0xFF || v.board[h.1 as int][h.0 as int] % 128 == 0
        }),
    ensures
        area_control_spec(v, player, false).area >= 1,
{
    let h = v.heads[player as int];
    let f = first_searcher(v);
    let q0 = start_frontier(v, false);
    let e1 = head_entry(v, f);
    let e2 = head_entry(v, 1 - f);
    assert(q0 =~= e1 + e2);
    assert(v.lengths[f] >= 3 ==> on_board(v.heads[f]));
    assert(v.lengths[1 - f] >= 3 ==> on_board(v.heads[1 - f]));
    assert(queue_ok(q0)) by {
        assert forall|k: int| 0 <= k < q0.len() implies #[trigger] entry_ok(q0[k]) by {}
    }
    let tail = tail_or(v, player as int, (SIZE as u8, SIZE as u8));
    let acc0 = Flood { area: 0, food: seq![seq![], seq![]], tail_reached: false };
    let g0 = no_claims();
    assert(grid_wf(g0));
    let me = (h.0, h.1, player, 0u8);
    let c = v.cell(h.0 as int, h.1 as int);
    // the claim of the head entry, taken from the front of `q` over `g`
    if f == player as int {
        assert(q0[0] == me);
        lemma_flood_step(v, tail, player, false, q0, g0, acc0);
        let g2 = set_cell(g0, h.0 as int, h.1 as int, player);
        let q2 = q0.drop_first() + neighbours(me);
        let next = Flood {
            area: 1,
            food: if c == FOOD { acc0.food.update(player as int, acc0.food[player as int].push(0)) } else { acc0.food },
            tail_reached: acc0.tail_reached || ((h.0, h.1) == tail),
        };
        crate::moves::lemma_set_cell_wf(g0, h.0 as int, h.1 as int, player);
        assert(queue_ok(q2)) by {
            let nb = neighbours(me);
            assert forall|k: int| 0 <= k < q2.len() implies #[trigger] entry_ok(q2[k]) by {
                if k < q0.len() - 1 {
                    assert(q2[k] == q0[k + 1]);
                } else {
                    assert(q2[k] == nb[k - (q0.len() - 1)]);
                }
            }
        }
        lemma_flood_area_grows(v, tail, player, false, q2, g2, next);
    } else {
        let o = e1[0];
        if v.lengths[f] >= 3 {
            assert(q0[0] == o);
            assert((o.0, o.1) != (h.0, h.1));
            lemma_flood_step(v, tail, player, false, q0, g0, acc0);
            let co = v.cell(o.0 as int, o.1 as int);
            let rest = q0.drop_first();
            assert(rest =~= e2);
            assert(rest[0] == me);
            if blocked(co, 0, false) {
                assert(queue_ok(rest)) by {
                    assert forall|k: int| 0 <= k < rest.len() implies #[trigger] entry_ok(rest[k]) by {}
                }
                lemma_flood_step(v, tail, player, false, rest, g0, acc0);
                let g2 = set_cell(g0, h.0 as int, h.1 as int, player);
                let q2 = rest.drop_first() + neighbours(me);
                let next = Flood {
                    area: 1,
                    food: if c == FOOD { acc0.food.update(player as int, acc0.food[player as int].push(0)) } else { acc0.food },
                    tail_reached: acc0.tail_reached || ((h.0, h.1) == tail),
                };
                crate::moves::lemma_set_cell_wf(g0, h.0 as int, h.1 as int, player);
                assert(q2 =~= neighbours(me));
                lemma_neighbours_adjacent(me);
                assert(queue_ok(q2)) by {
                    assert forall|k: int| 0 <= k < q2.len() implies #[trigger] entry_ok(q2[k]) by {}
                }
                lemma_flood_area_grows(v, tail, player, false, q2, g2, next);
            } else {
                let g1 = set_cell(g0, o.0 as int, o.1 as int, o.2);
                let q1 = rest + neighbours(o);
                let acc1 = Flood {
                    area: 0,
                    food: if co == FOOD { acc0.food.update(o.2 as int, acc0.food[o.2 as int].push(0)) } else { acc0.food },
                    tail_reached: acc0.tail_reached,
                };
                crate::moves::lemma_set_cell_wf(g0, o.0 as int, o.1 as int, o.2);
                assert(q1[0] == me);
                assert(queue_ok(q1)) by {
                    let nb = neighbours(o);
                    assert forall|k: int| 0 <= k < q1.len() implies #[trigger] entry_ok(q1[k]) by {
                        if k >= 1 {
                            assert(q1[k] == nb[k - 1]);
                        }
                    }
                }
                assert(g1[h.1 as int][h.0 as int] == unclaimed());
                lemma_flood_step(v, tail, player, false, q1, g1, acc1);
                let g2 = set_cell(g1, h.0 as int, h.1 as int, player);
                let q2 = q1.drop_first() + neighbours(me);
                let next = Flood {
                    area: 1,
                    food: if c == FOOD { acc1.food.update(player as int, acc1.food[player as int].push(0)) } else { acc1.food },
                    tail_reached: acc1.tail_reached || ((h.0, h.1) == tail),
                };
                crate::moves::lemma_set_cell_wf(g1, h.0 as int, h.1 as int, player);
                assert(queue_ok(q2)) by {
                    let nb = neighbours(me);
                    assert forall|k: int| 0 <= k < q2.len() implies #[trigger] entry_ok(q2[k]) by {
                        if k < q1.len() - 1 {
                            assert(q2[k] == q1[k + 1]);
                        } else {
                            assert(q2[k] == nb[k - (q1.len() - 1)]);
                        }
                    }
                }
                lemma_flood_area_grows(v, tail, player, false, q2, g2, next);
            }
        } else {
            assert(q0 =~= e2);
            assert(q0[0] == me);
            lemma_flood_step(v, tail, player, false, q0, g0, acc0);
            let g2 = set_cell(g0, h.0 as int, h.1 as int, player);
            let q2 = q0.drop_first() + neighbours(me);
            let next = Flood {
                area: 1,
                food: if c == FOOD { acc0.food.update(player as int, acc0.food[player as int].push(0)) } else { acc0.food },
                tail_reached: acc0.tail_reached || ((h.0, h.1) == tail),
            };
            crate::moves::lemma_set_cell_wf(g0, h.0 as int, h.1 as int, player);
            assert(q2 =~= neighbours(me));
            assert(queue_ok(q2)) by {
                assert forall|k: int| 0 <= k < q2.len() implies #[trigger] entry_ok(q2[k]) by {}
            }
            lemma_flood_area_grows(v, tail, player, false, q2, g2, next);
        }
    }
}

/// Shares the board out between the snakes by a breadth-first search from
/// their heads (and, with `is_body`, from every body part, each start cell
/// claimed by the snake it belongs to): returns how many
/// cells `player` reaches first, the distances at which each snake reaches
/// food, and whether `player` reaches its own tail.
#[verifier::rlimit(60)]
pub fn get_area_control_score(state: &State, player: &u8, is_body: bool) -> (r: (u8, [Vec<u8>; 2], bool))
    requires
        area_control_ok(state@, *player),
    ensures
        r.0 as nat == area_control_spec(state@, *player, is_body).area,
        r.0 <= SIZE * SIZE,
        r.1[0]@ == area_control_spec(state@, *player, is_body).food[0],
        r.1[1]@ == area_control_spec(state@, *player, is_body).food[1],
        r.2 == area_control_spec(state@, *player, is_body).tail_reached,
{
    let ghost v = state@;
    proof { lemma_view_wf(*state); }
    let mut me_tail_spot: (u8, u8) = (11, 11);
    let mut enemy_tail_spot: (u8, u8) = (11, 11);
    let mut can_reach_me_tail = false;
    get_tail_positions(state, &mut me_tail_spot, &mut enemy_tail_spot, player);
    let ghost tail = me_tail_spot;
    proof {
        if has_tail(v, *player as int) {
            let p = choose|p: (u8, u8)| is_tail(v, *player as int, p);
            lemma_tail_unique(v, *player as int, p, me_tail_spot);
        }
        assert(tail == tail_or(v, *player as int, (SIZE as u8, SIZE as u8)));
    }

    let mut area_i_control: u8 = 0;

    // the distances at which each snake meets food, in the order met
    let mut food_me: Vec<u8> = Vec::new();
    let mut food_enemy: Vec<u8> = Vec::new();

    // the longer snake searches first
    let indices: [usize; 2] = if state.snake_lengths[1] > state.snake_lengths[0] { [1, 0] } else { [0, 1] };

    let mut frontier: VecDeque<Entry> = VecDeque::new();
    for k in 0..2usize
        invariant
            v == state@,
            v.wf(),
            area_control_ok(v, *player),
            indices@ == seq![first_searcher(v) as usize, (1 - first_searcher(v)) as usize],
            frontier@ == if k == 0 { seq![] } else if k == 1 { head_entry(v, first_searcher(v)) } else {
                head_entry(v, first_searcher(v)) + head_entry(v, 1 - first_searcher(v))
            },
    {
        let i = indices[k];
        if state.snake_lengths[i] >= 3 {
            frontier.push_back((state.snake_heads[i].0, state.snake_heads[i].1, i as u8, 0));
        }
        assert(frontier@ =~= if k + 1 == 1 { head_entry(v, first_searcher(v)) } else {
            head_entry(v, first_searcher(v)) + head_entry(v, 1 - first_searcher(v))
        });
    }
    let ghost heads_part = frontier@;

    if is_body {
        for y in 0..SIZE
            invariant
                v == state@,
                v.wf(),
                frontier@ == heads_part + body_entries(v, (y * SIZE) as int),
        {
            for x in 0..SIZE
                invariant
                    v == state@,
                    v.wf(),
                    y < SIZE,
                    frontier@ == heads_part + body_entries(v, (y * SIZE + x) as int),
            {
                let cell = state.board_struct[y][x];
                proof {
                    lemma_cell_bits(cell);
                    let k = (y * SIZE + x + 1) as int;
                    assert((k - 1) % SIZE as int == x && (k - 1) / SIZE as int == y) by (nonlinear_arith)
                        requires k - 1 == y * 11 + x, 0 <= x < 11;
                    assert(cell == v.cell(x as int, y as int));
                }
                if cell != 0b11111111 && cell != 0 {
                    let index = (cell & 0b10000000) >> 7;
                    frontier.push_back((x as u8, y as u8, index, 0));
                }
                assert(frontier@ =~= heads_part + body_entries(v, (y * SIZE + x + 1) as int));
            }
        }
    }
    let ghost q0 = frontier@;
    assert(q0 =~= start_frontier(v, is_body));

    let mut gone_to: [[u8; SIZE]; SIZE] = [[4; SIZE]; SIZE];
    assert(grid_view(gone_to) =~~= no_claims());
    proof {
        lemma_no_claims_count((SIZE * SIZE) as int);
        lemma_body_entries(v, (SIZE * SIZE) as int);
        let hp = head_entry(v, first_searcher(v)) + head_entry(v, 1 - first_searcher(v));
        let be = if is_body { body_entries(v, (SIZE * SIZE) as int) } else { seq![] };
        assert forall|k: int| 0 <= k < q0.len() implies #[trigger] entry_ok(q0[k]) && q0[k].3 == 0 by {
            if k >= hp.len() {
                assert(q0[k] == be[k - hp.len()]);
            }
        }
    }
    // everything still to be reached lies on the board, so at most one cell
    // further away than the number of cells claimed so far
    while frontier.len() > 0
        invariant
            v == state@,
            v.wf(),
            *player <= 1,
            me_tail_spot == tail,
            queue_ok(frontier@),
            grid_wf(grid_view(gone_to)),
            unclaimed_cells(grid_view(gone_to)) <= SIZE * SIZE,
            forall|k: int| 0 <= k < frontier@.len() ==>
                #[trigger] frontier@[k].3 + unclaimed_cells(grid_view(gone_to)) <= SIZE * SIZE,
            area_i_control + unclaimed_cells(grid_view(gone_to)) <= SIZE * SIZE,
            flood(v, tail, *player, is_body, frontier@, grid_view(gone_to),
                Flood { area: area_i_control as nat, food: seq![food_me@, food_enemy@], tail_reached: can_reach_me_tail })
                == area_control_spec(v, *player, is_body),
        decreases 5 * unclaimed_cells(grid_view(gone_to)) + frontier@.len(),
    {
        let ghost q = frontier@;
        let ghost g = grid_view(gone_to);
        let ghost acc0 = Flood { area: area_i_control as nat, food: seq![food_me@, food_enemy@], tail_reached: can_reach_me_tail };
        proof { lemma_flood_step(v, tail, *player, is_body, q, g, acc0); }
        let cur = frontier.pop_front().unwrap();
        assert(cur == q[0]);
        assert(entry_ok(cur));
        assert(frontier@ =~= q.drop_first());
        let cur_x = cur.0;
        let cur_y = cur.1;
        let cur_index = cur.2;
        let cur_distance = cur.3;
        assert(cur.3 + unclaimed_cells(g) <= SIZE * SIZE);
        let cell = state.board_struct[cur_y as usize][cur_x as usize];
        proof {
            lemma_cell_bits(cell);
            assert(cell == v.cell(cur_x as int, cur_y as int));
        }
        if cell & 0b01111111 > cur_distance && cell != 0b11111111 && !(is_body && cur_distance == 0) {
            assert(queue_ok(frontier@));
            assert forall|k: int| 0 <= k < frontier@.len() implies
                #[trigger] frontier@[k].3 + unclaimed_cells(g) <= SIZE * SIZE by {
                assert(frontier@[k] == q[k + 1]);
            }
            continue;
        }
        if gone_to[cur_y as usize][cur_x as usize] != 4 {
            assert(gone_to[cur_y as int][cur_x as int] == g[cur_y as int][cur_x as int]);
            assert(queue_ok(frontier@));
            assert forall|k: int| 0 <= k < frontier@.len() implies
                #[trigger] frontier@[k].3 + unclaimed_cells(g) <= SIZE * SIZE by {
                assert(frontier@[k] == q[k + 1]);
            }
            continue;
        }
        assert(gone_to[cur_y as int][cur_x as int] == g[cur_y as int][cur_x as int]);

        let ghost acc = Flood { area: area_i_control as nat, food: seq![food_me@, food_enemy@], tail_reached: can_reach_me_tail };
        if cur_x == me_tail_spot.0 && cur_y == me_tail_spot.1 {
            if cur_index == *player {
                can_reach_me_tail = true;
            }
        }

        if cell == 0b11111111 {
            if cur_index == 0 {
                food_me.push(cur_distance);
            } else {
                food_enemy.push(cur_distance);
            }
        }

        write_cell(&mut gone_to, cur_x as usize, cur_y as usize, cur_index);
        proof {
            lemma_count_claim(g, cur_x as int, cur_y as int, cur_index, (SIZE * SIZE) as int);
            assert(cur_y * SIZE + cur_x < SIZE * SIZE) by (nonlinear_arith)
                requires cur_y < SIZE, cur_x < SIZE;
        }
        if cur_index == *player {
            area_i_control += 1;
        }

        let next_distance = cur_distance + 1;
        if cur_y < 10 {
            frontier.push_back((cur_x, cur_y + 1, cur_index, next_distance));
        }
        if cur_y > 0 {
            frontier.push_back((cur_x, cur_y - 1, cur_index, next_distance));
        }
        if cur_x > 0 {
            frontier.push_back((cur_x - 1, cur_y, cur_index, next_distance));
        }
        if cur_x < 10 {
            frontier.push_back((cur_x + 1, cur_y, cur_index, next_distance));
        }
        proof {
            assert(frontier@ =~= q.drop_first() + neighbours(cur));
            let next = Flood {
                area: acc.area + if cur_index == *player { 1nat } else { 0nat },
                food: if cell == FOOD {
                    acc.food.update(cur_index as int, acc.food[cur_index as int].push(cur_distance))
                } else {
                    acc.food
                },
                tail_reached: acc.tail_reached || ((cur_x, cur_y) == tail && cur_index == *player),
            };
            assert(seq![food_me@, food_enemy@] =~= next.food);
            assert(area_i_control as nat == next.area);
            assert(can_reach_me_tail == next.tail_reached);
            assert(acc == acc0);
            assert(grid_view(gone_to) == set_cell(g, cur.0 as int, cur.1 as int, cur.2));
            assert(Flood { area: area_i_control as nat, food: seq![food_me@, food_enemy@], tail_reached: can_reach_me_tail } == next);
            let nb = neighbours(cur);
            let rest = q.drop_first();
            assert forall|k: int| 0 <= k < frontier@.len() implies
                #[trigger] entry_ok(frontier@[k]) && frontier@[k].3 + unclaimed_cells(grid_view(gone_to)) <= SIZE * SIZE by {
                if k < rest.len() {
                    assert(frontier@[k] == q[k + 1]);
                } else {
                    assert(frontier@[k] == nb[k - rest.len()]);
                }
            }
        }
    }

    proof {
        lemma_flood_done(v, tail, *player, is_body, frontier@, grid_view(gone_to),
            Flood { area: area_i_control as nat, food: seq![food_me@, food_enemy@], tail_reached: can_reach_me_tail });
    }
    (area_i_control, [food_me, food_enemy], can_reach_me_tail)
}

} // verus!
