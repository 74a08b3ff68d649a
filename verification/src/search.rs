//! The search for the best move: a depth-limited minimax with alpha-beta
//! pruning, where snake 0 maximises and snake 1 minimises the evaluation.
use vstd::prelude::*;
use std::time::Instant;
use crate::clock::{as_millis, instant_now, time_between};
use crate::board::{FOOD, SIZE, State, StateView, lemma_view_wf, on_board, remaining};
use crate::area_control::area_control_spec;
use crate::eval::{centre_bonus, edge_bonus, state_value, state_value_ok, state_value_spec};
use crate::moves::{
    end_turn, end_turn_spec, lemma_dead_snake_stays, lemma_end_turn_outcome, lemma_make_move_frame, make_move,
    make_move_ok, make_move_spec, mover, step,
};

verus! {

/// Where a move takes the head of snake `p`: a step in direction `m` for
/// `m < 4` (`None` where it leaves the board), the head itself otherwise.
pub open spec fn target(v: StateView, p: int, m: u8) -> Option<(u8, u8)> {
    if m < 4 { step(v.heads[p], m as int) } else { Some(v.heads[p]) }
}

/// Whether move `m` loses at once for snake `p`: it leaves the board, or it
/// enters a cell that is not food while a body part stays there for more than
/// one turn, or while `p` has at most one health left.
pub open spec fn bad_move(v: StateView, p: int, m: u8) -> bool {
    match target(v, p, m) {
        None => true,
        Some(n) => {
            let c = v.cell(n.0 as int, n.1 as int);
            c != FOOD && (remaining(c) > 1 || v.healths[p] <= 1)
        },
    }
}

/// The inputs on which judging move `m` of snake `p` reads the board only on
/// the board.
pub open spec fn bad_move_ok(v: StateView, p: int, m: u8) -> bool {
    &&& 0 <= p < 2
    &&& match target(v, p, m) {
        None => true,
        Some(n) => on_board(n),
    }
}

/// Whether move `move_int` is an instant loss for snake `player`.
fn is_move_a_bad_one(state: &State, player: &u8, move_int: u8) -> (r: bool)
    requires
        bad_move_ok(state@, *player as int, move_int),
    ensures
        r == bad_move(state@, *player as int, move_int),
{
    proof { lemma_view_wf(*state); }
    let head_x = state.snake_heads[*player as usize].0;
    let head_y = state.snake_heads[*player as usize].1;

    let mut new_x = head_x;
    let mut new_y = head_y;

    if move_int == 0 {
        if head_y >= SIZE as u8 - 1 {
            return true;
        }
        new_y += 1;
    }
    if move_int == 1 {
        if head_y <= 0 {
            return true;
        }
        new_y -= 1;
    }
    if move_int == 2 {
        if head_x <= 0 {
            return true;
        }
        new_x -= 1;
    }
    if move_int == 3 {
        if head_x >= SIZE as u8 - 1 {
            return true;
        }
        new_x += 1;
    }

    let cell = state.board_struct[new_y as usize][new_x as usize];
    proof { crate::board::lemma_cell_bits(cell); }
    if cell != 0b11111111 {
        if cell & 0b01111111 > 1 {
            return true;
        }
        if state.snake_healths[*player as usize] <= 1 {
            return true;
        }
    }

    return false;
}

/// Which moves are instant losses, for a snake whose head is on the board:
/// the step (up adds one to the row, down takes one off it, left takes one
/// off the column, right adds one to it) leaves the board, or it enters a
/// cell that is not food while a body part stays there more than one turn or
/// the snake has at most one health left.
pub proof fn lemma_bad_move_cells(v: StateView, p: int, m: u8)
    requires
        v.wf(),
        0 <= p < 2,
        on_board(v.heads[p]),
        m < 4,
    ensures
        ({
            let nx: int = v.heads[p].0 + if m == 2 { -1int } else if m == 3 { 1int } else { 0int };
            let ny: int = v.heads[p].1 + if m == 0 { 1int } else if m == 1 { -1int } else { 0int };
            bad_move(v, p, m) == if !(0 <= nx < 11 && 0 <= ny < 11) {
                true
            } else {
                let c = v.board[ny][nx];
                c != 0xFF && (c % 128 > 1 || v.healths[p] <= 1)
            }
        }),
{
}

/// Whether `p` holds for each of the four directions.
pub open spec fn each_move(p: spec_fn(u8) -> bool) -> bool {
    p(0) && p(1) && p(2) && p(3)
}

/// The evaluation after snake 1 answers with move `e` and the turn ends.
pub open spec fn reply_value(w: StateView, e: u8) -> u32 {
    state_value_spec(end_turn_spec(make_move_spec(w, (4 + e) as u8)), 0)
}

/// The lowest evaluation among the answers `0..k` of snake 1 that are not an
/// instant loss for it, or `0xFFFF_FFFF` where there is none.
pub open spec fn worst_reply(w: StateView, k: int) -> u32
    decreases k,
{
    if k <= 0 {
        0xFFFF_FFFF
    } else {
        let r = worst_reply(w, k - 1);
        let e = (k - 1) as u8;
        if !bad_move(w, 1, e) && reply_value(w, e) < r { reply_value(w, e) } else { r }
    }
}

/// The score by which the moves of snake `player` are ordered: for snake 0,
/// the worst evaluation that snake 1 can answer with (0 for an instant loss);
/// for snake 1, the evaluation after its move (`0xFFFF_FFFF` for an instant
/// loss).
pub open spec fn move_score(v: StateView, player: u8, m: u8) -> u32 {
    if player == 0 {
        if bad_move(v, 0, m) { 0 } else { worst_reply(make_move_spec(v, m), 4) }
    } else {
        if bad_move(v, 1, m) { 0xFFFF_FFFF } else { reply_value(v, m) }
    }
}

/// The scores of the four moves.
pub open spec fn move_scores(v: StateView, player: u8) -> Seq<u32> {
    Seq::new(4, |m: int| move_score(v, player, m as u8))
}

/// Whether move `j` comes before move `i` in the order: a better score (higher
/// for `desc`, lower otherwise), or an equal one and a lower index.
pub open spec fn precedes(s: Seq<u32>, desc: bool, j: int, i: int) -> bool {
    ||| (if desc { s[j] > s[i] } else { s[j] < s[i] })
    ||| (s[j] == s[i] && j < i)
}

/// Whether `a` is the first move in the order.
pub open spec fn is_first(s: Seq<u32>, desc: bool, a: int) -> bool {
    &&& 0 <= a < 4
    &&& forall|j: int| 0 <= j < 4 && j != a ==> !#[trigger] precedes(s, desc, j, a)
}

/// Whether `b` is the second move in the order, `a` being the first.
pub open spec fn is_second(s: Seq<u32>, desc: bool, a: int, b: int) -> bool {
    &&& 0 <= b < 4
    &&& b != a
    &&& forall|j: int| 0 <= j < 4 && j != a && j != b ==> !#[trigger] precedes(s, desc, j, b)
}

/// The two most promising moves of snake `player`, best first: snake 0 wants
/// the highest score, snake 1 the lowest, and the lower direction wins a tie.
/// Any other player gets the single move 0.
pub open spec fn move_order_spec(v: StateView, player: u8) -> Seq<u8> {
    if player <= 1 {
        let s = move_scores(v, player);
        let desc = player == 0;
        let a = choose|a: int| is_first(s, desc, a);
        let b = choose|b: int| is_second(s, desc, a, b);
        seq![a as u8, b as u8]
    } else {
        seq![0u8]
    }
}

/// The order has one first and one second move.
pub proof fn lemma_order_unique(s: Seq<u32>, desc: bool, a: int, b: int, a2: int, b2: int)
    requires
        is_first(s, desc, a),
        is_second(s, desc, a, b),
        is_first(s, desc, a2),
        is_second(s, desc, a2, b2),
    ensures
        a == a2,
        b == b2,
{
    if a != a2 {
        assert(!precedes(s, desc, a2, a));
        assert(!precedes(s, desc, a, a2));
    }
    if b != b2 {
        assert(!precedes(s, desc, b2, b));
        assert(!precedes(s, desc, b, b2));
    }
}

/// The two ordered moves of snake 0 or 1 are the best two: the first comes
/// before the second, and both before every other direction, where a move
/// comes first with a better score (higher for snake 0, lower for snake 1)
/// or, on equal scores, with the lower direction.
pub proof fn lemma_move_order_is_best(v: StateView, player: u8)
    requires
        player <= 1,
    ensures
        ({
            let r = move_order_spec(v, player);
            let s = move_scores(v, player);
            let desc = player == 0;
            &&& r.len() == 2
            &&& precedes(s, desc, r[0] as int, r[1] as int)
            &&& forall|m: int| 0 <= m < 4 && m != r[0] && m != r[1] ==> precedes(s, desc, r[0] as int, m)
                && precedes(s, desc, r[1] as int, m)
        }),
{
    lemma_move_order_moves(v, player);
    let s = move_scores(v, player);
    let desc = player == 0;
    lemma_order_exists(s, desc);
    let a = choose|a: int| is_first(s, desc, a);
    let (a1, b1) = choose|a1: int, b1: int| is_first(s, desc, a1) && is_second(s, desc, a1, b1);
    if a != a1 {
        assert(!precedes(s, desc, a, a1));
        assert(!precedes(s, desc, a1, a));
    }
    let b = choose|b: int| is_second(s, desc, a, b);
    assert(is_first(s, desc, a) && is_second(s, desc, a, b));
    assert(!precedes(s, desc, b, a));
    assert forall|m: int| 0 <= m < 4 && m != a && m != b implies precedes(s, desc, a, m) && precedes(s, desc, b, m) by {
        assert(!precedes(s, desc, m, a));
        assert(!precedes(s, desc, m, b));
    }
}

/// The inputs on which judging snake 1's answer `e` after `w`, playing it and
/// ending the turn stay within the machine's limits.
pub open spec fn reply_ok(w: StateView, e: u8) -> bool {
    &&& bad_move_ok(w, 1, e)
    &&& !bad_move(w, 1, e) ==> {
        &&& make_move_ok(w, (4 + e) as u8)
        &&& make_move_spec(w, (4 + e) as u8).turn < u16::MAX
        &&& state_value_ok(end_turn_spec(make_move_spec(w, (4 + e) as u8)), 0)
    }
}

/// The inputs on which ordering the moves of `player` stays within the
/// machine's limits.
pub open spec fn move_order_ok(v: StateView, player: u8) -> bool {
    &&& player == 0 ==> each_move(
        |m: u8|
            bad_move_ok(v, 0, m) && (!bad_move(v, 0, m) ==> make_move_ok(v, m) && each_move(
                |e: u8| reply_ok(make_move_spec(v, m), e),
            )),
    )
    &&& player == 1 ==> each_move(|m: u8| reply_ok(v, m))
}

/// Returns the two most promising moves of `player` (a single move 0 for
/// any other player).
pub fn get_move_order(state: &State, player: &u8) -> (r: Vec<u8>)
    requires
        move_order_ok(state@, *player),
    ensures
        r@ == move_order_spec(state@, *player),
        r@.len() <= 4,
        forall|k: int| 0 <= k < r@.len() ==> #[trigger] r@[k] < 4,
        *player <= 1 ==> r@.len() == 2 && r@[0] != r@[1],
{
    let ghost v = state@;
    let mut scores: [u32; 4] = [0, 0, 0, 0];
    if *player == 0 {
        for my_move in 0..4u8
            invariant
                v == state@,
                *player == 0,
                move_order_ok(v, 0),
                forall|j: int| 0 <= j < my_move ==> scores@[j] == move_score(v, 0, j as u8),
        {
            let ghost mm = my_move;
            assert(bad_move_ok(v, 0, my_move));
            if is_move_a_bad_one(state, &0, my_move) {
                scores[my_move as usize] = 0;
            } else {
                assert(make_move_ok(v, my_move));
                let mut state_copy = state.clone();
                make_move(&mut state_copy, &(my_move as u8));
                let ghost w = state_copy@;
                assert(each_move(|e: u8| reply_ok(w, e)));

                let mut best_enemy_score: u32 = 0xFFFFFFFF;
                for enemy_move in 0..4u8
                    invariant
                        w == state_copy@,
                        each_move(|e: u8| reply_ok(w, e)),
                        best_enemy_score == worst_reply(w, enemy_move as int),
                {
                    assert(reply_ok(w, enemy_move));
                    if !is_move_a_bad_one(&state_copy, &1, enemy_move) {
                        let mut state_copy_copy = state_copy.clone();
                        make_move(&mut state_copy_copy, &(4 + enemy_move as u8));
                        end_turn(&mut state_copy_copy);
                        let positions_score = state_value(&state_copy_copy, &0);
                        if positions_score < best_enemy_score {
                            best_enemy_score = positions_score;
                        }
                    }
                }
                scores[my_move as usize] = best_enemy_score;
            }
        }
    } else if *player == 1 {
        for my_move in 0..4u8
            invariant
                v == state@,
                *player == 1,
                move_order_ok(v, 1),
                forall|j: int| 0 <= j < my_move ==> scores@[j] == move_score(v, 1, j as u8),
        {
            assert(reply_ok(v, my_move));
            if is_move_a_bad_one(state, &1, my_move) {
                scores[my_move as usize] = 0xFFFFFFFF;
            } else {
                let mut state_copy = state.clone();
                make_move(&mut state_copy, &(4 + my_move as u8));
                end_turn(&mut state_copy);
                scores[my_move as usize] = state_value(&state_copy, &0);
            }
        }
    } else {
        return vec![0];
    }
    assert(scores@ =~= move_scores(v, *player));

    // a stable sort of the moves by score (descending for snake 0, ascending
    // for snake 1), cut to its first two entries
    let desc = *player == 0;
    let mut first: usize = 0;
    for i in 1..4usize
        invariant
            scores@ == move_scores(v, *player),
            first < i,
            forall|j: int| 0 <= j < i && j != first ==> !#[trigger] precedes(scores@, desc, j, first as int),
    {
        let ghost old_first = first;
        if (desc && scores[i] > scores[first]) || (!desc && scores[i] < scores[first]) {
            first = i;
        }
        assert forall|j: int| 0 <= j < i + 1 && j != first implies !#[trigger] precedes(scores@, desc, j, first as int) by {
            if j != old_first && j < i {
                assert(!precedes(scores@, desc, j, old_first as int));
            }
        }
    }
    let mut second: usize = if first == 0 { 1 } else { 0 };
    for i in 0..4usize
        invariant
            scores@ == move_scores(v, *player),
            first < 4,
            second < 4,
            second != first,
            second < i || second == 0 || (second == 1 && first == 0),
            forall|j: int| 0 <= j < i && j != first && j != second ==> !#[trigger] precedes(scores@, desc, j, second as int),
    {
        let ghost old_second = second;
        if i != first && ((desc && scores[i] > scores[second]) || (!desc && scores[i] < scores[second])) {
            second = i;
        }
        assert forall|j: int| 0 <= j < i + 1 && j != first && j != second implies
            !#[trigger] precedes(scores@, desc, j, second as int) by {
            if j != old_second && j < i {
                assert(!precedes(scores@, desc, j, old_second as int));
            }
        }
    }
    proof {
        let s = scores@;
        assert(is_first(s, desc, first as int));
        assert(is_second(s, desc, first as int, second as int));
        let a = choose|a: int| is_first(s, desc, a);
        if a != first as int {
            assert(!precedes(s, desc, a, first as int));
            assert(!precedes(s, desc, first as int, a));
        }
        let b = choose|b: int| is_second(s, desc, a, b);
        lemma_order_unique(s, desc, a, b, first as int, second as int);
    }
    let r = vec![first as u8, second as u8];
    r
}

/// The value that marks a position as already decided: scores below it
/// are raised by the depth at which they are found.
pub open spec fn decided_threshold() -> u32 {
    0x1000_0000
}

/// The value of the search node for `player` to move at `depth` of a search
/// to `max_depth`, with the window `(alpha, beta)`, and the move that reaches
/// it (4 where no move was chosen).
///
/// When `player` passes 1 a new turn begins: the depth grows by one and,
/// except on the very first call, the turn ends, and a decided game is
/// valued at once (`0xFFFF_FFFF` when snake 0 alone lives, 0 or 1 (1 when the
/// heads meet) when snake 1 alone lives, `0x7FFF_FFFF` when none does). At
/// `max_depth` or beyond the position is evaluated. Otherwise the moves are searched
/// in order: all four at depth 0 and 1, the two most promising beyond.
pub open spec fn opps_spec(
    v: StateView,
    depth: u8,
    max_depth: u8,
    player: u8,
    alpha: u32,
    beta: u32,
    first_time: bool,
) -> (u32, u8)
    decreases 3 * (max_depth - depth) + 2 - (if player > 2 { 2int } else { player as int }), 1int, 0int,
{
    let new_turn = player > 1;
    let v1 = if new_turn && !first_time { end_turn_spec(v) } else { v };
    let depth1: int = if new_turn { depth + 1 } else { depth as int };
    let player1 = if new_turn { 0u8 } else { player };
    if new_turn && !first_time && v1.alive[0] && !v1.alive[1] {
        (0xFFFF_FFFF, 4)
    } else if new_turn && !first_time && !v1.alive[0] && v1.alive[1] {
        (if v1.heads[0] == v1.heads[1] { 1u32 } else { 0u32 }, 4)
    } else if new_turn && !first_time && !v1.alive[0] && !v1.alive[1] {
        (0x7FFF_FFFF, 4)
    } else if depth1 >= max_depth {
        (state_value_spec(v1, 0), 4)
    } else {
        let moves = if depth1 > 1 { move_order_spec(v1, player1) } else { seq![0u8, 1, 2, 3] };
        let best = if player1 != 0 { 0xFFFF_FFFFu32 } else { 0u32 };
        search_moves(v1, moves, 0, depth1 as u8, max_depth, player1, alpha, beta, best, 4)
    }
}

/// The score of move `m` of `player` from `v`: the value of the node that
/// follows, raised by `depth` where it lies below `decided_threshold()`.
pub open spec fn child_score(
    v: StateView,
    m: u8,
    depth: u8,
    max_depth: u8,
    player: u8,
    alpha: u32,
    beta: u32,
) -> u32
    decreases 3 * (max_depth - depth) + 2 - player, 0int, 0int,
{
    if !(depth < max_depth && player <= 1) {
        0
    } else {
        let child = make_move_spec(v, (m + player * 4) as u8);
        let raw = opps_spec(child, depth, max_depth, (player + 1) as u8, alpha, beta, false).0;
        if raw < decided_threshold() { (raw + depth) as u32 } else { raw }
    }
}

/// The alpha-beta loop over `moves[k..]`: snake 0 keeps the first move with
/// the highest score and raises `alpha`, snake 1 keeps the first with the
/// lowest and lowers `beta`; the loop stops once `beta <= alpha`.
pub open spec fn search_moves(
    v: StateView,
    moves: Seq<u8>,
    k: int,
    depth: u8,
    max_depth: u8,
    player: u8,
    alpha: u32,
    beta: u32,
    best: u32,
    dir: u8,
) -> (u32, u8)
    decreases 3 * (max_depth - depth) + 2 - player, 0int, moves.len() - k,
{
    if k < 0 || k >= moves.len() || !(depth < max_depth && player <= 1) {
        (best, dir)
    } else {
        let m = moves[k];
        let score = child_score(v, m, depth, max_depth, player, alpha, beta);
        let (best2, dir2) = if player == 0 {
            if score > best { (score, m) } else { (best, dir) }
        } else {
            if score < best { (score, m) } else { (best, dir) }
        };
        let alpha2 = if player == 0 && best2 > alpha { best2 } else { alpha };
        let beta2 = if player != 0 && best2 < beta { best2 } else { beta };
        if beta2 <= alpha2 {
            (best2, dir2)
        } else {
            search_moves(v, moves, k + 1, depth, max_depth, player, alpha2, beta2, best2, dir2)
        }
    }
}

/// The move the alpha-beta loop keeps is one of the moves it searched, or
/// `dir` where it kept none.
pub proof fn lemma_search_moves_direction(
    v: StateView,
    moves: Seq<u8>,
    k: int,
    depth: u8,
    max_depth: u8,
    player: u8,
    alpha: u32,
    beta: u32,
    best: u32,
    dir: u8,
)
    ensures
        ({
            let d = search_moves(v, moves, k, depth, max_depth, player, alpha, beta, best, dir).1;
            d == dir || exists|j: int| 0 <= k <= j < moves.len() && d == moves[j]
        }),
    decreases moves.len() - k,
{
    if !(k < 0 || k >= moves.len() || !(depth < max_depth && player <= 1)) {
        let m = moves[k];
        let score = child_score(v, m, depth, max_depth, player, alpha, beta);
        let (best2, dir2) = if player == 0 {
            if score > best { (score, m) } else { (best, dir) }
        } else {
            if score < best { (score, m) } else { (best, dir) }
        };
        let alpha2 = if player == 0 && best2 > alpha { best2 } else { alpha };
        let beta2 = if player != 0 && best2 < beta { best2 } else { beta };
        if beta2 > alpha2 {
            lemma_search_moves_direction(v, moves, k + 1, depth, max_depth, player, alpha2, beta2, best2, dir2);
            let d = search_moves(v, moves, k + 1, depth, max_depth, player, alpha2, beta2, best2, dir2).1;
            if d != dir2 {
                let j = choose|j: int| 0 <= k + 1 <= j < moves.len() && d == moves[j];
                assert(0 <= k <= j < moves.len() && d == moves[j]);
            }
        }
    }
}

/// The move a search node chooses is 4 (none) or one of the moves it
/// searched: any direction at depth 0 and 1, one of the two ordered moves
/// beyond.
pub proof fn lemma_node_direction(
    v: StateView,
    depth: u8,
    max_depth: u8,
    player: u8,
    alpha: u32,
    beta: u32,
    first_time: bool,
)
    requires
        player <= 1,
        depth < max_depth,
    ensures
        ({
            let d = opps_spec(v, depth, max_depth, player, alpha, beta, first_time).1;
            d == 4 || (if depth <= 1 { d < 4 } else { move_order_spec(v, player).contains(d) })
        }),
{
    let moves = if depth > 1 { move_order_spec(v, player) } else { seq![0u8, 1, 2, 3] };
    let best = if player != 0 { 0xFFFF_FFFFu32 } else { 0u32 };
    lemma_search_moves_direction(v, moves, 0, depth, max_depth, player, alpha, beta, best, 4);
    let d = opps_spec(v, depth, max_depth, player, alpha, beta, first_time).1;
    if d != 4 {
        let j = choose|j: int| 0 <= j < moves.len() && d == moves[j];
        assert(moves[j] == d);
    }
}

/// Every snake alive has its head on the board and the lengths add up
/// within a byte: the position can be evaluated.
pub proof fn lemma_state_value_ok(v: StateView)
    requires
        v.wf(),
        forall|i: int| 0 <= i < 2 && #[trigger] v.alive[i] ==> on_board(v.heads[i]),
        v.lengths[0] + v.lengths[1] <= 255,
    ensures
        state_value_ok(v, 0),
{
}

/// Judging, playing and evaluating snake 1's answer `e` is safe where snake 1
/// lives with its head on the board, health left and length at most 126,
/// the lengths add up to at most 254 and the turn counter has room.
proof fn lemma_reply_ok(w: StateView, e: u8)
    requires
        w.wf(),
        w.alive[1],
        on_board(w.heads[1]),
        w.healths[1] >= 1,
        w.lengths[1] <= 126,
        w.lengths[0] + w.lengths[1] <= 254,
        w.turn < u16::MAX,
        e < 4,
    ensures
        reply_ok(w, e),
{
    let m = (4 + e) as u8;
    assert(mover(m) == 1);
    if !bad_move(w, 1, e) {
        lemma_make_move_frame(w, m);
        let u = make_move_spec(w, m);
        lemma_end_turn_outcome(u);
        let t = end_turn_spec(u);
        assert forall|i: int| 0 <= i < 2 && #[trigger] t.alive[i] implies on_board(t.heads[i]) by {}
        lemma_state_value_ok(t);
    }
}

/// Judging and playing move `m` of snake 0 and the answers to it is safe
/// where both snakes live with their heads on the board and health left,
/// snake 1 is at most 126 long, the lengths add up to at most 253, and the
/// turn counter has room.
proof fn lemma_own_move_ok(v: StateView, m: u8)
    requires
        v.wf(),
        v.alive[0],
        v.alive[1],
        forall|i: int| 0 <= i < 2 ==> on_board(#[trigger] v.heads[i]) && v.healths[i] >= 1,
        v.lengths[1] <= 126,
        v.lengths[0] + v.lengths[1] <= 253,
        v.turn < u16::MAX,
        m < 4,
    ensures
        bad_move_ok(v, 0, m),
        !bad_move(v, 0, m) ==> make_move_ok(v, m) && each_move(|e: u8| reply_ok(make_move_spec(v, m), e)),
{
    assert(mover(m) == 0);
    assert(on_board(v.heads[0]));
    assert(on_board(v.heads[1]));
    if !bad_move(v, 0, m) {
        lemma_make_move_frame(v, m);
        let w = make_move_spec(v, m);
        lemma_reply_ok(w, 0);
        lemma_reply_ok(w, 1);
        lemma_reply_ok(w, 2);
        lemma_reply_ok(w, 3);
    }
}

/// The snakes from `player` on live with their heads on the board and health
/// left, snake 1 is at most 126 long, the lengths leave room for one move of
/// each snake still to move (they add up to at most 253 when snake 0 orders,
/// 254 when snake 1 does), and the turn counter has room: the moves of
/// `player` can be ordered.
proof fn lemma_move_order_ok(v: StateView, player: u8)
    requires
        v.wf(),
        player <= 1,
        player == 0 ==> v.alive[0] && on_board(v.heads[0]) && v.healths[0] >= 1,
        v.alive[1] && on_board(v.heads[1]) && v.healths[1] >= 1,
        v.lengths[1] <= 126,
        v.lengths[0] + v.lengths[1] + 1 - player <= 254,
        v.turn < u16::MAX,
    ensures
        move_order_ok(v, player),
{
    if player == 0 {
        assert(v.alive[0] && v.alive[1]);
        assert(on_board(v.heads[0]) && on_board(v.heads[1]));
        lemma_own_move_ok(v, 0);
        lemma_own_move_ok(v, 1);
        lemma_own_move_ok(v, 2);
        lemma_own_move_ok(v, 3);
    } else {
        assert(v.alive[1]);
        lemma_reply_ok(v, 0);
        lemma_reply_ok(v, 1);
        lemma_reply_ok(v, 2);
        lemma_reply_ok(v, 3);
    }
}

/// The inputs on which the search node runs within the machine's limits:
/// the depth can grow by one where a turn begins; the turn counter can
/// advance where a turn ends; a decided game needs nothing more; a leaf can be evaluated; beyond
/// depth 1 the moves can be ordered; and every move searched (up to the
/// cut-off) can be played and its node searched.
pub open spec fn opps_safe(
    v: StateView,
    depth: u8,
    max_depth: u8,
    player: u8,
    alpha: u32,
    beta: u32,
    first_time: bool,
) -> bool
    decreases 3 * (max_depth - depth) + 2 - (if player > 2 { 2int } else { player as int }), 1int, 0int,
{
    let new_turn = player > 1;
    let v1 = if new_turn && !first_time { end_turn_spec(v) } else { v };
    let depth1: int = if new_turn { depth + 1 } else { depth as int };
    let player1 = if new_turn { 0u8 } else { player };
    &&& v.wf()
    &&& (new_turn ==> depth < 255)
    &&& (new_turn && !first_time ==> v.turn < u16::MAX)
    &&& if new_turn && !first_time && (!v1.alive[0] || !v1.alive[1]) {
        true
    } else if depth1 >= max_depth {
        state_value_ok(v1, 0)
    } else {
        let moves = if depth1 > 1 { move_order_spec(v1, player1) } else { seq![0u8, 1, 2, 3] };
        let best = if player1 != 0 { 0xFFFF_FFFFu32 } else { 0u32 };
        &&& (depth1 > 1 ==> move_order_ok(v1, player1))
        &&& safe_moves(v1, moves, 0, depth1 as u8, max_depth, player1, alpha, beta, best, 4)
    }
}

/// Whether the moves `moves[k..]` searched by the alpha-beta loop (up to its
/// cut-off) can be played and their nodes searched within the machine's
/// limits.
pub open spec fn safe_moves(
    v: StateView,
    moves: Seq<u8>,
    k: int,
    depth: u8,
    max_depth: u8,
    player: u8,
    alpha: u32,
    beta: u32,
    best: u32,
    dir: u8,
) -> bool
    decreases 3 * (max_depth - depth) + 2 - player, 0int, moves.len() - k,
{
    if k < 0 || k >= moves.len() || !(depth < max_depth && player <= 1) {
        true
    } else {
        let m = moves[k];
        let mv = (m + player * 4) as u8;
        let score = child_score(v, m, depth, max_depth, player, alpha, beta);
        let (best2, dir2) = if player == 0 {
            if score > best { (score, m) } else { (best, dir) }
        } else {
            if score < best { (score, m) } else { (best, dir) }
        };
        let alpha2 = if player == 0 && best2 > alpha { best2 } else { alpha };
        let beta2 = if player != 0 && best2 < beta { best2 } else { beta };
        &&& make_move_ok(v, mv)
        &&& opps_safe(make_move_spec(v, mv), depth, max_depth, (player + 1) as u8, alpha, beta, false)
        &&& (beta2 <= alpha2 || safe_moves(v, moves, k + 1, depth, max_depth, player, alpha2, beta2, best2, dir2))
    }
}

/// Some move comes first in the order and some second.
pub proof fn lemma_order_exists(s: Seq<u32>, desc: bool)
    requires
        s.len() == 4,
    ensures
        exists|a: int, b: int| is_first(s, desc, a) && is_second(s, desc, a, b),
{
    let a01: int = if precedes(s, desc, 1, 0) { 1 } else { 0 };
    let a012: int = if precedes(s, desc, 2, a01) { 2 } else { a01 };
    let a: int = if precedes(s, desc, 3, a012) { 3 } else { a012 };
    assert(is_first(s, desc, a));
    let c0: int = if a == 0 { 1 } else { 0 };
    let c1: int = if a != 1 && c0 != 1 && precedes(s, desc, 1, c0) { 1 } else { c0 };
    let c2: int = if a != 2 && c1 != 2 && precedes(s, desc, 2, c1) { 2 } else { c1 };
    let b: int = if a != 3 && c2 != 3 && precedes(s, desc, 3, c2) { 3 } else { c2 };
    assert(is_second(s, desc, a, b));
}

/// The ordered moves are two distinct directions for snake 0 or 1, and the
/// single move 0 otherwise.
pub proof fn lemma_move_order_moves(v: StateView, player: u8)
    ensures
        player <= 1 ==> move_order_spec(v, player).len() == 2 && move_order_spec(v, player)[0] < 4
            && move_order_spec(v, player)[1] < 4 && move_order_spec(v, player)[0] != move_order_spec(v, player)[1],
        player > 1 ==> move_order_spec(v, player) == seq![0u8],
{
    if player <= 1 {
        let s = move_scores(v, player);
        let desc = player == 0;
        lemma_order_exists(s, desc);
        let a = choose|a: int| is_first(s, desc, a);
        let (a1, b1) = choose|a1: int, b1: int| is_first(s, desc, a1) && is_second(s, desc, a1, b1);
        if a != a1 {
            assert(!precedes(s, desc, a, a1));
            assert(!precedes(s, desc, a1, a));
        }
        let b = choose|b: int| is_second(s, desc, a, b);
    }
}

/// The length snake `i` may reach by the end of a search to `max_depth`
/// from a node at `depth` where `player` is to move: one more for every move
/// still to come (one less for a snake that has moved this turn).
pub open spec fn grown(v: StateView, i: int, depth: u8, max_depth: u8, player: u8) -> int {
    v.lengths[i] + (max_depth - depth) - (if i < player { 1int } else { 0 })
}

/// The inputs on which the search node stays within the machine's limits:
/// the node lies before `max_depth`; the lengths the snakes may reach
/// (`grown`), plus one move looked ahead, leave snake 1's neck code within a
/// byte and add up within a byte; the turn counter leaves room for every turn still to
/// end; the snakes still to move this turn that live have their heads on the
/// board and health left; and past the first turn they do live.
pub open spec fn search_ok(v: StateView, depth: u8, max_depth: u8, player: u8, first_time: bool) -> bool {
    &&& v.wf()
    &&& depth < max_depth
    &&& player <= 2
    &&& (first_time ==> player == 0)
    &&& v.turn + (max_depth - depth) + 1 <= u16::MAX
    &&& grown(v, 1, depth, max_depth, player) + 1 <= 127
    &&& grown(v, 0, depth, max_depth, player) + grown(v, 1, depth, max_depth, player) + 2 <= 255
    &&& forall|i: int| player <= i < 2 && #[trigger] v.alive[i] ==> on_board(v.heads[i]) && v.healths[i] >= 1
    &&& depth >= 1 ==> forall|i: int| player <= i < 2 ==> #[trigger] v.alive[i]
}

/// A search node whose lengths and turn counter leave room for every move and
/// turn still to come (see `search_ok`) runs within the machine's limits,
/// whatever its window.
pub proof fn lemma_search_ok_is_safe(
    v: StateView,
    depth: u8,
    max_depth: u8,
    player: u8,
    alpha: u32,
    beta: u32,
    first_time: bool,
)
    requires
        search_ok(v, depth, max_depth, player, first_time),
    ensures
        opps_safe(v, depth, max_depth, player, alpha, beta, first_time),
    decreases 3 * (max_depth - depth) + 2 - (if player > 2 { 2int } else { player as int }), 1int, 0int,
{
    let new_turn = player > 1;
    let v1 = if new_turn && !first_time { end_turn_spec(v) } else { v };
    let depth1 = if new_turn { (depth + 1) as u8 } else { depth };
    let player1 = if new_turn { 0u8 } else { player };
    if new_turn && !first_time {
        lemma_end_turn_outcome(v);
    }
    if new_turn && !first_time && (!v1.alive[0] || !v1.alive[1]) {
    } else if depth1 >= max_depth {
        assert forall|i: int| 0 <= i < 2 && #[trigger] v1.alive[i] implies on_board(v1.heads[i]) by {}
        assert(v1.lengths[0] <= v.lengths[0] && v1.lengths[1] <= v.lengths[1]);
        lemma_state_value_ok(v1);
    } else {
        let moves = if depth1 > 1 { move_order_spec(v1, player1) } else { seq![0u8, 1, 2, 3] };
        let best = if player1 != 0 { 0xFFFF_FFFFu32 } else { 0u32 };
        assert(v1.lengths[0] <= v.lengths[0] && v1.lengths[1] <= v.lengths[1]);
        assert(grown(v1, 0, depth1, max_depth, player1) <= grown(v, 0, depth, max_depth, player));
        assert(grown(v1, 1, depth1, max_depth, player1) <= grown(v, 1, depth, max_depth, player));
        assert(search_ok(v1, depth1, max_depth, player1, false));
        if depth1 > 1 {
            assert(v1.alive[1]);
            assert(player1 == 0 ==> v1.alive[0]);
            lemma_move_order_ok(v1, player1);
            lemma_move_order_moves(v1, player1);
        }
        assert(forall|j: int| 0 <= j < moves.len() ==> #[trigger] moves[j] < 4);
        lemma_safe_moves_from(v1, moves, 0, depth1, max_depth, player1, alpha, beta, best, 4);
    }
}

/// The alpha-beta loop of a node that satisfies `search_ok` runs within the
/// machine's limits.
proof fn lemma_safe_moves_from(
    v: StateView,
    moves: Seq<u8>,
    k: int,
    depth: u8,
    max_depth: u8,
    player: u8,
    a: u32,
    b: u32,
    best: u32,
    dir: u8,
)
    requires
        search_ok(v, depth, max_depth, player, false),
        player <= 1,
        forall|j: int| 0 <= j < moves.len() ==> #[trigger] moves[j] < 4,
    ensures
        safe_moves(v, moves, k, depth, max_depth, player, a, b, best, dir),
    decreases 3 * (max_depth - depth) + 2 - player, 0int, moves.len() - k,
{
    if !(k < 0 || k >= moves.len()) {
        let m = moves[k];
        let mv = (m + player * 4) as u8;
        assert(mover(mv) == player);
        lemma_make_move_frame(v, mv);
        let c = make_move_spec(v, mv);
        assert forall|i: int| (player + 1) as u8 <= i < 2 && #[trigger] c.alive[i] implies
            on_board(c.heads[i]) && c.healths[i] >= 1 by {}
        assert(grown(c, 0, depth, max_depth, (player + 1) as u8) <= grown(v, 0, depth, max_depth, player));
        assert(grown(c, 1, depth, max_depth, (player + 1) as u8) <= grown(v, 1, depth, max_depth, player));
        assert(search_ok(c, depth, max_depth, (player + 1) as u8, false));
        lemma_search_ok_is_safe(c, depth, max_depth, (player + 1) as u8, a, b, false);
        let score = child_score(v, m, depth, max_depth, player, a, b);
        let (best2, dir2) = if player == 0 {
            if score > best { (score, m) } else { (best, dir) }
        } else {
            if score < best { (score, m) } else { (best, dir) }
        };
        let alpha2 = if player == 0 && best2 > a { best2 } else { a };
        let beta2 = if player != 0 && best2 < b { best2 } else { b };
        lemma_safe_moves_from(v, moves, k + 1, depth, max_depth, player, alpha2, beta2, best2, dir2);
    }
}

/// The minimax search with alpha-beta pruning: returns the value of the node
/// for `player` to move at `depth` (of `max_depth`), and the move that
/// reaches it.
pub fn opps(
    state: State,
    depth: u8,
    max_depth: u8,
    player: u8,
    alpha: u32,
    beta: u32,
    first_time: bool,
    start_time: Instant,
) -> (r: (u32, u8))
    requires
        opps_safe(state@, depth, max_depth, player, alpha, beta, first_time),
    ensures
        r == opps_spec(state@, depth, max_depth, player, alpha, beta, first_time),
    decreases 3 * (max_depth - depth) + 2 - (if player > 2 { 2int } else { player as int }),
{
    let ghost v = state@;
    let ghost d0 = depth;
    let ghost p0 = player;
    let mut state = state;
    let mut cur_depth = depth;
    let mut cur_player = player;
    let mut alpha = alpha;
    let mut beta = beta;
    proof { lemma_view_wf(state); }

    // a new turn begins
    if cur_player > 1 {
        cur_player = 0;
        cur_depth += 1;
        if !first_time {
            end_turn(&mut state);

            if state.are_snakes_alive[0] && !state.are_snakes_alive[1] {
                return (0xFFFFFFFF, 4);
            }
            if !state.are_snakes_alive[0] && state.are_snakes_alive[1] {
                let heads_meet = state.snake_heads[0].0 == state.snake_heads[1].0
                    && state.snake_heads[0].1 == state.snake_heads[1].1;
                return (0 + if heads_meet { 1u32 } else { 0u32 }, 4);
            }
            if !state.are_snakes_alive[0] && !state.are_snakes_alive[1] {
                return (0x7FFFFFFF, 4);
            }
        }
    }
    let ghost v1 = state@;

    // a leaf is evaluated
    if cur_depth >= max_depth {
        let value = state_value(&state, &0);
        return (value, 4);
    }

    // the alpha-beta loop over the moves
    let mut best_move_score: u32 = 0;
    if cur_player != 0 {
        best_move_score = 0xFFFFFFFF;
    }
    let mut best_move_direction: u8 = 4;

    let mut move_order: Vec<u8> = vec![0, 1, 2, 3];
    if cur_depth > 1 {
        move_order = get_move_order(&state, &cur_player);
    }
    let ghost moves = move_order@;
    let ghost total = search_moves(v1, moves, 0, cur_depth, max_depth, cur_player, alpha, beta, best_move_score, 4);
    assert(total == opps_spec(v, d0, max_depth, p0, alpha, beta, first_time));
    assert(forall|k: int| 0 <= k < moves.len() ==> #[trigger] moves[k] < 4);

    let mut k: usize = 0;
    while k < move_order.len()
        invariant_except_break
            total == search_moves(v1, moves, k as int, cur_depth, max_depth, cur_player, alpha, beta, best_move_score,
                best_move_direction),
            safe_moves(v1, moves, k as int, cur_depth, max_depth, cur_player, alpha, beta, best_move_score,
                best_move_direction),
        invariant
            v1 == state@,
            moves == move_order@,
            forall|j: int| 0 <= j < moves.len() ==> #[trigger] moves[j] < 4,
            k <= moves.len(),
            cur_depth < max_depth,
            cur_player <= 1,
            d0 == depth,
            p0 == player,
            (p0 <= 1 && cur_depth == d0 && cur_player == p0) || (p0 >= 2 && cur_depth == d0 + 1 && cur_player == 0),
        ensures
            total == (best_move_score, best_move_direction),
        decreases move_order.len() - k,
    {
        let move_direction = move_order[k];
        let mut state_copy = state.clone();
        assert((cur_player << 2) == cur_player * 4) by (bit_vector) requires cur_player <= 1;
        let move_struct = move_direction + (cur_player << 2);
        make_move(&mut state_copy, &move_struct);
        assert(3 * (max_depth - cur_depth) + 2 - (cur_player + 1) < 3 * (max_depth - d0) + 2 - (if p0 > 2 { 2int } else { p0 as int }));
        let ghost alpha_before = alpha;
        let ghost beta_before = beta;
        let mut score = opps(state_copy.clone(), cur_depth, max_depth, cur_player + 1, alpha, beta, false, start_time).0;

        if score < 0x10000000 {
            score += cur_depth as u32
        }
        assert(score == child_score(v1, move_direction, cur_depth, max_depth, cur_player, alpha_before, beta_before));
        if cur_player == 0 {
            if score > best_move_score {
                best_move_score = score;
                best_move_direction = move_direction;
            }
            alpha = if best_move_score > alpha { best_move_score } else { alpha };
        } else {
            if score < best_move_score {
                best_move_score = score;
                best_move_direction = move_direction;
            }
            beta = if best_move_score < beta { best_move_score } else { beta };
        }
        k += 1;

        // cut-off
        if beta <= alpha {
            break;
        }
    }

    (best_move_score, best_move_direction)
}

/// The deepest search `minimax` starts.
pub open spec fn deepest_search() -> u8 {
    51
}

/// The positions the iterative deepening can search to the deepest level
/// without leaving the machine's limits: the snakes that live have their
/// heads on the board and health left, the lengths leave room for growing
/// on every turn searched (snake 1's neck code within a byte, the sum of the
/// lengths within a byte), and the turn counter for every turn ended.
pub open spec fn minimax_ok(v: StateView) -> bool {
    &&& v.wf()
    &&& v.turn + deepest_search() + 1 <= u16::MAX
    &&& v.lengths[1] + deepest_search() + 1 <= 127
    &&& v.lengths[0] + v.lengths[1] + 2 * deepest_search() + 2 <= 255
    &&& forall|i: int| 0 <= i < 2 && #[trigger] v.alive[i] ==> on_board(v.heads[i]) && v.healths[i] >= 1
}

/// The positions every search `minimax` may start (to any depth from 1 to
/// `deepest_search()`, as the clock decides) runs within the machine's limits.
pub open spec fn minimax_safe(v: StateView) -> bool {
    forall|d: u8| 1 <= d <= deepest_search() ==> #[trigger] opps_safe(v, 0, d, 0, 0, 0xFFFF_FFFF, true)
}

/// Room enough in the lengths and the turn counter (`minimax_ok`) makes
/// every search `minimax` may start run within the machine's limits.
pub proof fn lemma_minimax_ok_is_safe(v: StateView)
    requires
        minimax_ok(v),
    ensures
        minimax_safe(v),
{
    assert forall|d: u8| 1 <= d <= deepest_search() implies #[trigger] opps_safe(v, 0, d, 0, 0, 0xFFFF_FFFF, true) by {
        assert(search_ok(v, 0, d, 0, true));
        lemma_search_ok_is_safe(v, 0, d, 0, 0, 0xFFFF_FFFF, true);
    }
}

/// The positions with at most one snake alive that the search can start
/// from: the turn counter can advance once, and a snake alive has its head on
/// the board, health left and a length whose neck code fits a byte with room
/// to grow by one. (After one turn such a search is decided.)
pub open spec fn lone_ok(v: StateView) -> bool {
    &&& v.wf()
    &&& !(v.alive[0] && v.alive[1])
    &&& v.turn < u16::MAX
    &&& forall|i: int| 0 <= i < 2 && #[trigger] v.alive[i] ==> {
        &&& on_board(v.heads[i])
        &&& v.healths[i] >= 1
        &&& v.lengths[i] + 128 * i <= 254
    }
}

/// The answers of snake 1 in a position with at most one snake alive run
/// within the machine's limits: its moves (if alive) can be played, and the
/// turn then ends decided.
proof fn lemma_lone_replies_safe(
    v: StateView,
    moves: Seq<u8>,
    k: int,
    d: u8,
    a: u32,
    b: u32,
    best: u32,
    dir: u8,
)
    requires
        1 <= d,
        v.wf(),
        !(v.alive[0] && v.alive[1]),
        v.turn < u16::MAX,
        v.alive[1] ==> on_board(v.heads[1]) && v.healths[1] >= 1 && v.lengths[1] <= 126,
        forall|j: int| 0 <= j < moves.len() ==> #[trigger] moves[j] < 4,
    ensures
        safe_moves(v, moves, k, 0, d, 1, a, b, best, dir),
    decreases moves.len() - k,
{
    if !(k < 0 || k >= moves.len()) {
        let m = moves[k];
        let mv = (m + 4) as u8;
        assert(mover(mv) == 1);
        if v.alive[1] {
            lemma_make_move_frame(v, mv);
        } else {
            lemma_dead_snake_stays(v, mv);
        }
        let c = make_move_spec(v, mv);
        lemma_end_turn_outcome(c);
        let c1 = end_turn_spec(c);
        assert(!(c1.alive[0] && c1.alive[1]));
        assert(opps_safe(c, 0, d, 2, a, b, false));
        let score = child_score(v, m, 0, d, 1, a, b);
        let (best2, dir2) = if score < best { (score, m) } else { (best, dir) };
        let beta2 = if best2 < b { best2 } else { b };
        lemma_lone_replies_safe(v, moves, k + 1, d, a, beta2, best2, dir2);
    }
}

/// The moves of snake 0 in a position with at most one snake alive (see
/// `lone_ok`) run within the machine's limits.
proof fn lemma_lone_moves_safe(v: StateView, moves: Seq<u8>, k: int, d: u8, a: u32, b: u32, best: u32, dir: u8)
    requires
        1 <= d,
        lone_ok(v),
        forall|j: int| 0 <= j < moves.len() ==> #[trigger] moves[j] < 4,
    ensures
        safe_moves(v, moves, k, 0, d, 0, a, b, best, dir),
    decreases moves.len() - k,
{
    if !(k < 0 || k >= moves.len()) {
        let m = moves[k];
        assert(mover(m) == 0);
        assert(v.alive[0] ==> on_board(v.heads[0]) && v.healths[0] >= 1 && v.lengths[0] <= 254);
        assert(v.alive[1] ==> on_board(v.heads[1]) && v.healths[1] >= 1 && v.lengths[1] <= 126);
        if v.alive[0] {
            lemma_make_move_frame(v, m);
        } else {
            lemma_dead_snake_stays(v, m);
        }
        let c = make_move_spec(v, m);
        let all = seq![0u8, 1, 2, 3];
        lemma_lone_replies_safe(c, all, 0, d, a, b, 0xFFFF_FFFF, 4);
        assert(opps_safe(c, 0, d, 1, a, b, false));
        let score = child_score(v, m, 0, d, 0, a, b);
        let (best2, dir2) = if score > best { (score, m) } else { (best, dir) };
        let alpha2 = if best2 > a { best2 } else { a };
        lemma_lone_moves_safe(v, moves, k + 1, d, alpha2, b, best2, dir2);
    }
}

/// A position with at most one snake alive that satisfies `lone_ok` can be
/// searched to every depth `minimax` may reach.
pub proof fn lemma_lone_is_safe(v: StateView)
    requires
        lone_ok(v),
    ensures
        minimax_safe(v),
{
    assert forall|d: u8| 1 <= d <= deepest_search() implies #[trigger] opps_safe(v, 0, d, 0, 0, 0xFFFF_FFFF, true) by {
        lemma_lone_moves_safe(v, seq![0u8, 1, 2, 3], 0, d, 0, 0xFFFF_FFFF, 0, 4);
    }
}

/// The move chosen by a search to depth `d`.
pub open spec fn best_move_at(v: StateView, d: u8) -> u8 {
    opps_spec(v, 0, d, 0, 0, 0xFFFF_FFFF, true).1
}

/// Whether the iterative deepening stops after the search to `depth`, with
/// `elapsed_ms` milliseconds gone since it began: after 30 milliseconds, or
/// once depth 51 is done.
pub fn deepening_done(elapsed_ms: u128, depth: u8) -> (r: bool)
    ensures
        r == (elapsed_ms > 30 || depth > 50),
{
    elapsed_ms > 30 || depth > 50
}

/// Searches ever deeper (depth 1, 2, ...) until 30 milliseconds have passed
/// or depth 51 is done, and returns the move found by the last search
/// (0 up, 1 down, 2 left, 3 right, 4 where no move was chosen).
pub fn minimax(state: State) -> (r: u8)
    requires
        minimax_safe(state@),
    ensures
        exists|d: u8| 1 <= d <= deepest_search() && r == best_move_at(state@, d),
        r <= 4,
{
    let start_time = instant_now();

    let mut depth: u8 = 0;
    let mut best_move: (u32, u8) = (0x7FFFFFFF, 0);

    loop
        invariant_except_break
            depth <= 50,
        invariant
            minimax_safe(state@),
            depth >= 1 ==> best_move.1 == best_move_at(state@, depth),
        ensures
            1 <= depth <= 51,
            best_move.1 == best_move_at(state@, depth),
        decreases 51 - depth,
    {
        depth += 1;
        assert(opps_safe(state@, 0, depth, 0, 0, 0xFFFF_FFFF, true));
        best_move = opps(state.clone(), 0, depth, 0, 0, 0xFFFFFFFF, true, start_time);
        if deepening_done(as_millis(time_between(instant_now(), start_time)), depth) {
            break;
        }
    }
    proof { lemma_node_direction(state@, 0, depth, 0, 0, 0xFFFF_FFFF, true); }
    best_move.1
}

/// Checks at run time that the position leaves room for the deepest search
/// (`minimax_ok` where both snakes live, `lone_ok` where at most one does)
/// and searches it; `None` where it does not.
pub fn checked_minimax(state: State) -> (r: Option<u8>)
    ensures
        r is Some <==> minimax_ok(state@) || lone_ok(state@),
        r matches Some(m) ==> m <= 4 && exists|d: u8| 1 <= d <= deepest_search() && m == best_move_at(state@, d),
{
    proof { lemma_view_wf(state); }
    let both = state.are_snakes_alive[0] && state.are_snakes_alive[1];
    if both {
        if state.turn > 65535 - 52 || state.snake_lengths[1] > 127 - 52
            || state.snake_lengths[0] as u16 + state.snake_lengths[1] as u16 > 255 - 104
        {
            return None;
        }
    } else if state.turn == 65535 {
        return None;
    }
    for i in 0..2usize
        invariant
            both == (state@.alive[0] && state@.alive[1]),
            forall|j: int| 0 <= j < i && #[trigger] state@.alive[j] ==> on_board(state@.heads[j]) && state@.healths[j] >= 1
                && (!both ==> state@.lengths[j] + 128 * j <= 254),
    {
        if state.are_snakes_alive[i] {
            let h = state.snake_heads[i];
            if h.0 >= SIZE as u8 || h.1 >= SIZE as u8 || state.snake_healths[i] < 1 {
                return None;
            }
            if !both && state.snake_lengths[i] as u16 + 128 * i as u16 > 254 {
                return None;
            }
        }
    }
    proof {
        if both {
            lemma_minimax_ok_is_safe(state@);
        } else {
            lemma_lone_is_safe(state@);
        }
    }
    Some(minimax(state))
}

/// The plain minimax value of the same search tree as `opps_spec` (same
/// turns, terminal values, leaf evaluations, move lists and depth bonus),
/// without pruning: snake 0 takes the highest child score, snake 1 the
/// lowest.
pub open spec fn minimax_value(v: StateView, depth: u8, max_depth: u8, player: u8, first_time: bool) -> u32
    decreases 3 * (max_depth - depth) + 2 - (if player > 2 { 2int } else { player as int }), 1int, 0int,
{
    let new_turn = player > 1;
    let v1 = if new_turn && !first_time { end_turn_spec(v) } else { v };
    let depth1: int = if new_turn { depth + 1 } else { depth as int };
    let player1 = if new_turn { 0u8 } else { player };
    if new_turn && !first_time && v1.alive[0] && !v1.alive[1] {
        0xFFFF_FFFF
    } else if new_turn && !first_time && !v1.alive[0] && v1.alive[1] {
        if v1.heads[0] == v1.heads[1] { 1u32 } else { 0u32 }
    } else if new_turn && !first_time && !v1.alive[0] && !v1.alive[1] {
        0x7FFF_FFFF
    } else if depth1 >= max_depth {
        state_value_spec(v1, 0)
    } else {
        let moves = if depth1 > 1 { move_order_spec(v1, player1) } else { seq![0u8, 1, 2, 3] };
        let best = if player1 != 0 { 0xFFFF_FFFFu32 } else { 0u32 };
        minimax_fold(v1, moves, 0, depth1 as u8, max_depth, player1, best)
    }
}

/// The minimax score of move `m`: the child's minimax value, raised by
/// `depth` where it lies below `decided_threshold()`.
pub open spec fn minimax_child(v: StateView, m: u8, depth: u8, max_depth: u8, player: u8) -> u32
    decreases 3 * (max_depth - depth) + 2 - player, 0int, 0int,
{
    if !(depth < max_depth && player <= 1) {
        0
    } else {
        let raw = minimax_value(make_move_spec(v, (m + player * 4) as u8), depth, max_depth, (player + 1) as u8, false);
        if raw < decided_threshold() { (raw + depth) as u32 } else { raw }
    }
}

/// The best of `best` and the minimax scores of `moves[k..]` (highest for
/// snake 0, lowest for snake 1).
pub open spec fn minimax_fold(
    v: StateView,
    moves: Seq<u8>,
    k: int,
    depth: u8,
    max_depth: u8,
    player: u8,
    best: u32,
) -> u32
    decreases 3 * (max_depth - depth) + 2 - player, 0int, moves.len() - k,
{
    if k < 0 || k >= moves.len() || !(depth < max_depth && player <= 1) {
        best
    } else {
        let score = minimax_child(v, moves[k], depth, max_depth, player);
        let best2 = if player == 0 {
            if score > best { score } else { best }
        } else {
            if score < best { score } else { best }
        };
        minimax_fold(v, moves, k + 1, depth, max_depth, player, best2)
    }
}

/// Whether no line of the search tree ends in a position valued below
/// `decided_threshold()`, that is, with snake 0 dead and snake 1 alive (or
/// with a position evaluated as low).
pub open spec fn no_loss(v: StateView, depth: u8, max_depth: u8, player: u8, first_time: bool) -> bool
    decreases 3 * (max_depth - depth) + 2 - (if player > 2 { 2int } else { player as int }), 1int, 0int,
{
    let new_turn = player > 1;
    let v1 = if new_turn && !first_time { end_turn_spec(v) } else { v };
    let depth1: int = if new_turn { depth + 1 } else { depth as int };
    let player1 = if new_turn { 0u8 } else { player };
    if new_turn && !first_time && v1.alive[0] && !v1.alive[1] {
        true
    } else if new_turn && !first_time && !v1.alive[0] && v1.alive[1] {
        false
    } else if new_turn && !first_time && !v1.alive[0] && !v1.alive[1] {
        true
    } else if depth1 >= max_depth {
        state_value_spec(v1, 0) >= decided_threshold()
    } else {
        let moves = if depth1 > 1 { move_order_spec(v1, player1) } else { seq![0u8, 1, 2, 3] };
        children_no_loss(v1, moves, 0, depth1 as u8, max_depth, player1)
    }
}

/// Whether no line below the moves `moves[k..]` ends in a loss.
pub open spec fn children_no_loss(v: StateView, moves: Seq<u8>, k: int, depth: u8, max_depth: u8, player: u8) -> bool
    decreases 3 * (max_depth - depth) + 2 - player, 0int, moves.len() - k,
{
    if k < 0 || k >= moves.len() || !(depth < max_depth && player <= 1) {
        true
    } else {
        no_loss(make_move_spec(v, (moves[k] + player * 4) as u8), depth, max_depth, (player + 1) as u8, false)
            && children_no_loss(v, moves, k + 1, depth, max_depth, player)
    }
}

/// Alpha-beta pruning only skips lines that cannot change the result,
/// wherever the depth bonus cannot reorder scores: where no line of the tree
/// ends in a loss for snake 0 (so no bonus applies), or where the search is
/// one turn deep (so every bonus is 0). There the value `opps_spec` returns
/// for a window `alpha < beta` is the minimax value whenever it lies inside
/// the window, an upper bound of it when at or below `alpha`, and a lower
/// bound when at or above `beta`. Without a loss, both values reach at least
/// `decided_threshold()`.
pub proof fn lemma_alpha_beta_node(
    v: StateView,
    depth: u8,
    max_depth: u8,
    player: u8,
    alpha: u32,
    beta: u32,
    first_time: bool,
)
    requires
        alpha < beta,
        no_loss(v, depth, max_depth, player, first_time) || max_depth <= 1,
    ensures
        ({
            let r = opps_spec(v, depth, max_depth, player, alpha, beta, first_time).0;
            let m = minimax_value(v, depth, max_depth, player, first_time);
            &&& no_loss(v, depth, max_depth, player, first_time) ==> r >= decided_threshold() && m >= decided_threshold()
            &&& (alpha < r < beta ==> r == m)
            &&& (r <= alpha ==> m <= r)
            &&& (r >= beta ==> m >= r)
        }),
    decreases 3 * (max_depth - depth) + 2 - (if player > 2 { 2int } else { player as int }), 1int, 0int,
{
    let new_turn = player > 1;
    let v1 = if new_turn && !first_time { end_turn_spec(v) } else { v };
    let depth1: int = if new_turn { depth + 1 } else { depth as int };
    let player1 = if new_turn { 0u8 } else { player };
    if new_turn && !first_time && (!v1.alive[0] || !v1.alive[1]) {
    } else if depth1 >= max_depth {
    } else {
        let moves = if depth1 > 1 { move_order_spec(v1, player1) } else { seq![0u8, 1, 2, 3] };
        let best = if player1 != 0 { 0xFFFF_FFFFu32 } else { 0u32 };
        assert(moves.len() > 0);
        lemma_alpha_beta_fold(
            v1, moves, 0, depth1 as u8, max_depth, player1, alpha, beta, best, 4, alpha, beta,
            no_loss(v, depth, max_depth, player, first_time),
        );
    }
}

/// The score of one move, by alpha-beta and by minimax, relate as the
/// values of the node it leads to.
proof fn lemma_alpha_beta_child(v: StateView, m: u8, depth: u8, max_depth: u8, player: u8, alpha: u32, beta: u32)
    requires
        alpha < beta,
        depth < max_depth,
        player <= 1,
        no_loss(make_move_spec(v, (m + player * 4) as u8), depth, max_depth, (player + 1) as u8, false)
            || max_depth <= 1,
    ensures
        ({
            let r = child_score(v, m, depth, max_depth, player, alpha, beta);
            let t = minimax_child(v, m, depth, max_depth, player);
            &&& no_loss(make_move_spec(v, (m + player * 4) as u8), depth, max_depth, (player + 1) as u8, false)
                ==> r >= decided_threshold() && t >= decided_threshold()
            &&& (alpha < r < beta ==> r == t)
            &&& (r <= alpha ==> t <= r)
            &&& (r >= beta ==> t >= r)
        }),
    decreases 3 * (max_depth - depth) + 2 - player, 0int, 0int,
{
    lemma_alpha_beta_node(make_move_spec(v, (m + player * 4) as u8), depth, max_depth, (player + 1) as u8, alpha, beta, false);
}

/// The alpha-beta loop over `moves[k..]` and the minimax fold over the same
/// moves relate as node values do, for the window `(alpha0, beta0)` of the
/// node; `a` and `b` are the loop's current window. `nl` says that no line
/// below ends in a loss; without it the search is one turn deep.
#[verifier::rlimit(40)]
proof fn lemma_alpha_beta_fold(
    v: StateView,
    moves: Seq<u8>,
    k: int,
    depth: u8,
    max_depth: u8,
    player: u8,
    a: u32,
    b: u32,
    best: u32,
    dir: u8,
    alpha0: u32,
    beta0: u32,
    nl: bool,
)
    requires
        depth < max_depth,
        player <= 1,
        0 <= k <= moves.len(),
        nl ==> children_no_loss(v, moves, k, depth, max_depth, player),
        nl || max_depth <= 1,
        a < b,
        player == 0 ==> b == beta0 && a == (if best > alpha0 { best } else { alpha0 }),
        player == 1 ==> a == alpha0 && b == (if best < beta0 { best } else { beta0 }),
        nl && player == 1 ==> best >= decided_threshold(),
    ensures
        ({
            let r = search_moves(v, moves, k, depth, max_depth, player, a, b, best, dir).0;
            let m = minimax_fold(v, moves, k, depth, max_depth, player, best);
            &&& nl && (k < moves.len() || best >= decided_threshold()) ==> r >= decided_threshold() && m
                >= decided_threshold()
            &&& player == 0 ==> r >= best && m >= best
            &&& player == 1 ==> r <= best && m <= best
            &&& (alpha0 < r < beta0 ==> r == m)
            &&& (r <= alpha0 ==> m <= r)
            &&& (r >= beta0 ==> m >= r)
        }),
    decreases 3 * (max_depth - depth) + 2 - player, 0int, moves.len() - k,
{
    if k < moves.len() {
        let mv = moves[k];
        lemma_alpha_beta_child(v, mv, depth, max_depth, player, a, b);
        let s = child_score(v, mv, depth, max_depth, player, a, b);
        let t = minimax_child(v, mv, depth, max_depth, player);
        let (best2, dir2) = if player == 0 {
            if s > best { (s, mv) } else { (best, dir) }
        } else {
            if s < best { (s, mv) } else { (best, dir) }
        };
        let alpha2 = if player == 0 && best2 > a { best2 } else { a };
        let beta2 = if player != 0 && best2 < b { best2 } else { b };
        let mbest2 = if player == 0 {
            if t > best { t } else { best }
        } else {
            if t < best { t } else { best }
        };
        lemma_minimax_fold_start(v, moves, k + 1, depth, max_depth, player, mbest2);
        lemma_minimax_fold_start(v, moves, k + 1, depth, max_depth, player, best2);
        assert(minimax_fold(v, moves, k, depth, max_depth, player, best)
            == minimax_fold(v, moves, k + 1, depth, max_depth, player, mbest2));
        if beta2 <= alpha2 {
            assert(search_moves(v, moves, k, depth, max_depth, player, a, b, best, dir).0 == best2);
            if player == 1 && nl {
                lemma_minimax_fold_floor(v, moves, k + 1, depth, max_depth, player, mbest2);
            }
        } else {
            lemma_alpha_beta_fold(v, moves, k + 1, depth, max_depth, player, alpha2, beta2, best2, dir2, alpha0, beta0, nl);
            assert(search_moves(v, moves, k, depth, max_depth, player, a, b, best, dir)
                == search_moves(v, moves, k + 1, depth, max_depth, player, alpha2, beta2, best2, dir2));
        }
    }
}

/// Where no line below `moves[k..]` ends in a loss, the minimax fold from a
/// start at or above `decided_threshold()` stays there.
proof fn lemma_minimax_fold_floor(v: StateView, moves: Seq<u8>, k: int, depth: u8, max_depth: u8, player: u8, best: u32)
    requires
        depth < max_depth,
        player <= 1,
        0 <= k <= moves.len(),
        children_no_loss(v, moves, k, depth, max_depth, player),
        best >= decided_threshold(),
    ensures
        minimax_fold(v, moves, k, depth, max_depth, player, best) >= decided_threshold(),
    decreases 3 * (max_depth - depth) + 2 - player, 0int, moves.len() - k,
{
    if k < moves.len() {
        lemma_alpha_beta_child(v, moves[k], depth, max_depth, player, 0, 0xFFFF_FFFF);
        let score = minimax_child(v, moves[k], depth, max_depth, player);
        let best2 = if player == 0 {
            if score > best { score } else { best }
        } else {
            if score < best { score } else { best }
        };
        lemma_minimax_fold_floor(v, moves, k + 1, depth, max_depth, player, best2);
    }
}

/// The minimax fold from any start is the better of that start and the
/// fold from the neutral start (0 for snake 0, `0xFFFF_FFFF` for snake 1).
proof fn lemma_minimax_fold_start(v: StateView, moves: Seq<u8>, k: int, depth: u8, max_depth: u8, player: u8, x: u32)
    ensures
        player == 0 ==> minimax_fold(v, moves, k, depth, max_depth, player, x) == ({
            let w = minimax_fold(v, moves, k, depth, max_depth, player, 0);
            if x > w { x } else { w }
        }),
        player == 1 ==> minimax_fold(v, moves, k, depth, max_depth, player, x) == ({
            let w = minimax_fold(v, moves, k, depth, max_depth, player, 0xFFFF_FFFF);
            if x < w { x } else { w }
        }),
    decreases moves.len() - k,
{
    if !(k < 0 || k >= moves.len() || !(depth < max_depth && player <= 1)) {
        let score = minimax_child(v, moves[k], depth, max_depth, player);
        let bx = if player == 0 {
            if score > x { score } else { x }
        } else {
            if score < x { score } else { x }
        };
        let n: u32 = if player == 0 { 0 } else { 0xFFFF_FFFF };
        let bn = if player == 0 {
            if score > n { score } else { n }
        } else {
            if score < n { score } else { n }
        };
        lemma_minimax_fold_start(v, moves, k + 1, depth, max_depth, player, bx);
        lemma_minimax_fold_start(v, moves, k + 1, depth, max_depth, player, bn);
    }
}

/// The first move with the highest minimax score among `moves[k..]` for
/// snake 0, starting from `best` and `dir`: a later move replaces the one
/// kept only with a strictly higher score.
pub open spec fn minimax_choice(v: StateView, moves: Seq<u8>, k: int, depth: u8, max_depth: u8, best: u32, dir: u8) -> (
    u32,
    u8,
)
    decreases moves.len() - k,
{
    if k < 0 || k >= moves.len() {
        (best, dir)
    } else {
        let t = minimax_child(v, moves[k], depth, max_depth, 0);
        if t > best {
            minimax_choice(v, moves, k + 1, depth, max_depth, t, moves[k])
        } else {
            minimax_choice(v, moves, k + 1, depth, max_depth, best, dir)
        }
    }
}

/// The move the plain minimax search picks at the root of a search to
/// `max_depth`: the first direction whose minimax score is the highest, or 4
/// where every score is 0.
pub open spec fn minimax_move(v: StateView, max_depth: u8) -> u8 {
    minimax_choice(v, seq![0u8, 1, 2, 3], 0, 0, max_depth, 0, 4).1
}

/// Keeping the first strictly better move gives the same value as the
/// minimax fold for snake 0.
proof fn lemma_minimax_choice_value(v: StateView, moves: Seq<u8>, k: int, depth: u8, max_depth: u8, best: u32, dir: u8)
    requires
        depth < max_depth,
    ensures
        minimax_choice(v, moves, k, depth, max_depth, best, dir).0 == minimax_fold(v, moves, k, depth, max_depth, 0, best),
    decreases moves.len() - k,
{
    if !(k < 0 || k >= moves.len()) {
        let t = minimax_child(v, moves[k], depth, max_depth, 0);
        if t > best {
            lemma_minimax_choice_value(v, moves, k + 1, depth, max_depth, t, moves[k]);
        } else {
            lemma_minimax_choice_value(v, moves, k + 1, depth, max_depth, best, dir);
        }
    }
}

/// Nothing beats the highest score: from `0xFFFF_FFFF` the choice stays.
proof fn lemma_minimax_choice_top(v: StateView, moves: Seq<u8>, k: int, depth: u8, max_depth: u8, dir: u8)
    ensures
        minimax_choice(v, moves, k, depth, max_depth, 0xFFFF_FFFF, dir) == (0xFFFF_FFFFu32, dir),
    decreases moves.len() - k,
{
    if !(k < 0 || k >= moves.len()) {
        lemma_minimax_choice_top(v, moves, k + 1, depth, max_depth, dir);
    }
}

/// At the root, where snake 0 searches with the window `(best, 0xFFFF_FFFF)`,
/// the alpha-beta loop keeps the same value and move as the plain minimax
/// choice.
proof fn lemma_root_fold(v: StateView, moves: Seq<u8>, k: int, depth: u8, max_depth: u8, best: u32, dir: u8, nl: bool)
    requires
        depth < max_depth,
        0 <= k <= moves.len(),
        nl ==> children_no_loss(v, moves, k, depth, max_depth, 0),
        nl || max_depth <= 1,
        best < 0xFFFF_FFFF,
    ensures
        search_moves(v, moves, k, depth, max_depth, 0, best, 0xFFFF_FFFF, best, dir)
            == minimax_choice(v, moves, k, depth, max_depth, best, dir),
    decreases moves.len() - k,
{
    if k < moves.len() {
        let m = moves[k];
        lemma_alpha_beta_child(v, m, depth, max_depth, 0, best, 0xFFFF_FFFF);
        let s = child_score(v, m, depth, max_depth, 0, best, 0xFFFF_FFFF);
        let t = minimax_child(v, m, depth, max_depth, 0);
        if s > best {
            assert(t == s);
            if s == 0xFFFF_FFFF {
                lemma_minimax_choice_top(v, moves, k + 1, depth, max_depth, m);
            } else {
                lemma_root_fold(v, moves, k + 1, depth, max_depth, s, m, nl);
            }
        } else {
            assert(t <= best);
            lemma_root_fold(v, moves, k + 1, depth, max_depth, best, dir, nl);
        }
    }
}

/// With the full window the search `minimax` starts, pruning changes
/// nothing wherever the depth bonus cannot reorder scores (no line ends in a
/// loss for snake 0, or the search is one turn deep): the value found is the
/// plain minimax value of the tree, and the move chosen is the first
/// direction with the highest minimax score (4 where every score is 0).
pub proof fn lemma_search_value_is_minimax(v: StateView, max_depth: u8)
    requires
        1 <= max_depth,
        no_loss(v, 0, max_depth, 0, true) || max_depth == 1,
    ensures
        opps_spec(v, 0, max_depth, 0, 0, 0xFFFF_FFFF, true).0 == minimax_value(v, 0, max_depth, 0, true),
        opps_spec(v, 0, max_depth, 0, 0, 0xFFFF_FFFF, true).1 == minimax_move(v, max_depth),
{
    let moves = seq![0u8, 1, 2, 3];
    let nl = no_loss(v, 0, max_depth, 0, true);
    assert(opps_spec(v, 0, max_depth, 0, 0, 0xFFFF_FFFF, true)
        == search_moves(v, moves, 0, 0, max_depth, 0, 0, 0xFFFF_FFFF, 0, 4));
    assert(nl ==> children_no_loss(v, moves, 0, 0, max_depth, 0));
    lemma_root_fold(v, moves, 0, 0, max_depth, 0, 4, nl);
    lemma_minimax_choice_value(v, moves, 0, 0, max_depth, 0, 4);
    assert(minimax_value(v, 0, max_depth, 0, true) == minimax_fold(v, moves, 0, 0, max_depth, 0, 0));
}

/// Every score the search gives a move at `depth` is at least `depth`: a
/// value below `decided_threshold()` (a loss) found there is raised by the
/// depth, so a loss found later scores higher.
pub proof fn lemma_child_score_floor(v: StateView, m: u8, depth: u8, max_depth: u8, player: u8, a: u32, b: u32)
    requires
        depth < max_depth,
        player <= 1,
    ensures
        child_score(v, m, depth, max_depth, player, a, b) >= depth,
        ({
            let raw = opps_spec(make_move_spec(v, (m + player * 4) as u8), depth, max_depth, (player + 1) as u8, a, b, false).0;
            child_score(v, m, depth, max_depth, player, a, b) == if raw < 0x1000_0000 { raw + depth } else { raw as int }
        }),
{
}

/// The alpha-beta loop of snake 0 ends with at least the best it had.
proof fn lemma_max_loop_grows(v: StateView, moves: Seq<u8>, k: int, depth: u8, max_depth: u8, a: u32, b: u32, best: u32, dir: u8)
    ensures
        search_moves(v, moves, k, depth, max_depth, 0, a, b, best, dir).0 >= best,
    decreases moves.len() - k,
{
    if !(k < 0 || k >= moves.len() || !(depth < max_depth)) {
        let m = moves[k];
        let score = child_score(v, m, depth, max_depth, 0, a, b);
        let (best2, dir2) = if score > best { (score, m) } else { (best, dir) };
        let alpha2 = if best2 > a { best2 } else { a };
        if b > alpha2 {
            lemma_max_loop_grows(v, moves, k + 1, depth, max_depth, alpha2, b, best2, dir2);
        }
    }
}

/// The alpha-beta loop of snake 0 with no upper bound (`0xFFFF_FFFF`) ends
/// with at least the score of any move `moves[j]` still to come, whatever
/// window that move is searched with (the window's lower end being the best
/// so far, as at the root).
proof fn lemma_max_loop_reaches(
    v: StateView,
    moves: Seq<u8>,
    k: int,
    depth: u8,
    max_depth: u8,
    a: u32,
    best: u32,
    dir: u8,
    j: int,
    floor: u32,
)
    requires
        depth < max_depth,
        0 <= k <= j < moves.len(),
        a <= best,
        forall|a2: u32| #[trigger] child_score(v, moves[j], depth, max_depth, 0, a2, 0xFFFF_FFFF) >= floor,
    ensures
        search_moves(v, moves, k, depth, max_depth, 0, a, 0xFFFF_FFFF, best, dir).0 >= floor,
    decreases j - k,
{
    let m = moves[k];
    let score = child_score(v, m, depth, max_depth, 0, a, 0xFFFF_FFFF);
    let (best2, dir2) = if score > best { (score, m) } else { (best, dir) };
    let alpha2 = if best2 > a { best2 } else { a };
    assert(child_score(v, moves[j], depth, max_depth, 0, a, 0xFFFF_FFFF) >= floor);
    if 0xFFFF_FFFFu32 > alpha2 {
        if j == k {
            lemma_max_loop_grows(v, moves, k + 1, depth, max_depth, alpha2, 0xFFFF_FFFF, best2, dir2);
        } else {
            lemma_max_loop_reaches(v, moves, k + 1, depth, max_depth, alpha2, best2, dir2, j, floor);
        }
    }
}

/// The alpha-beta loop of snake 1 ends with at least `floor` where it starts
/// there and every move still to come scores at least `floor`, whatever its
/// window.
proof fn lemma_min_loop_floor(
    v: StateView,
    moves: Seq<u8>,
    k: int,
    depth: u8,
    max_depth: u8,
    a: u32,
    b: u32,
    best: u32,
    dir: u8,
    floor: u32,
)
    requires
        best >= floor,
        forall|j: int, a2: u32, b2: u32| k <= j < moves.len() ==> #[trigger] child_score(v, moves[j], depth, max_depth, 1, a2, b2) >= floor,
    ensures
        search_moves(v, moves, k, depth, max_depth, 1, a, b, best, dir).0 >= floor,
    decreases moves.len() - k,
{
    if !(k < 0 || k >= moves.len() || !(depth < max_depth)) {
        let m = moves[k];
        let score = child_score(v, m, depth, max_depth, 1, a, b);
        let (best2, dir2) = if score < best { (score, m) } else { (best, dir) };
        let beta2 = if best2 < b { best2 } else { b };
        if beta2 > a {
            lemma_min_loop_floor(v, moves, k + 1, depth, max_depth, a, beta2, best2, dir2, floor);
        }
    }
}

/// The alpha-beta loop of snake 0 keeps a direction (below 4) exactly when
/// its best score is above 0.
proof fn lemma_max_loop_direction(v: StateView, moves: Seq<u8>, k: int, depth: u8, max_depth: u8, a: u32, b: u32, best: u32, dir: u8)
    requires
        forall|j: int| 0 <= j < moves.len() ==> #[trigger] moves[j] < 4,
        dir <= 4,
        best > 0 <==> dir < 4,
    ensures
        ({
            let r = search_moves(v, moves, k, depth, max_depth, 0, a, b, best, dir);
            r.1 <= 4 && (r.0 > 0 <==> r.1 < 4)
        }),
    decreases moves.len() - k,
{
    if !(k < 0 || k >= moves.len() || !(depth < max_depth)) {
        let m = moves[k];
        let score = child_score(v, m, depth, max_depth, 0, a, b);
        let (best2, dir2) = if score > best { (score, m) } else { (best, dir) };
        let alpha2 = if best2 > a { best2 } else { a };
        if b > alpha2 {
            lemma_max_loop_direction(v, moves, k + 1, depth, max_depth, alpha2, b, best2, dir2);
        }
    }
}

/// Whether snake 0 has lost at the end of a turn: it is dead and snake 1
/// lives.
pub open spec fn lost_turn(u: StateView) -> bool {
    !u.alive[0] && u.alive[1]
}

/// A position that is not lost when a turn ends is worth at least 1 to the
/// search that goes on from there: a decided game that is won or drawn, an
/// evaluated position (at least `0x8000_0000`), or a further search whose
/// first move scores at least its depth, 1.
proof fn lemma_turn_end_floor(x: StateView, max_depth: u8, a: u32, b: u32)
    requires
        1 <= max_depth,
        !lost_turn(end_turn_spec(x)),
    ensures
        opps_spec(x, 0, max_depth, 2, a, b, false).0 >= 1,
{
    let v1 = end_turn_spec(x);
    if v1.alive[0] && v1.alive[1] {
        if 1 >= max_depth {
            let f = area_control_spec(v1, 0, false);
            let area = f.area as u8;
            assert((area as int * 100) / 121 <= 210) by (nonlinear_arith) requires area <= 255;
            assert(centre_bonus(v1.heads[0]) <= 100);
            assert(edge_bonus(v1.heads[1]) <= 100);
            assert(state_value_spec(v1, 0) >= 0x8000_0000u32);
        } else {
            let moves = seq![0u8, 1, 2, 3];
            lemma_child_score_floor(v1, 0, 1, max_depth, 0, a, b);
            lemma_max_loop_grows(v1, moves, 1, 1, max_depth, if child_score(v1, 0, 1, max_depth, 0, a, b) > a {
                child_score(v1, 0, 1, max_depth, 0, a, b)
            } else {
                a
            }, b, if child_score(v1, 0, 1, max_depth, 0, a, b) > 0 {
                child_score(v1, 0, 1, max_depth, 0, a, b)
            } else {
                0
            }, if child_score(v1, 0, 1, max_depth, 0, a, b) > 0 { 0 } else { 4 });
        }
    }
}

/// At the root the search chooses a direction (below 4) exactly when the
/// value it finds is above 0.
pub proof fn lemma_root_direction(v: StateView, max_depth: u8)
    requires
        1 <= max_depth,
    ensures
        ({
            let r = opps_spec(v, 0, max_depth, 0, 0, 0xFFFF_FFFF, true);
            r.1 <= 4 && (r.0 > 0 <==> r.1 < 4)
        }),
{
    lemma_max_loop_direction(v, seq![0u8, 1, 2, 3], 0, 0, max_depth, 0, 0xFFFF_FFFF, 0, 4);
}

/// A loss found later scores higher, so the search never gives up a move
/// that survives the first turn: where some move `a` of snake 0 leaves it
/// alive (or snake 1 dead) at the end of the first turn whatever snake 1
/// answers, the search finds a value above 0 and chooses a direction (below
/// 4), even where every line loses later.
pub proof fn lemma_search_avoids_instant_loss(v: StateView, max_depth: u8, a: u8)
    requires
        1 <= max_depth,
        a < 4,
        forall|e: u8| e < 4 ==> !#[trigger] lost_turn(end_turn_spec(make_move_spec(make_move_spec(v, a), (4 + e) as u8))),
    ensures
        ({
            let r = opps_spec(v, 0, max_depth, 0, 0, 0xFFFF_FFFF, true);
            r.0 > 0 && r.1 < 4
        }),
{
    let moves = seq![0u8, 1, 2, 3];
    let c = make_move_spec(v, a);
    assert((a + 0 * 4) as u8 == a);
    assert forall|a2: u32| #[trigger] child_score(v, moves[a as int], 0, max_depth, 0, a2, 0xFFFF_FFFF) >= 1 by {
        assert forall|j: int, a3: u32, b3: u32| 0 <= j < moves.len() implies
            #[trigger] child_score(c, moves[j], 0, max_depth, 1, a3, b3) >= 1 by {
            let e = moves[j];
            assert(e < 4);
            assert(!lost_turn(end_turn_spec(make_move_spec(c, (4 + e) as u8))));
            assert((e + 1 * 4) as u8 == (4 + e) as u8);
            lemma_turn_end_floor(make_move_spec(c, (4 + e) as u8), max_depth, a3, b3);
        }
        lemma_min_loop_floor(c, moves, 0, 0, max_depth, a2, 0xFFFF_FFFF, 0xFFFF_FFFF, 4, 1);
    }
    lemma_max_loop_reaches(v, moves, 0, 0, max_depth, 0, 0, 4, a as int, 1);
    lemma_root_direction(v, max_depth);
}

} // verus!
