//! The evaluation of a position, seen from snake 0.
use vstd::prelude::*;
use crate::area_control::{area_control_ok, area_control_spec, get_area_control_score, lemma_area_control_reads_board};
use crate::board::{SIZE, State, StateView, lemma_cell_bits, lemma_view_wf};

verus! {

/// The value of a position that snake 0 has won.
pub open spec fn won() -> u32 {
    0xFFFF_FFFF
}

/// The value of a position that snake 0 has lost.
pub open spec fn lost() -> u32 {
    0
}

/// The value of a position where both snakes are dead.
pub open spec fn drawn() -> u32 {
    0x7FFF_FFFF
}

/// The base value of a position where both snakes are alive.
pub open spec fn running_base() -> u32 {
    0x8000_0000
}

/// A coordinate read as a signed byte.
pub open spec fn signed(p: u8) -> int {
    if p < 128 { p as int } else { p - 256 }
}

/// How far a coordinate lies from the centre line (5).
pub open spec fn centre_distance(p: u8) -> int {
    let d = signed(p) - 5;
    if d < 0 { -d } else { d }
}

/// Coordinates whose distance from the centre fits a signed byte.
pub open spec fn centre_ok(p: u8) -> bool {
    signed(p) - 5 > -128
}

/// The bonus for a head at `head`: 100 within two cells of the centre (in
/// both directions), 85 within three, 50 within four, 0 beyond.
pub open spec fn centre_bonus(head: (u8, u8)) -> u8 {
    let dx = centre_distance(head.0);
    let dy = centre_distance(head.1);
    if dx <= 2 && dy <= 2 { 100 } else if dx <= 3 && dy <= 3 { 85 } else if dx <= 4 && dy <= 4 { 50 } else { 0 }
}

/// The bonus for an enemy head at `head`: 0 within two cells of the centre,
/// 30 within three, 65 within four, 100 within five, 0 beyond.
pub open spec fn edge_bonus(head: (u8, u8)) -> u8 {
    let dx = centre_distance(head.0);
    let dy = centre_distance(head.1);
    if dx <= 2 && dy <= 2 { 0 } else if dx <= 3 && dy <= 3 { 30 } else if dx <= 4 && dy <= 4 { 65 } else if dx
        <= 5 && dy <= 5 { 100 } else { 0 }
}

/// The share of the board, in percent (rounded down), that `area` cells are.
pub open spec fn area_percent(area: u8) -> u8 {
    (area as int * 100 / (SIZE * SIZE) as int) as u8
}

/// The total length from which a position counts as an endgame.
pub open spec fn endgame_length() -> int {
    (SIZE * SIZE / 3) as int
}

/// The value of a position for snake `player`, from snake 0's side: fixed
/// values once a snake is dead; otherwise `running_base()` plus bonuses for
/// a central head, an enemy head near the edge, the share of the board
/// snake 0 reaches first, health, and (in the endgame) that share again and
/// reaching its own tail, plus a small share of the enemy's health.
pub open spec fn state_value_spec(v: StateView, player: u8) -> u32 {
    if v.alive[0] && !v.alive[1] {
        won()
    } else if !v.alive[0] && v.alive[1] {
        lost()
    } else if !v.alive[0] && !v.alive[1] {
        drawn()
    } else {
        let f = area_control_spec(v, 0, false);
        let area = f.area as u8;
        let crit_2 = centre_bonus(v.heads[player as int]) / 10 + edge_bonus(v.heads[1 - player]) / 10
            + area_percent(area) + v.healths[player as int] / 15
            + if v.lengths[0] + v.lengths[1] >= endgame_length() {
                area_percent(area) + (if f.tail_reached { 100int } else { 0 }) / 10
            } else {
                0
            };
        let crit_3 = v.healths[1 - player] / 30;
        (running_base() + crit_2 + crit_3) as u32
    }
}

/// The inputs on which the evaluation stays within the machine's limits:
/// a decided game needs nothing; while both snakes live, `player` is 0 or 1,
/// their heads are where the search can start from, their lengths add up within a byte, and the head
/// coordinates lie where their distance from the centre fits a signed byte.
pub open spec fn state_value_ok(v: StateView, player: u8) -> bool {
    v.alive[0] && v.alive[1] ==> {
        &&& player <= 1
        &&& area_control_ok(v, 0)
        &&& v.lengths[0] + v.lengths[1] <= 255
        &&& centre_ok(v.heads[player as int].0)
        &&& centre_ok(v.heads[player as int].1)
        &&& centre_ok(v.heads[1 - player].0)
        &&& centre_ok(v.heads[1 - player].1)
    }
}

/// Scores a position from snake 0's side, for snake `player`.
pub fn state_value(state: &State, player: &u8) -> (r: u32)
    requires
        state_value_ok(state@, *player),
    ensures
        r == state_value_spec(state@, *player),
{
    proof { lemma_view_wf(*state); }
    // a decided game has a fixed value
    if state.are_snakes_alive[0] && !state.are_snakes_alive[1] {
        return 0xFFFFFFFF;
    }
    if !state.are_snakes_alive[0] && state.are_snakes_alive[1] {
        return 0;
    }
    if !state.are_snakes_alive[0] && !state.are_snakes_alive[1] {
        return 0x7FFFFFFF;
    }

    let mut score: u32 = 0x80000000;

    // bonuses of a running game
    let mut crit_2_score: u32 = 0;

    let (area_control_amount, _food_distances, can_see_my_tail) = get_area_control_score(state, &0, false);
    assert((area_control_amount as int * 100) / 121 <= 100) by (nonlinear_arith)
        requires area_control_amount <= 121;

    crit_2_score += (in_centre_value(state, player) as u32) / 10;
    crit_2_score += (enemy_at_edge_value(state, &(1 - *player)) as u32) / 10;
    crit_2_score += area_control_value(area_control_amount, player) as u32;
    crit_2_score += state.snake_healths[*player as usize] as u32 / 15;

    if state.snake_lengths[0] + state.snake_lengths[1] >= (SIZE * SIZE / 3) as u8 {
        // in the endgame the share counts twice, and reaching the tail counts
        let (_body_area_control_amount, _, _) = get_area_control_score(state, &0, true);
        crit_2_score += body_area_control_value(area_control_amount, player) as u32;
        crit_2_score += can_reach_my_tail_score(can_see_my_tail) as u32 / 10;
    }

    // a small share of the enemy's health
    let mut crit_3_score: u32 = 0;
    crit_3_score += state.snake_healths[1 - *player as usize] as u32 / 30;

    score += crit_2_score + crit_3_score;
    return score as u32;
}

/// How many cells of the board, among the first `k` (row-major), hold a body
/// part of snake `who` where that snake's body lay at the start of the search.
pub open spec fn count_matching(v: StateView, who: int, k: int) -> nat
    decreases k,
{
    if k <= 0 {
        0
    } else {
        let x = (k - 1) % SIZE as int;
        let y = (k - 1) / SIZE as int;
        count_matching(v, who, k - 1) + if v.cell(x, y) as int / 128 == who && v.original[y][x] == who + 1 {
            1nat
        } else {
            0nat
        }
    }
}

/// The share, in percent of the enemy's length (truncated to a byte), of the
/// cells where the enemy of `player` still lies where its body lay at the
/// start of the search.
#[allow(dead_code)]
fn matches_original_struct_value(state: &State, player: &u8) -> (r: u8)
    requires
        *player <= 1,
        state@.lengths[1 - *player] > 0,
    ensures
        r == ((count_matching(state@, 1 - *player, (SIZE * SIZE) as int) * 100) as int / state@.lengths[1 - *player] as int) as u8,
{
    let ghost v = state@;
    proof { lemma_view_wf(*state); }
    let mut amount_matching: u16 = 0;
    for y in 0..SIZE
        invariant
            v == state@,
            v.wf(),
            *player <= 1,
            amount_matching == count_matching(v, 1 - *player, (y * SIZE) as int),
            amount_matching <= y * SIZE,
    {
        for x in 0..SIZE
            invariant
                v == state@,
                v.wf(),
                *player <= 1,
                y < SIZE,
                amount_matching == count_matching(v, 1 - *player, (y * SIZE + x) as int),
                amount_matching <= y * SIZE + x,
        {
            let cell = state.board_struct[y][x];
            proof {
                lemma_cell_bits(cell);
                let k = (y * SIZE + x + 1) as int;
                assert((k - 1) % SIZE as int == x && (k - 1) / SIZE as int == y) by (nonlinear_arith)
                    requires k - 1 == y * 11 + x, 0 <= x < 11;
                assert(cell == v.cell(x as int, y as int));
                assert(state.original_board_struct[y as int][x as int] == v.original[y as int][x as int]);
            }
            if (cell & 0b10000000) >> 7 == 1 - *player && state.original_board_struct[y][x] == (1 - *player) + 1 {
                amount_matching += 1;
            }
        }
    }
    return ((amount_matching * 100) / state.snake_lengths[1 - *player as usize] as u16) as u8;
}

/// The share of the board, in percent, that `area_control_amount` cells are.
fn area_control_value(area_control_amount: u8, player: &u8) -> (value: u8)
    requires
        (area_control_amount as int * 100) / (SIZE * SIZE) as int <= 100,
    ensures
        value == area_percent(area_control_amount),
        value <= 100,
{
    let value = (((area_control_amount as u16 * 100) / (SIZE * SIZE) as u16)) as u8;
    value
}

/// The share of the board, in percent, that `area_control_amount` cells are,
/// counted in the endgame.
fn body_area_control_value(area_control_amount: u8, player: &u8) -> (value: u8)
    requires
        (area_control_amount as int * 100) / (SIZE * SIZE) as int <= 100,
    ensures
        value == area_percent(area_control_amount),
        value <= 100,
{
    let value = (((area_control_amount as u16 * 100) / (SIZE * SIZE) as u16)) as u8;
    value
}

/// 100 when the snake reaches its own tail, else 0.
fn can_reach_my_tail_score(can_reach_me_tail: bool) -> (r: u8)
    ensures
        r == if can_reach_me_tail { 100u8 } else { 0u8 },
{
    if can_reach_me_tail {
        return 100;
    }
    return 0;
}

/// The distance of a coordinate from the centre line, computed on a signed
/// byte as the search does.
fn distance_from_centre(p: u8) -> (d: u8)
    requires
        centre_ok(p),
    ensures
        d as int == centre_distance(p),
{
    let s = p as i8;
    assert(s as int == signed(p)) by (bit_vector)
        requires s == p as i8;
    let diff = s - (SIZE as i8 - 1) / 2;
    let dist = if diff < 0 { -diff } else { diff };
    dist as u8
}

/// The bonus for how central the head of snake `player` is.
fn in_centre_value(state: &State, player: &u8) -> (r: u8)
    requires
        *player <= 1,
        centre_ok(state@.heads[*player as int].0),
        centre_ok(state@.heads[*player as int].1),
    ensures
        r == centre_bonus(state@.heads[*player as int]),
{
    let x_pos: u8 = state.snake_heads[*player as usize].0;
    let y_pos: u8 = state.snake_heads[*player as usize].1;

    let x_dist: u8 = distance_from_centre(x_pos);
    let y_dist: u8 = distance_from_centre(y_pos);

    if x_dist <= 2 && y_dist <= 2 {
        return 100;
    }
    if x_dist <= 3 && y_dist <= 3 {
        return 85;
    }
    if x_dist <= 4 && y_dist <= 4 {
        return 50;
    }
    return 0;
}

/// The bonus for how close to the edge the head of (enemy) snake `player` is.
fn enemy_at_edge_value(state: &State, player: &u8) -> (r: u8)
    requires
        *player <= 1,
        centre_ok(state@.heads[*player as int].0),
        centre_ok(state@.heads[*player as int].1),
    ensures
        r == edge_bonus(state@.heads[*player as int]),
{
    let x_pos: u8 = state.snake_heads[*player as usize].0;
    let y_pos: u8 = state.snake_heads[*player as usize].1;

    let x_dist: u8 = distance_from_centre(x_pos);
    let y_dist: u8 = distance_from_centre(y_pos);

    if x_dist <= 2 && y_dist <= 2 {
        return 0;
    }
    if x_dist <= 3 && y_dist <= 3 {
        return 30;
    }
    if x_dist <= 4 && y_dist <= 4 {
        return 65;
    }
    if x_dist <= 5 && y_dist <= 5 {
        return 100;
    }
    return 0;
}

/// Every evaluation of a position where both snakes live lies strictly
/// between the values of a drawn and of a won game, so a decided game is
/// never mistaken for a running one.
pub proof fn lemma_running_value_range(v: StateView, player: u8)
    requires
        v.wf(),
        player <= 1,
        v.alive[0],
        v.alive[1],
    ensures
        drawn() < running_base() <= state_value_spec(v, player) <= running_base() + 1000 < won(),
{
    let f = area_control_spec(v, 0, false);
    let area = f.area as u8;
    assert((area as int * 100) / 121 <= 210) by (nonlinear_arith) requires area <= 255;
    assert(area_percent(area) <= 210);
    assert(centre_bonus(v.heads[player as int]) <= 100);
    assert(edge_bonus(v.heads[1 - player]) <= 100);
}

/// The value of a position does not fall as snake 0's health rises, all
/// else fixed, whichever snake it is evaluated for: the health enters as
/// `health / 15` for snake 0 and as `health / 30` for snake 1, and the
/// search of the board does not read it.
pub proof fn lemma_value_rises_with_health(v: StateView, player: u8, h: u8)
    requires
        v.wf(),
        player <= 1,
        area_control_ok(v, 0),
        v.healths[0] <= h,
    ensures
        state_value_spec(v, player) <= state_value_spec(StateView { healths: v.healths.update(0, h), ..v }, player),
{
    let w = StateView { healths: v.healths.update(0, h), ..v };
    if v.alive[0] && v.alive[1] {
        lemma_area_control_reads_board(v, w, 0, false);
        lemma_running_value_range(v, player);
        lemma_running_value_range(w, player);
        let f = area_control_spec(v, 0, false);
        let area = f.area as u8;
        assert(area_percent(area) <= 210) by {
            assert((area as int * 100) / 121 <= 210) by (nonlinear_arith) requires area <= 255;
        }
        assert(v.healths[0] / 15 <= h / 15) by (nonlinear_arith) requires v.healths[0] <= h;
        assert(v.healths[0] / 30 <= h / 30) by (nonlinear_arith) requires v.healths[0] <= h;
    }
}

} // verus!
