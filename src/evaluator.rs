//! Static evaluation of a position from the mover's point of view.

use vstd::prelude::*;
use crate::bitboard::{bit, can_locate, legal_moves, pop_count, popcount};

verus! {

/// Below this many empty squares only the disc difference is scored.
pub const ENDGAME_EMPTIES: usize = 14;

/// Distance of a row or file index (0..8) from the nearer edge.
pub open spec fn fold(x: int) -> int {
    if x < 4 {
        x
    } else {
        7 - x
    }
}

/// Weight of a square given its distances `a <= b` from the nearer edges.
pub open spec fn folded_weight(a: int, b: int) -> int {
    if a == 0 {
        if b == 0 {
            50
        } else if b == 1 {
            -24
        } else if b == 2 {
            8
        } else {
            6
        }
    } else if a == 1 {
        if b == 1 {
            -13
        } else {
            1
        }
    } else if a == 2 {
        if b == 2 {
            0
        } else {
            -1
        }
    } else {
        -1
    }
}

/// Positional weight of the square at bit index `i`: corners +50, the
/// squares next to a corner strongly negative, edges mildly positive and
/// the centre near zero. The table is symmetric under the board's
/// reflections.
pub open spec fn square_weight(i: int) -> int {
    let r = fold(i / 8);
    let c = fold(i % 8);
    if r <= c {
        folded_weight(r, c)
    } else {
        folded_weight(c, r)
    }
}

fn square_weight_exec(i: u64) -> (r: i32)
    requires
        i < 64,
    ensures
        r == square_weight(i as int),
        -50 <= r <= 50,
{
    let r0: u64 = if i / 8 < 4 { i / 8 } else { 7 - i / 8 };
    let c0: u64 = if i % 8 < 4 { i % 8 } else { 7 - i % 8 };
    let (a, b) = if r0 <= c0 { (r0, c0) } else { (c0, r0) };
    if a == 0 {
        if b == 0 {
            50
        } else if b == 1 {
            -24
        } else if b == 2 {
            8
        } else {
            6
        }
    } else if a == 1 {
        if b == 1 {
            -13
        } else {
            1
        }
    } else if a == 2 {
        if b == 2 {
            0
        } else {
            -1
        }
    } else {
        -1
    }
}

/// Contribution of square `i`: its weight for a mover disc, minus it for
/// an opponent disc.
pub open spec fn square_value(b: u64, w: u64, i: int) -> int {
    if bit(b, i as u64) {
        square_weight(i)
    } else if bit(w, i as u64) {
        -square_weight(i)
    } else {
        0
    }
}

/// Positional score over the squares with index below `n`.
pub open spec fn table_sum(b: u64, w: u64, n: nat) -> int
    decreases n,
{
    if n == 0 {
        0
    } else {
        table_sum(b, w, (n - 1) as nat) + square_value(b, w, n - 1)
    }
}

/// Disc difference.
pub open spec fn stone_score(b: u64, w: u64) -> int {
    popcount(b) - popcount(w)
}

/// Weighted positional difference.
pub open spec fn table_score(b: u64, w: u64) -> int {
    table_sum(b, w, 64)
}

/// Difference in the number of legal placements.
pub open spec fn move_score(b: u64, w: u64) -> int {
    popcount(legal_moves(b, w)) - popcount(legal_moves(w, b))
}

/// The fixed edge and corner runs whose full ownership counts as stability.
pub open spec fn edge_patterns() -> Seq<u64> {
    seq![
        0x0000000000000007u64, 0x000000000000000f, 0x000000000000001f,
        0x000000000000003f, 0x000000000000007f, 0x00000000000000e0,
        0x00000000000000f0, 0x00000000000000f8, 0x00000000000000fc,
        0x00000000000000fe, 0x00000000000000ff, 0x0000000000010101,
        0x0000000001010101, 0x0000000101010101, 0x0000010101010101,
        0x0001010101010101, 0x0101010101010101, 0x0101010000000000,
        0x0101010100000000, 0x0101010101000000, 0x0101010101010000,
        0x0101010101010100, 0x0700000000000000, 0x0f00000000000000,
        0x1f00000000000000, 0x3f00000000000000, 0x7f00000000000000,
        0xff00000000000000, 0xe000000000000000, 0xf000000000000000,
        0xf800000000000000, 0xfc00000000000000, 0xfe00000000000000,
        0x0000000000808080, 0x0000000080808080, 0x0000008080808080,
        0x0000808080808080, 0x0080808080808080, 0x8080808080808080,
        0x8080800000000000, 0x8080808000000000, 0x8080808080000000,
        0x8080808080800000, 0x8080808080808000, 0x0000000000000303,
        0x000000000000c0c0, 0x0303000000000000, 0xc0c0000000000000,
        0x0102040000000000, 0x0000000000040201, 0x0000000000204080,
        0x8040200000000000
    ]
}

/// How many of the first `n` edge patterns `p` owns entirely.
pub open spec fn owned_patterns(p: u64, n: nat) -> nat
    decreases n,
{
    if n == 0 {
        0
    } else {
        let pat = edge_patterns()[n - 1];
        owned_patterns(p, (n - 1) as nat) + if p & pat == pat { 1nat } else { 0nat }
    }
}

/// Difference in the number of fully owned edge patterns.
pub open spec fn edge_score(b: u64, w: u64) -> int {
    owned_patterns(b, 52) - owned_patterns(w, 52)
}

/// Discs of `p` with an empty neighbour (in `empty`), counted once per
/// direction in which such a neighbour lies.
pub open spec fn openness(p: u64, empty: u64) -> int {
    (popcount((p >> 1u64) & empty & 0x7f7f_7f7f_7f7f_7f7f) + popcount(
        (p << 1u64) & empty & 0xfefe_fefe_fefe_fefe,
    ) + popcount((p >> 8u64) & empty & 0x00ff_ffff_ffff_ffff) + popcount(
        (p << 8u64) & empty & 0xffff_ffff_ffff_ff00,
    ) + popcount((p >> 7u64) & empty & 0x00fe_fefe_fefe_fefe) + popcount(
        (p << 7u64) & empty & 0x7f7f_7f7f_7f7f_7f00,
    ) + popcount((p >> 9u64) & empty & 0x007f_7f7f_7f7f_7f7f) + popcount(
        (p << 9u64) & empty & 0xfefe_fefe_fefe_fe00,
    )) as int
}

/// Openness difference, opponent minus mover: fewer exposed discs is better.
pub open spec fn open_score(b: u64, w: u64) -> int {
    openness(w, !(b | w)) - openness(b, !(b | w))
}

/// The static score of a position for the mover `b` with `left` empty
/// squares.
pub open spec fn score(b: u64, w: u64, left: int) -> int {
    if left < ENDGAME_EMPTIES {
        2 * stone_score(b, w)
    } else {
        2 * stone_score(b, w) + 2 * table_score(b, w) + 2 * move_score(b, w) + 2 * edge_score(
            b,
            w,
        ) + 2 * open_score(b, w)
    }
}

/// Largest magnitude that `score` reaches.
pub open spec fn score_bound() -> int {
    7784
}

/// The static score depends on the position and the number of empty
/// squares alone: equal inputs give equal scores.
pub proof fn lemma_score_deterministic(b1: u64, w1: u64, left1: int, b2: u64, w2: u64, left2: int)
    requires
        b1 == b2,
        w1 == w2,
        left1 == left2,
    ensures
        score(b1, w1, left1) == score(b2, w2, left2),
{
}

/// Disc difference.
pub fn eval_stones(black: u64, white: u64) -> (r: i32)
    ensures
        r == stone_score(black, white),
        -64 <= r <= 64,
{
    pop_count(black) as i32 - pop_count(white) as i32
}

/// Positional score from the weight table.
pub fn eval_table(black: u64, white: u64) -> (r: i32)
    ensures
        r == table_score(black, white),
        -3200 <= r <= 3200,
{
    let mut sum: i32 = 0;
    let mut i: u64 = 0;
    while i < 64
        invariant
            i <= 64,
            sum == table_sum(black, white, i as nat),
            -50 * i <= sum <= 50 * i,
        decreases 64 - i,
    {
        let v = square_weight_exec(i);
        if (black >> i) & 1 == 1 {
            sum = sum + v;
        } else if (white >> i) & 1 == 1 {
            sum = sum - v;
        }
        i = i + 1;
    }
    sum
}

/// Mobility difference.
pub fn eval_move(black: u64, white: u64) -> (r: i32)
    ensures
        r == move_score(black, white),
        -64 <= r <= 64,
{
    pop_count(can_locate(black, white)) as i32 - pop_count(can_locate(white, black)) as i32
}

fn count_owned(p: u64, pats: &[u64; 52]) -> (r: i32)
    requires
        pats@ == edge_patterns(),
    ensures
        r == owned_patterns(p, 52),
        0 <= r <= 52,
{
    let mut sum: i32 = 0;
    let mut i: usize = 0;
    while i < 52
        invariant
            i <= 52,
            pats@ == edge_patterns(),
            sum == owned_patterns(p, i as nat),
            0 <= sum <= i,
        decreases 52 - i,
    {
        let mask = pats[i];
        if (p & mask) == mask {
            sum = sum + 1;
        }
        i = i + 1;
    }
    sum
}

/// Edge-stability difference.
pub fn eval_edge(black: u64, white: u64) -> (r: i32)
    ensures
        r == edge_score(black, white),
        -52 <= r <= 52,
{
    let pats: [u64; 52] = [
        0x0000000000000007u64, 0x000000000000000f, 0x000000000000001f,
        0x000000000000003f, 0x000000000000007f, 0x00000000000000e0,
        0x00000000000000f0, 0x00000000000000f8, 0x00000000000000fc,
        0x00000000000000fe, 0x00000000000000ff, 0x0000000000010101,
        0x0000000001010101, 0x0000000101010101, 0x0000010101010101,
        0x0001010101010101, 0x0101010101010101, 0x0101010000000000,
        0x0101010100000000, 0x0101010101000000, 0x0101010101010000,
        0x0101010101010100, 0x0700000000000000, 0x0f00000000000000,
        0x1f00000000000000, 0x3f00000000000000, 0x7f00000000000000,
        0xff00000000000000, 0xe000000000000000, 0xf000000000000000,
        0xf800000000000000, 0xfc00000000000000, 0xfe00000000000000,
        0x0000000000808080, 0x0000000080808080, 0x0000008080808080,
        0x0000808080808080, 0x0080808080808080, 0x8080808080808080,
        0x8080800000000000, 0x8080808000000000, 0x8080808080000000,
        0x8080808080800000, 0x8080808080808000, 0x0000000000000303,
        0x000000000000c0c0, 0x0303000000000000, 0xc0c0000000000000,
        0x0102040000000000, 0x0000000000040201, 0x0000000000204080,
        0x8040200000000000,
    ];
    assert(pats@ =~= edge_patterns());
    count_owned(black, &pats) - count_owned(white, &pats)
}

fn openness_exec(p: u64, empty: u64) -> (r: i32)
    ensures
        r == openness(p, empty),
        0 <= r <= 512,
{
    let a = pop_count((p >> 1u64) & empty & 0x7f7f_7f7f_7f7f_7f7f);
    let b = pop_count((p << 1u64) & empty & 0xfefe_fefe_fefe_fefe);
    let c = pop_count((p >> 8u64) & empty & 0x00ff_ffff_ffff_ffff);
    let d = pop_count((p << 8u64) & empty & 0xffff_ffff_ffff_ff00);
    let e = pop_count((p >> 7u64) & empty & 0x00fe_fefe_fefe_fefe);
    let f = pop_count((p << 7u64) & empty & 0x7f7f_7f7f_7f7f_7f00);
    let g = pop_count((p >> 9u64) & empty & 0x007f_7f7f_7f7f_7f7f);
    let h = pop_count((p << 9u64) & empty & 0xfefe_fefe_fefe_fe00);
    (a + b + c + d + e + f + g + h) as i32
}

/// Openness difference (opponent minus mover).
pub fn eval_open(black: u64, white: u64) -> (r: i32)
    ensures
        r == open_score(black, white),
        -512 <= r <= 512,
{
    let empty = !(black | white);
    openness_exec(white, empty) - openness_exec(black, empty)
}

/// The static score of a position for `black`, the side to move, with
/// `left` empty squares.
pub fn eval_all(black: u64, white: u64, left: usize) -> (r: i32)
    ensures
        r == score(black, white, left as int),
        -score_bound() <= r <= score_bound(),
{
    if left < ENDGAME_EMPTIES {
        2 * eval_stones(black, white)
    } else {
        2 * eval_stones(black, white) + 2 * eval_table(black, white) + 2 * eval_move(black, white)
            + 2 * eval_edge(black, white) + 2 * eval_open(black, white)
    }
}

} // verus!
