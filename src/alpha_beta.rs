//! Depth-limited fail-soft negamax search with alpha-beta pruning.

use vstd::prelude::*;
use crate::bitboard::{
    bit, can_locate, flips, get_rev_pat, legal_moves, lemma_popcount_zero, lemma_squares_of_step,
    low_bit, lowest_bit, popcount, squares_of,
};
use crate::evaluator::{eval_all, score, table_sum, ENDGAME_EMPTIES};
use crate::player::Pmove;

verus! {

/// Search depth in the middle game.
pub const READING_LEVEL: i32 = 8;

/// Value of a position whose mover has no disc left.
pub open spec fn eliminated() -> int {
    i32::MIN + 10
}

/// Factor that lifts a finished game's score above every heuristic score.
pub open spec fn terminal_factor() -> int {
    1000
}

/// Negation that maps the smallest `i32` to a large positive value instead
/// of overflowing.
pub open spec fn neg_sat(x: int) -> int {
    if x == i32::MIN {
        i32::MAX - 1
    } else {
        -x
    }
}

/// Empty squares after one more placement.
pub open spec fn after_move(left: int) -> int {
    if left > 0 {
        left - 1
    } else {
        0
    }
}

pub open spec fn no_moves_flag(m: u64, o: u64) -> int {
    if legal_moves(m, o) == 0 {
        2
    } else {
        1
    }
}

/// Negamax value and chosen move for the mover `m` against `o`, searched
/// `depth` plies deep within the window `(alpha, beta)`, with `left` empty
/// squares.
pub open spec fn search(m: u64, o: u64, depth: int, alpha: int, beta: int, left: int) -> (
    int,
    Pmove,
)
    decreases depth, no_moves_flag(m, o), 0int,
{
    if depth <= 0 {
        (score(m, o, left), Pmove::Endnode)
    } else if legal_moves(m, o) == 0 {
        if popcount(m) == 0 {
            (eliminated(), Pmove::Endnode)
        } else if legal_moves(o, m) == 0 {
            (terminal_factor() * score(m, o, left), Pmove::Endnode)
        } else {
            (-search(o, m, depth, -beta, -alpha, left).0, Pmove::Nonenode)
        }
    } else {
        search_moves(m, o, depth, alpha, beta, left, squares_of(legal_moves(m, o)), 0, Pmove::Nonenode)
    }
}

/// The move loop of `search`: tries the moves `sq[i..]` in order, keeping
/// the best value found so far in `alpha` and stopping once it reaches
/// `beta`.
pub open spec fn search_moves(
    m: u64,
    o: u64,
    depth: int,
    alpha: int,
    beta: int,
    left: int,
    sq: Seq<u64>,
    i: int,
    action: Pmove,
) -> (int, Pmove)
    decreases depth, 0int, sq.len() - i,
{
    if depth <= 0 || i < 0 || i >= sq.len() {
        (alpha, action)
    } else {
        let p = sq[i];
        let f = flips(m, o, p);
        let s = neg_sat(search(o ^ f, m ^ (p | f), depth - 1, -beta, -alpha, after_move(left)).0);
        let a2 = if s > alpha { s } else { alpha };
        let act2 = if s > alpha { Pmove::Pvmove(p) } else { action };
        if a2 >= beta {
            (a2, act2)
        } else {
            search_moves(m, o, depth, a2, beta, left, sq, i + 1, act2)
        }
    }
}

/// Negamax search: returns the value of the position for `black` (the side
/// to move) and the move that reached it.
pub fn alphabeta_s(black: u64, white: u64, depth: i32, alpha: i32, beta: i32, left: usize) -> (r: (
    i32,
    Pmove,
))
    requires
        alpha > i32::MIN,
        beta > i32::MIN,
    ensures
        r.0 == search(black, white, depth as int, alpha as int, beta as int, left as int).0,
        r.1 == search(black, white, depth as int, alpha as int, beta as int, left as int).1,
        r.0 > i32::MIN,
    decreases depth, no_moves_flag(black, white),
{
    if depth <= 0 {
        return (eval_all(black, white, left), Pmove::Endnode);
    }
    let all = can_locate(black, white);
    if all == 0 {
        proof {
            lemma_popcount_zero(black);
        }
        if black == 0 {
            return (i32::MIN + 10, Pmove::Endnode);
        }
        if can_locate(white, black) == 0 {
            return (1000 * eval_all(black, white, left), Pmove::Endnode);
        }
        let (score, _) = alphabeta_s(white, black, depth, -beta, -alpha, left);
        return (-score, Pmove::Nonenode);
    }
    let ghost sq = squares_of(all);
    let next_left: usize = if left > 0 { left - 1 } else { 0 };
    let mut can_move_point = all;
    let mut a = alpha;
    let mut action = Pmove::Nonenode;
    let ghost mut i: int = 0;
    while can_move_point != 0
        invariant
            0 <= i <= sq.len(),
            squares_of(can_move_point) == sq.subrange(i, sq.len() as int),
            sq == squares_of(all),
            all == legal_moves(black, white),
            depth > 0,
            beta > i32::MIN,
            a > i32::MIN,
            next_left == after_move(left as int),
            search(black, white, depth as int, alpha as int, beta as int, left as int)
                == search_moves(black, white, depth as int, a as int, beta as int, left as int, sq, i, action),
        decreases can_move_point,
    {
        proof {
            lemma_squares_of_step(can_move_point);
            assert(squares_of(can_move_point).len() >= 1);
            assert(i < sq.len());
            assert(sq[i] == squares_of(can_move_point)[0]);
            let rest = squares_of(can_move_point ^ low_bit(can_move_point));
            let sub = sq.subrange(i, sq.len() as int);
            assert(sub == seq![low_bit(can_move_point)] + rest);
            assert forall|j: int| 0 <= j < rest.len() implies rest[j] == sq[i + 1 + j] by {
                assert(sub[j + 1] == rest[j]);
            }
            assert(rest =~= sq.subrange(i + 1, sq.len() as int));
        }
        let put_posi = lowest_bit(can_move_point);
        let rever_pat = get_rev_pat(black, white, put_posi);
        let (child, _) = alphabeta_s(
            white ^ rever_pat,
            black ^ (put_posi | rever_pat),
            depth - 1,
            -beta,
            -a,
            next_left,
        );
        let score = if child == i32::MIN { i32::MAX - 1 } else { -child };
        can_move_point = can_move_point ^ put_posi;
        if score > a {
            a = score;
            action = Pmove::Pvmove(put_posi);
        }
        proof {
            i = i + 1;
        }
        if a >= beta {
            return (a, action);
        }
    }
    proof {
        assert(sq.subrange(i, sq.len() as int).len() == 0);
    }
    (a, action)
}


/// Search depth for a position with `left` empty squares: exhaustive near
/// the end of the game, fixed before that.
pub open spec fn search_depth(left: int) -> int {
    if left < ENDGAME_EMPTIES {
        left
    } else {
        READING_LEVEL as int
    }
}

/// The move chosen by `alphabeta`: the searched move when the search found
/// one, otherwise the first legal placement, or a pass when there is none.
pub open spec fn decide(m: u64, o: u64, left: int) -> Pmove {
    let found = search(m, o, search_depth(left), eliminated(), i32::MAX - 10, left).1;
    match found {
        Pmove::Pvmove(p) => Pmove::Pvmove(p),
        _ => if legal_moves(m, o) == 0 {
            Pmove::Passmove
        } else {
            Pmove::Pvmove(low_bit(legal_moves(m, o)))
        },
    }
}

proof fn lemma_search_moves_action(
    m: u64,
    o: u64,
    depth: int,
    alpha: int,
    beta: int,
    left: int,
    sq: Seq<u64>,
    i: int,
    action: Pmove,
)
    requires
        0 <= i,
    ensures
        ({
            let r = search_moves(m, o, depth, alpha, beta, left, sq, i, action).1;
            r == action || exists|j: int| i <= j < sq.len() && r == Pmove::Pvmove(sq[j])
        }),
    decreases sq.len() - i,
{
    if depth > 0 && i < sq.len() {
        let p = sq[i];
        let f = flips(m, o, p);
        let s = neg_sat(search(o ^ f, m ^ (p | f), depth - 1, -beta, -alpha, after_move(left)).0);
        let a2 = if s > alpha { s } else { alpha };
        let act2 = if s > alpha { Pmove::Pvmove(p) } else { action };
        if a2 < beta {
            lemma_search_moves_action(m, o, depth, a2, beta, left, sq, i + 1, act2);
        }
    }
}

/// The move played by the negamax search for `black` (the side to move)
/// with `left` empty squares: a pass exactly when no placement is legal,
/// otherwise one of the legal placements.
pub fn alphabeta(black: u64, white: u64, left: usize) -> (r: Pmove)
    ensures
        r == decide(black, white, left as int),
        r == Pmove::Passmove <==> legal_moves(black, white) == 0,
        r != Pmove::Passmove ==> exists|j: int|
            0 <= j < squares_of(legal_moves(black, white)).len() && r == Pmove::Pvmove(
                squares_of(legal_moves(black, white))[j],
            ),
{
    let depth: i32 = if left < ENDGAME_EMPTIES {
        left as i32
    } else {
        READING_LEVEL
    };
    let (_, found) = alphabeta_s(black, white, depth, i32::MIN + 10, i32::MAX - 10, left);
    let all = can_locate(black, white);
    proof {
        let sq = squares_of(all);
        if depth > 0 && all != 0 {
            lemma_search_moves_action(black, white, depth as int, eliminated(), i32::MAX - 10,
                left as int, sq, 0, Pmove::Nonenode);
        }
        if all != 0 {
            lemma_squares_of_step(all);
            assert(sq[0] == low_bit(all));
        }
    }
    match found {
        Pmove::Pvmove(p) => Pmove::Pvmove(p),
        _ => if all == 0 {
            Pmove::Passmove
        } else {
            Pmove::Pvmove(lowest_bit(all))
        },
    }
}

proof fn lemma_table_sum_antisymmetric(m: u64, o: u64, n: nat)
    requires
        m & o == 0,
        n <= 64,
    ensures
        table_sum(m, o, n) == -table_sum(o, m, n),
    decreases n,
{
    if n > 0 {
        let i = (n - 1) as u64;
        lemma_table_sum_antisymmetric(m, o, (n - 1) as nat);
        assert(!(bit(m, i) && bit(o, i))) by (bit_vector)
            requires
                m & o == 0,
                i < 64,
        ;
    }
}

/// The static score of a position is the negation of the score with the
/// sides exchanged.
pub proof fn lemma_score_antisymmetric(m: u64, o: u64, left: int)
    requires
        m & o == 0,
    ensures
        score(m, o, left) == -score(o, m, left),
{
    lemma_table_sum_antisymmetric(m, o, 64);
    assert(!(m | o) == !(o | m)) by (bit_vector);
}

/// Once neither side can place a disc the search stops: it returns the
/// elimination value when the mover has no disc, else the final score
/// scaled above every heuristic score, and never looks further.
pub proof fn lemma_terminal_position(m: u64, o: u64, depth: int, alpha: int, beta: int, left: int)
    requires
        depth > 0,
        legal_moves(m, o) == 0,
        legal_moves(o, m) == 0,
    ensures
        search(m, o, depth, alpha, beta, left) == if m == 0 {
            (eliminated(), Pmove::Endnode)
        } else {
            (terminal_factor() * score(m, o, left), Pmove::Endnode)
        },
{
    lemma_popcount_zero(m);
}

/// A mover without discs is scored as eliminated, whatever the depth.
pub proof fn lemma_eliminated_mover(o: u64, depth: int, alpha: int, beta: int, left: int)
    requires
        depth > 0,
    ensures
        search(0, o, depth, alpha, beta, left) == (eliminated(), Pmove::Endnode),
{
    lemma_popcount_zero(0);
    assert(legal_moves(0, o) == 0) by (bit_vector);
}

/// Negamax symmetry of the search value, on the positions where the search
/// does not expand a move: at depth zero, and when neither side can move
/// and both still have discs.
pub proof fn lemma_negamax_symmetry(m: u64, o: u64, depth: int, alpha: int, beta: int, left: int)
    requires
        m & o == 0,
        depth <= 0 || (legal_moves(m, o) == 0 && legal_moves(o, m) == 0 && m != 0 && o != 0),
    ensures
        search(m, o, depth, alpha, beta, left).0 == -search(o, m, depth, -beta, -alpha, left).0,
{
    lemma_score_antisymmetric(m, o, left);
    lemma_popcount_zero(m);
    lemma_popcount_zero(o);
    if depth > 0 {
        assert(terminal_factor() * score(m, o, left) == -(terminal_factor() * score(o, m, left)));
    }
}

} // verus!
