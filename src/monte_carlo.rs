//! Random playouts, the flat Monte Carlo strategy and a UCB1 tree search.

use vstd::prelude::*;
use rand::rngs::StdRng;
use crate::bitboard::{
    can_locate, flips, get_rev_pat, legal_moves, lemma_legal_moves_empty,
    lemma_place_progress, lemma_popcount_bound, lemma_squares_of_elements, make_legal_actions,
    pop_count, popcount, progress, squares_of,
};
use crate::player::Pmove;

verus! {

#[verifier::external_type_specification]
#[verifier::external_body]
pub struct ExStdRng(rand::rngs::StdRng);

/// Relies on rand's `SeedableRng::from_entropy` for `StdRng`: a generator
/// seeded from the operating system.
#[verifier::external_body]
pub(crate) fn fresh_rng() -> StdRng {
    <StdRng as rand::SeedableRng>::from_entropy()
}

/// Relies on rand's `SliceRandom::choose`: on a non-empty slice it returns
/// one of its elements, drawn uniformly.
#[verifier::external_body]
fn choose_action(rng: &mut StdRng, actions: &Vec<u64>) -> (r: u64)
    requires
        actions.len() > 0,
    ensures
        actions@.contains(r),
{
    *rand::seq::SliceRandom::choose(actions.as_slice(), rng).unwrap()
}

/// Result of a finished game for the mover: 1 for more discs, -1 for
/// fewer, 0 for a draw.
pub open spec fn outcome(m: u64, o: u64) -> int {
    if popcount(m) > popcount(o) {
        1
    } else if popcount(m) < popcount(o) {
        -1
    } else {
        0
    }
}

fn outcome_exec(m: u64, o: u64) -> (r: i32)
    ensures
        r == outcome(m, o),
{
    let a = pop_count(m);
    let b = pop_count(o);
    if a > b {
        1
    } else if a < b {
        -1
    } else {
        0
    }
}

/// Whether `r` is the result, for the mover `m`, of some game played on
/// from (`m`, `o`) with legal placements and forced passes only, lasting at
/// most `fuel` turns: the final disc outcome, negated once per turn.
pub open spec fn playout(m: u64, o: u64, r: int, fuel: nat) -> bool
    decreases fuel,
{
    if fuel == 0 {
        false
    } else if legal_moves(m, o) == 0 {
        if legal_moves(o, m) == 0 {
            r == outcome(m, o)
        } else {
            playout(o, m, -r, (fuel - 1) as nat)
        }
    } else {
        exists|j: int|
            0 <= j < squares_of(legal_moves(m, o)).len() && playout(
                next_position(m, o, #[trigger] squares_of(legal_moves(m, o))[j]).0,
                next_position(m, o, squares_of(legal_moves(m, o))[j]).1,
                -r,
                (fuel - 1) as nat,
            )
    }
}

/// Plays uniformly random legal moves from the position until the game
/// ends, passing when forced, and returns the result for the starting
/// mover (1, 0 or -1). A finished position is scored at once.
pub fn rollout(rng: &mut StdRng, my_piece: u64, en_piece: u64) -> (r: i32)
    requires
        my_piece & en_piece == 0,
    ensures
        -1 <= r <= 1,
        legal_moves(my_piece, en_piece) == 0 && legal_moves(en_piece, my_piece) == 0 ==> r
            == outcome(my_piece, en_piece),
        exists|fuel: nat| playout(my_piece, en_piece, r as int, fuel),
{
    let mut m = my_piece;
    let mut o = en_piece;
    let mut sign: i32 = 1;
    let ghost mut first = true;
    let ghost mut k: nat = 0;
    loop
        invariant
            m & o == 0,
            sign == 1 || sign == -1,
            first ==> m == my_piece && o == en_piece && sign == 1,
            !first ==> !(legal_moves(my_piece, en_piece) == 0 && legal_moves(en_piece, my_piece)
                == 0),
            forall|r: int, f: nat|
                #[trigger] playout(m, o, r, f) ==> playout(my_piece, en_piece, sign * r, f + k),
        decreases progress(m, o),
    {
        let moves = make_legal_actions(m, o);
        proof {
            lemma_popcount_bound(m | o);
            if legal_moves(m, o) != 0 {
                crate::bitboard::lemma_squares_of_step(legal_moves(m, o));
            }
        }
        if moves.len() == 0 {
            if can_locate(o, m) == 0 {
                let res = sign * outcome_exec(m, o);
                proof {
                    assert(playout(m, o, outcome(m, o), 1));
                    assert(playout(my_piece, en_piece, res as int, 1 + k));
                }
                return res;
            }
            proof {
                assert forall|r: int, f: nat| #[trigger] playout(o, m, r, f) implies playout(
                    my_piece,
                    en_piece,
                    (-sign) * r,
                    f + (k + 1),
                ) by {
                    assert(playout(m, o, -r, f + 1));
                    assert(sign * (-r) == (-sign) * r);
                    assert(f + 1 + k == f + (k + 1));
                }
            }
            assert(o | m == m | o) by (bit_vector);
            assert(o & m == 0) by (bit_vector)
                requires
                    m & o == 0,
            ;
            let t = m;
            m = o;
            o = t;
        } else {
            let mv = choose_action(rng, &moves);
            proof {
                lemma_squares_of_elements(legal_moves(m, o));
                lemma_legal_moves_empty(m, o);
                let j = choose|j: int| 0 <= j < moves@.len() && moves@[j] == mv;
                let lm = legal_moves(m, o);
                assert(mv & (m | o) == 0) by (bit_vector)
                    requires
                        mv & !lm == 0,
                        lm & (m | o) == 0,
                ;
                lemma_place_progress(m, o, mv);
                assert(squares_of(legal_moves(m, o))[j] == mv);
                let (pm, po) = next_position(m, o, mv);
                assert forall|r: int, f: nat| #[trigger] playout(pm, po, r, f) implies playout(
                    my_piece,
                    en_piece,
                    (-sign) * r,
                    f + (k + 1),
                ) by {
                    assert(playout(m, o, -r, f + 1));
                    assert(sign * (-r) == (-sign) * r);
                    assert(f + 1 + k == f + (k + 1));
                }
            }
            let f = get_rev_pat(m, o, mv);
            let nm = o ^ f;
            let no = m ^ (mv | f);
            m = nm;
            o = no;
        }
        sign = -sign;
        proof {
            first = false;
            k = k + 1;
        }
    }
}


/// Number of playouts per candidate move in the flat Monte Carlo strategy.
pub const PLAYOUTS: u32 = 200;

/// Index of the first largest value.
pub fn first_max_index(values: &Vec<i32>) -> (r: usize)
    requires
        values.len() > 0,
    ensures
        r < values.len(),
        forall|j: int| 0 <= j < values.len() ==> values[j] <= values[r as int],
        forall|j: int| 0 <= j < r ==> values[j] < values[r as int],
{
    let mut best: usize = 0;
    let mut i: usize = 1;
    while i < values.len()
        invariant
            0 < i <= values.len(),
            best < i,
            forall|j: int| 0 <= j < i ==> values[j] <= values[best as int],
            forall|j: int| 0 <= j < best ==> values[j] < values[best as int],
        decreases values.len() - i,
    {
        if values[i] > values[best] {
            best = i;
        }
        i = i + 1;
    }
    best
}

/// The position after the mover `m` places on `mv`, from the new mover's
/// side: (opponent after flips, mover with the new disc and the flips).
pub open spec fn next_position(m: u64, o: u64, mv: u64) -> (u64, u64) {
    let f = flips(m, o, mv);
    (o ^ f, m ^ (mv | f))
}

pub(crate) fn play(m: u64, o: u64, mv: u64) -> (r: (u64, u64))
    requires
        m & o == 0,
        squares_of(legal_moves(m, o)).contains(mv),
    ensures
        r == next_position(m, o, mv),
        r.0 & r.1 == 0,
        progress(r.0, r.1) < progress(m, o),
{
    proof {
        lemma_squares_of_elements(legal_moves(m, o));
        lemma_legal_moves_empty(m, o);
        let lm = legal_moves(m, o);
        assert(mv & (m | o) == 0) by (bit_vector)
            requires
                mv & !lm == 0,
                lm & (m | o) == 0,
        ;
        lemma_place_progress(m, o, mv);
    }
    let f = get_rev_pat(m, o, mv);
    (o ^ f, m ^ (mv | f))
}

/// `r` is the result of some playout from (`m`, `o`).
pub open spec fn is_playout(m: u64, o: u64, r: int) -> bool {
    exists|fuel: nat| playout(m, o, r, fuel)
}

/// Sum of a sequence of results.
pub open spec fn seq_sum(rs: Seq<int>) -> int
    decreases rs.len(),
{
    if rs.len() == 0 {
        0
    } else {
        seq_sum(rs.drop_last()) + rs.last()
    }
}

/// `rs` holds `PLAYOUTS` playout results from (`m`, `o`).
pub open spec fn playout_results(m: u64, o: u64, rs: Seq<int>) -> bool {
    &&& rs.len() == PLAYOUTS
    &&& forall|j: int| 0 <= j < rs.len() ==> is_playout(m, o, #[trigger] rs[j])
}

/// `total` is minus the sum of `PLAYOUTS` playout results from the
/// position after the mover `m` places on `mv`.
pub open spec fn playout_total(m: u64, o: u64, mv: u64, total: int) -> bool {
    exists|rs: Seq<int>|
        #[trigger] playout_results(next_position(m, o, mv).0, next_position(m, o, mv).1, rs) && total
            == -seq_sum(rs)
}

/// Index `i` holds the first largest value of `t`.
pub open spec fn is_first_max(t: Seq<i32>, i: int) -> bool {
    &&& 0 <= i < t.len()
    &&& forall|j: int| 0 <= j < t.len() ==> t[j] <= t[i]
    &&& forall|j: int| 0 <= j < i ==> t[j] < t[i]
}

/// Totals that flat Monte Carlo may give the legal moves `sq` of the mover
/// `m` against `o`: one per move, each the negated sum of `PLAYOUTS`
/// playout results, so within `-PLAYOUTS ..= PLAYOUTS`; a move that ends
/// the game totals `-PLAYOUTS` times the outcome for the side to move after it.
pub open spec fn flat_totals(m: u64, o: u64, sq: Seq<u64>, t: Seq<i32>) -> bool {
    &&& t.len() == sq.len()
    &&& forall|i: int| 0 <= i < t.len() ==> playout_total(m, o, sq[i], #[trigger] t[i] as int)
    &&& forall|i: int| 0 <= i < t.len() ==> -(PLAYOUTS as int) <= #[trigger] t[i] <= PLAYOUTS
    &&& forall|i: int|
        0 <= i < t.len() && legal_moves(next_position(m, o, sq[i]).0, next_position(m, o, sq[i]).1)
            == 0 && legal_moves(next_position(m, o, sq[i]).1, next_position(m, o, sq[i]).0) == 0
            ==> #[trigger] t[i] == -(PLAYOUTS as int) * outcome(
            next_position(m, o, sq[i]).0,
            next_position(m, o, sq[i]).1,
        )
}

/// Flat Monte Carlo for the mover `black`: every legal move is scored by
/// the sum of `PLAYOUTS` random playouts from the position it leads to, and
/// the first best-scoring move is played. A pass when there is no legal
/// move; the only move when there is one.
pub fn primitive_montecarlo_s(rng: &mut StdRng, black: u64, white: u64) -> (r: Pmove)
    requires
        black & white == 0,
    ensures
        r == Pmove::Passmove <==> legal_moves(black, white) == 0,
        squares_of(legal_moves(black, white)).len() == 1 ==> r == Pmove::Pvmove(
            squares_of(legal_moves(black, white))[0],
        ),
        r != Pmove::Passmove ==> exists|j: int|
            0 <= j < squares_of(legal_moves(black, white)).len() && r == Pmove::Pvmove(
                squares_of(legal_moves(black, white))[j],
            ),
        squares_of(legal_moves(black, white)).len() >= 2 ==> exists|t: Seq<i32>, i: int|
            flat_totals(black, white, squares_of(legal_moves(black, white)), t) && #[trigger] is_first_max(t, i)
                && r == Pmove::Pvmove(squares_of(legal_moves(black, white))[i]),
{
    let actions = make_legal_actions(black, white);
    proof {
        if legal_moves(black, white) != 0 {
            crate::bitboard::lemma_squares_of_step(legal_moves(black, white));
        }
    }
    if actions.len() == 0 {
        return Pmove::Passmove;
    }
    if actions.len() == 1 {
        return Pmove::Pvmove(actions[0]);
    }
    let mut values: Vec<i32> = Vec::new();
    let mut k: usize = 0;
    while k < actions.len()
        invariant
            black & white == 0,
            actions@ == squares_of(legal_moves(black, white)),
            k <= actions.len(),
            values.len() == k,
            forall|i: int| 0 <= i < k ==> -(PLAYOUTS as int) <= #[trigger] values@[i] <= PLAYOUTS,
            forall|i: int| 0 <= i < k ==> playout_total(black, white, actions@[i], #[trigger] values@[i] as int),
            forall|i: int|
                0 <= i < k && legal_moves(next_position(black, white, actions@[i]).0, next_position(black, white, actions@[i]).1)
                    == 0 && legal_moves(next_position(black, white, actions@[i]).1, next_position(black, white, actions@[i]).0) == 0
                    ==> #[trigger] values@[i] == -(PLAYOUTS as int) * outcome(
                    next_position(black, white, actions@[i]).0,
                    next_position(black, white, actions@[i]).1,
                ),
        decreases actions.len() - k,
    {
        let action = actions[k];
        assert(actions@.contains(action)) by {
            assert(actions@[k as int] == action);
        }
        let (nm, no) = play(black, white, action);
        let mut total_value: i32 = 0;
        let mut n: u32 = 0;
        let ghost mut rs: Seq<int> = Seq::empty();
        while n < PLAYOUTS
            invariant
                rs.len() == n,
                forall|j: int| 0 <= j < rs.len() ==> is_playout(nm, no, #[trigger] rs[j]),
                total_value == -seq_sum(rs),
                nm & no == 0,
                n <= PLAYOUTS,
                -(n as int) <= total_value <= n,
                legal_moves(nm, no) == 0 && legal_moves(no, nm) == 0 ==> total_value == -(n as int)
                    * outcome(nm, no),
            decreases PLAYOUTS - n,
        {
            let v = rollout(rng, nm, no);
            total_value = total_value - v;
            proof {
                let rs2 = rs.push(v as int);
                assert(rs2.drop_last() =~= rs);
                assert(is_playout(nm, no, v as int));
                assert forall|j: int| 0 <= j < rs2.len() implies is_playout(nm, no, #[trigger] rs2[j]) by {
                    if j < rs.len() {
                        assert(rs2[j] == rs[j]);
                    }
                }
                rs = rs2;
                let oc = outcome(nm, no);
                let nn = n as int;
                assert(-nn * oc - oc == -(nn + 1) * oc) by (nonlinear_arith);
            }
            n = n + 1;
        }
        proof {
            assert(playout_results(nm, no, rs));
        }
        values.push(total_value);
        proof {
            assert(values@[k as int] == total_value);
            assert(playout_results(nm, no, rs));
            assert(playout_total(black, white, action, total_value as int));
        }
        k = k + 1;
    }
    let best = first_max_index(&values);
    proof {
        assert(flat_totals(black, white, actions@, values@));
        assert(is_first_max(values@, best as int));
    }
    Pmove::Pvmove(actions[best])
}

/// Flat Monte Carlo move for `black` (the side to move) against `white`,
/// with a freshly seeded random source.
pub fn primitive_montecarlo(black: u64, white: u64, _left: usize) -> (r: Pmove)
    requires
        black & white == 0,
    ensures
        r == Pmove::Passmove <==> legal_moves(black, white) == 0,
        squares_of(legal_moves(black, white)).len() == 1 ==> r == Pmove::Pvmove(
            squares_of(legal_moves(black, white))[0],
        ),
        r != Pmove::Passmove ==> exists|j: int|
            0 <= j < squares_of(legal_moves(black, white)).len() && r == Pmove::Pvmove(
                squares_of(legal_moves(black, white))[j],
            ),
        squares_of(legal_moves(black, white)).len() >= 2 ==> exists|t: Seq<i32>, i: int|
            flat_totals(black, white, squares_of(legal_moves(black, white)), t) && #[trigger] is_first_max(t, i)
                && r == Pmove::Pvmove(squares_of(legal_moves(black, white))[i]),
{
    let mut rng = fresh_rng();
    primitive_montecarlo_s(&mut rng, black, white)
}

} // verus!
