//! Bitboard primitives: disc counting, legal-move generation, disc flipping
//! and the square / coordinate notation.
//!
//! Bit `i` of a mask is the square on row `7 - i / 8` and file `7 - i % 8`
//! (file 0 is `A`, row 0 is rank `1`).

use vstd::prelude::*;

verus! {

/// Whether bit `i` of `x` is set.
pub open spec fn bit(x: u64, i: u64) -> bool {
    (x >> i) & 1 == 1
}

/// Number of set bits among the low `n` bits of `x`.
pub open spec fn pop_upto(x: u64, n: nat) -> nat
    decreases n,
{
    if n == 0 {
        0
    } else {
        pop_upto(x, (n - 1) as nat) + if bit(x, (n - 1) as u64) { 1nat } else { 0nat }
    }
}

/// Number of set bits of `x` (the number of discs on a mask).
pub open spec fn popcount(x: u64) -> nat {
    pop_upto(x, 64)
}

pub proof fn lemma_pop_upto_bound(x: u64, n: nat)
    ensures
        pop_upto(x, n) <= n,
    decreases n,
{
    if n > 0 {
        lemma_pop_upto_bound(x, (n - 1) as nat);
    }
}

/// The number of discs on a mask is at most 64.
pub proof fn lemma_popcount_bound(x: u64)
    ensures
        popcount(x) <= 64,
{
    lemma_pop_upto_bound(x, 64);
}

proof fn lemma_pop_upto_or(a: u64, b: u64, n: nat)
    requires
        a & b == 0,
        n <= 64,
    ensures
        pop_upto(a | b, n) == pop_upto(a, n) + pop_upto(b, n),
    decreases n,
{
    if n > 0 {
        let i = (n - 1) as u64;
        lemma_pop_upto_or(a, b, (n - 1) as nat);
        assert(bit(a | b, i) == (bit(a, i) || bit(b, i))) by (bit_vector)
            requires
                i < 64,
        ;
        assert(!(bit(a, i) && bit(b, i))) by (bit_vector)
            requires
                a & b == 0,
                i < 64,
        ;
    }
}

/// Disjoint masks: the count of the union is the sum of the counts.
pub proof fn lemma_popcount_or(a: u64, b: u64)
    requires
        a & b == 0,
    ensures
        popcount(a | b) == popcount(a) + popcount(b),
{
    lemma_pop_upto_or(a, b, 64);
}

proof fn lemma_pop_upto_subset(a: u64, b: u64, n: nat)
    requires
        a & !b == 0,
        n <= 64,
    ensures
        pop_upto(a, n) <= pop_upto(b, n),
    decreases n,
{
    if n > 0 {
        let i = (n - 1) as u64;
        lemma_pop_upto_subset(a, b, (n - 1) as nat);
        assert(bit(a, i) ==> bit(b, i)) by (bit_vector)
            requires
                a & !b == 0,
                i < 64,
        ;
    }
}

/// A mask contained in another has no more set bits.
pub proof fn lemma_popcount_subset(a: u64, b: u64)
    requires
        a & !b == 0,
    ensures
        popcount(a) <= popcount(b),
{
    lemma_pop_upto_subset(a, b, 64);
}

proof fn lemma_pop_upto_zero(n: nat)
    requires
        n <= 64,
    ensures
        pop_upto(0, n) == 0,
    decreases n,
{
    if n > 0 {
        let i = (n - 1) as u64;
        lemma_pop_upto_zero((n - 1) as nat);
        assert(!bit(0, i)) by (bit_vector);
    }
}

proof fn lemma_pop_upto_has_bit(x: u64, i: u64, n: nat)
    requires
        bit(x, i),
        i < n <= 64,
    ensures
        pop_upto(x, n) >= 1,
    decreases n,
{
    if n - 1 > i {
        lemma_pop_upto_has_bit(x, i, (n - 1) as nat);
    }
}

/// A mask has no set bit exactly when it is zero.
pub proof fn lemma_popcount_zero(x: u64)
    ensures
        popcount(x) == 0 <==> x == 0,
{
    if x == 0 {
        lemma_pop_upto_zero(64);
    } else {
        let tz = vstd::std_specs::bits::u64_trailing_zeros(x);
        vstd::std_specs::bits::axiom_u64_trailing_zeros(x);
        let t = tz as u64;
        assert(bit(x, t));
        lemma_pop_upto_has_bit(x, t, 64);
    }
}

/// Counts the set bits of `x`.
pub fn pop_count(x: u64) -> (r: u32)
    ensures
        r as nat == popcount(x),
        r <= 64,
{
    let mut c: u32 = 0;
    let mut i: u64 = 0;
    while i < 64
        invariant
            i <= 64,
            c as nat == pop_upto(x, i as nat),
        decreases 64 - i,
    {
        proof {
            lemma_pop_upto_bound(x, i as nat);
        }
        if (x >> i) & 1 == 1 {
            c = c + 1;
        }
        i = i + 1;
    }
    proof {
        lemma_pop_upto_bound(x, 64);
    }
    c
}


// ---------------------------------------------------------------------
// Legal moves
// ---------------------------------------------------------------------

/// Opponent discs that can be flipped along the two diagonals.
pub const DIAG_INNER: u64 = 0x007e_7e7e_7e7e_7e00;

/// Opponent discs that can be flipped along a row.
pub const ROW_INNER: u64 = 0x7e7e_7e7e_7e7e_7e7e;

/// Opponent discs that can be flipped along a column.
pub const COL_INNER: u64 = 0x00ff_ffff_ffff_ff00;

pub open spec fn shift(x: u64, s: u64, right: bool) -> u64 {
    if right {
        x >> s
    } else {
        x << s
    }
}

/// Opponent discs `w` (already restricted to the inner squares of an axis)
/// that lie on a run starting next to a mover disc of `b`, extended up to
/// six times in one direction.
pub open spec fn run_chain(b: u64, w: u64, s: u64, right: bool) -> u64 {
    let t1 = w & shift(b, s, right);
    let t2 = t1 | (w & shift(t1, s, right));
    let t3 = t2 | (w & shift(t2, s, right));
    let t4 = t3 | (w & shift(t3, s, right));
    let t5 = t4 | (w & shift(t4, s, right));
    t5 | (w & shift(t5, s, right))
}

/// Empty squares reached by stepping once more past such a run.
pub open spec fn moves_dir(b: u64, w: u64, s: u64, inner: u64, right: bool) -> u64 {
    !(b | w) & shift(run_chain(b, w & inner, s, right), s, right)
}

/// Legal placements of the mover `b` against the opponent `w`: empty squares
/// from which a straight line of one or more opponent discs ends on a mover
/// disc, in any of the eight directions.
pub open spec fn legal_moves(b: u64, w: u64) -> u64 {
    moves_dir(b, w, 7, DIAG_INNER, true) | moves_dir(b, w, 7, DIAG_INNER, false)
        | moves_dir(b, w, 9, DIAG_INNER, true) | moves_dir(b, w, 9, DIAG_INNER, false)
        | moves_dir(b, w, 8, COL_INNER, true) | moves_dir(b, w, 8, COL_INNER, false)
        | moves_dir(b, w, 1, ROW_INNER, true) | moves_dir(b, w, 1, ROW_INNER, false)
}

fn moves_in_direction(b: u64, w: u64, s: u64, inner: u64, right: bool) -> (r: u64)
    requires
        s < 64,
    ensures
        r == moves_dir(b, w, s, inner, right),
{
    let wm = w & inner;
    let blank = !(b | w);
    if right {
        let mut t = wm & (b >> s);
        t = t | (wm & (t >> s));
        t = t | (wm & (t >> s));
        t = t | (wm & (t >> s));
        t = t | (wm & (t >> s));
        t = t | (wm & (t >> s));
        blank & (t >> s)
    } else {
        let mut t = wm & (b << s);
        t = t | (wm & (t << s));
        t = t | (wm & (t << s));
        t = t | (wm & (t << s));
        t = t | (wm & (t << s));
        t = t | (wm & (t << s));
        blank & (t << s)
    }
}

/// The mask of legal placements for `black` (the side to move) against
/// `white`. It never meets an occupied square.
pub fn can_locate(black: u64, white: u64) -> (r: u64)
    ensures
        r == legal_moves(black, white),
        r & (black | white) == 0,
        black & white == 0 ==> forall|k: u64|
            k < 64 && (1u64 << k) & (black | white) == 0 ==> (r & (1u64 << k) != 0 <==> flips(
                black,
                white,
                1u64 << k,
            ) != 0),
{
    let m0 = moves_in_direction(black, white, 7, DIAG_INNER, true);
    let m1 = moves_in_direction(black, white, 7, DIAG_INNER, false);
    let m2 = moves_in_direction(black, white, 9, DIAG_INNER, true);
    let m3 = moves_in_direction(black, white, 9, DIAG_INNER, false);
    let m4 = moves_in_direction(black, white, 8, COL_INNER, true);
    let m5 = moves_in_direction(black, white, 8, COL_INNER, false);
    let m6 = moves_in_direction(black, white, 1, ROW_INNER, true);
    let m7 = moves_in_direction(black, white, 1, ROW_INNER, false);
    let r = m0 | m1 | m2 | m3 | m4 | m5 | m6 | m7;
    proof {
        lemma_legal_moves_empty(black, white);
        if black & white == 0 {
            assert forall|k: u64| k < 64 && (1u64 << k) & (black | white) == 0 implies (r & (1u64
                << k) != 0 <==> flips(black, white, 1u64 << k) != 0) by {
                lemma_flips_iff_legal(black, white, k);
            }
        }
    }
    r
}

/// Legal placements are always empty squares.
pub proof fn lemma_legal_moves_empty(b: u64, w: u64)
    ensures
        legal_moves(b, w) & (b | w) == 0,
{
    let occ = b | w;
    let y0 = shift(run_chain(b, w & DIAG_INNER, 7, true), 7, true);
    let y1 = shift(run_chain(b, w & DIAG_INNER, 7, false), 7, false);
    let y2 = shift(run_chain(b, w & DIAG_INNER, 9, true), 9, true);
    let y3 = shift(run_chain(b, w & DIAG_INNER, 9, false), 9, false);
    let y4 = shift(run_chain(b, w & COL_INNER, 8, true), 8, true);
    let y5 = shift(run_chain(b, w & COL_INNER, 8, false), 8, false);
    let y6 = shift(run_chain(b, w & ROW_INNER, 1, true), 1, true);
    let y7 = shift(run_chain(b, w & ROW_INNER, 1, false), 1, false);
    assert(((!occ & y0) | (!occ & y1) | (!occ & y2) | (!occ & y3) | (!occ & y4) | (!occ & y5)
        | (!occ & y6) | (!occ & y7)) & occ == 0) by (bit_vector);
}

/// The legal placements of `my_pieces`, one single-square mask each, from
/// the lowest bit to the highest.
pub fn make_legal_actions(my_pieces: u64, en_pieces: u64) -> (r: Vec<u64>)
    ensures
        r@ == squares_of(legal_moves(my_pieces, en_pieces)),
{
    let mut actions: Vec<u64> = Vec::new();
    let all = can_locate(my_pieces, en_pieces);
    let mut can_moves = all;
    while can_moves != 0
        invariant
            actions@ + squares_of(can_moves) == squares_of(all),
            all == legal_moves(my_pieces, en_pieces),
        decreases can_moves,
    {
        let put_posi = lowest_bit(can_moves);
        proof {
            lemma_squares_of_step(can_moves);
        }
        actions.push(put_posi);
        can_moves = can_moves ^ put_posi;
        assert(actions@ + squares_of(can_moves) =~= squares_of(all));
    }
    proof {
        assert(squares_of(0) == Seq::<u64>::empty());
        assert(actions@ =~= actions@ + squares_of(can_moves));
    }
    actions
}

/// The lowest set bit of a nonzero mask.
pub open spec fn low_bit(x: u64) -> u64 {
    x & ((!x + 1) as u64)
}

/// The squares of a mask as single-bit masks, lowest first.
pub open spec fn squares_of(x: u64) -> Seq<u64>
    decreases x,
{
    if x == 0 {
        Seq::empty()
    } else {
        let l = low_bit(x);
        if (x ^ l) < x {
            seq![l] + squares_of(x ^ l)
        } else {
            Seq::empty()
        }
    }
}

pub(crate) proof fn lemma_low_bit(x: u64)
    requires
        x != 0,
    ensures
        !x < u64::MAX,
        low_bit(x) == x & ((!x + 1) as u64),
        (x ^ low_bit(x)) < x,
        low_bit(x) != 0,
        low_bit(x) & !x == 0,
        low_bit(x) & ((low_bit(x) - 1) as u64) == 0,
{
    assert(!x < 0xffff_ffff_ffff_ffffu64) by (bit_vector)
        requires
            x != 0,
    ;
    assert((x ^ (x & ((!x + 1) as u64))) < x) by (bit_vector)
        requires
            x != 0,
    ;
    assert((x & ((!x + 1) as u64)) != 0) by (bit_vector)
        requires
            x != 0,
    ;
    assert((x & ((!x + 1) as u64)) & !x == 0) by (bit_vector);
    let l = x & ((!x + 1) as u64);
    assert(l & ((l - 1) as u64) == 0) by (bit_vector)
        requires
            l == x & ((!x + 1) as u64),
            x != 0,
    ;
}

pub(crate) proof fn lemma_squares_of_step(x: u64)
    requires
        x != 0,
    ensures
        squares_of(x) == seq![low_bit(x)] + squares_of(x ^ low_bit(x)),
{
    lemma_low_bit(x);
}

pub(crate) fn lowest_bit(x: u64) -> (r: u64)
    requires
        x != 0,
    ensures
        r == low_bit(x),
{
    proof {
        lemma_low_bit(x);
    }
    x & (!x + 1)
}


// ---------------------------------------------------------------------
// Flipping
// ---------------------------------------------------------------------

/// One step in direction `d` (0..8): east, west, south, north, and the four
/// diagonals. Bits that would leave the board, or wrap to the other edge,
/// are dropped.
pub open spec fn step(x: u64, d: u64) -> u64 {
    if d == 0 {
        (x >> 1u64) & 0x7f7f_7f7f_7f7f_7f7f
    } else if d == 1 {
        (x << 1u64) & 0xfefe_fefe_fefe_fefe
    } else if d == 2 {
        (x << 8u64) & 0xffff_ffff_ffff_ff00
    } else if d == 3 {
        (x >> 8u64) & 0x00ff_ffff_ffff_ffff
    } else if d == 4 {
        (x << 7u64) & 0x7f7f_7f7f_7f7f_7f7f
    } else if d == 5 {
        (x >> 7u64) & 0xfefe_fefe_fefe_fefe
    } else if d == 6 {
        (x << 9u64) & 0xfefe_fefe_fefe_fefe
    } else {
        (x >> 9u64) & 0x7f7f_7f7f_7f7f_7f7f
    }
}

/// Squares of `o` walked over from `x` onwards in direction `d` (at most
/// `fuel` steps; eight steps always leave the board).
pub open spec fn run(o: u64, x: u64, d: u64, fuel: nat) -> u64
    decreases fuel,
{
    if fuel == 0 || x & o == 0 {
        0
    } else {
        x | run(o, step(x, d), d, (fuel - 1) as nat)
    }
}

/// The square where that walk stops: the first one not held by `o`
/// (zero when the walk left the board).
pub open spec fn run_end(o: u64, x: u64, d: u64, fuel: nat) -> u64
    decreases fuel,
{
    if fuel == 0 || x & o == 0 {
        x
    } else {
        run_end(o, step(x, d), d, (fuel - 1) as nat)
    }
}

/// Discs of `o` flipped in direction `d` by a disc placed on `mv`: the run
/// of opponent discs next to `mv`, kept only when it ends on a mover disc.
pub open spec fn flips_dir(m: u64, o: u64, mv: u64, d: u64) -> u64 {
    if run_end(o, step(mv, d), d, 8) & m != 0 {
        run(o, step(mv, d), d, 8)
    } else {
        0
    }
}

/// All discs of `o` flipped when the mover `m` places on `mv`; zero when
/// `mv` touches an occupied square.
pub open spec fn flips(m: u64, o: u64, mv: u64) -> u64 {
    if (m | o) & mv != 0 {
        0
    } else {
        flips_dir(m, o, mv, 0) | flips_dir(m, o, mv, 1) | flips_dir(m, o, mv, 2) | flips_dir(
            m,
            o,
            mv,
            3,
        ) | flips_dir(m, o, mv, 4) | flips_dir(m, o, mv, 5) | flips_dir(m, o, mv, 6) | flips_dir(
            m,
            o,
            mv,
            7,
        )
    }
}

fn step_exec(x: u64, d: u64) -> (r: u64)
    ensures
        r == step(x, d),
{
    if d == 0 {
        (x >> 1u64) & 0x7f7f_7f7f_7f7f_7f7f
    } else if d == 1 {
        (x << 1u64) & 0xfefe_fefe_fefe_fefe
    } else if d == 2 {
        (x << 8u64) & 0xffff_ffff_ffff_ff00
    } else if d == 3 {
        (x >> 8u64) & 0x00ff_ffff_ffff_ffff
    } else if d == 4 {
        (x << 7u64) & 0x7f7f_7f7f_7f7f_7f7f
    } else if d == 5 {
        (x >> 7u64) & 0xfefe_fefe_fefe_fefe
    } else if d == 6 {
        (x << 9u64) & 0xfefe_fefe_fefe_fefe
    } else {
        (x >> 9u64) & 0x7f7f_7f7f_7f7f_7f7f
    }
}

fn flips_in_direction(black: u64, white: u64, mv: u64, d: u64) -> (r: u64)
    ensures
        r == flips_dir(black, white, mv, d),
{
    let start = step_exec(mv, d);
    let mut rev0: u64 = 0;
    let mut mask = start;
    let mut n: u64 = 0;
    let ghost whole = run(white, start, d, 8);
    assert(0 | whole == whole) by (bit_vector);
    while n < 8 && (mask & white) != 0
        invariant
            n <= 8,
            run(white, start, d, 8) == rev0 | run(white, mask, d, (8 - n) as nat),
            run_end(white, start, d, 8) == run_end(white, mask, d, (8 - n) as nat),
        decreases 8 - n,
    {
        let ghost rest = run(white, step(mask, d), d, (8 - n - 1) as nat);
        assert(rev0 | (mask | rest) == (rev0 | mask) | rest) by (bit_vector);
        rev0 = rev0 | mask;
        mask = step_exec(mask, d);
        n = n + 1;
    }
    assert(rev0 | 0 == rev0) by (bit_vector);
    if (mask & black) == 0 {
        0
    } else {
        rev0
    }
}

/// The opponent discs (`white`) flipped when `black` places a disc on `mv`.
/// Zero when `mv` overlaps an occupied square.
pub fn get_rev_pat(black: u64, white: u64, mv: u64) -> (r: u64)
    ensures
        r == flips(black, white, mv),
{
    if (black | white) & mv != 0 {
        return 0;
    }
    let f0 = flips_in_direction(black, white, mv, 0);
    let f1 = flips_in_direction(black, white, mv, 1);
    let f2 = flips_in_direction(black, white, mv, 2);
    let f3 = flips_in_direction(black, white, mv, 3);
    let f4 = flips_in_direction(black, white, mv, 4);
    let f5 = flips_in_direction(black, white, mv, 5);
    let f6 = flips_in_direction(black, white, mv, 6);
    let f7 = flips_in_direction(black, white, mv, 7);
    f0 | f1 | f2 | f3 | f4 | f5 | f6 | f7
}


/// At most one bit of `x` is set.
pub open spec fn at_most_one_bit(x: u64) -> bool {
    x & ((x - 1) as u64) == 0
}

proof fn lemma_run_within(o: u64, x: u64, d: u64, fuel: nat)
    requires
        at_most_one_bit(x),
    ensures
        run(o, x, d, fuel) & !o == 0,
    decreases fuel,
{
    if fuel > 0 && x & o != 0 {
        let y = step(x, d);
        assert(at_most_one_bit(y)) by (bit_vector)
            requires
                at_most_one_bit(x),
                y == step(x, d),
        ;
        lemma_run_within(o, y, d, (fuel - 1) as nat);
        let rest = run(o, y, d, (fuel - 1) as nat);
        assert((x | rest) & !o == 0) by (bit_vector)
            requires
                at_most_one_bit(x),
                x & o != 0,
                rest & !o == 0,
        ;
    } else {
        assert(0u64 & !o == 0) by (bit_vector);
    }
}

/// A placement on at most one square flips only opponent discs.
pub proof fn lemma_flips_within(m: u64, o: u64, mv: u64)
    requires
        at_most_one_bit(mv),
    ensures
        flips(m, o, mv) & !o == 0,
{
    if (m | o) & mv != 0 {
        assert(0u64 & !o == 0) by (bit_vector);
    } else {
        assert forall|d: u64| d < 8 implies #[trigger] flips_dir(m, o, mv, d) & !o == 0 by {
            let s = step(mv, d);
            assert(at_most_one_bit(s)) by (bit_vector)
                requires
                    at_most_one_bit(mv),
                    s == step(mv, d),
            ;
            lemma_run_within(o, s, d, 8);
            assert(0u64 & !o == 0) by (bit_vector);
        }
        let f0 = flips_dir(m, o, mv, 0);
        let f1 = flips_dir(m, o, mv, 1);
        let f2 = flips_dir(m, o, mv, 2);
        let f3 = flips_dir(m, o, mv, 3);
        let f4 = flips_dir(m, o, mv, 4);
        let f5 = flips_dir(m, o, mv, 5);
        let f6 = flips_dir(m, o, mv, 6);
        let f7 = flips_dir(m, o, mv, 7);
        assert(f0 & !o == 0 && f1 & !o == 0 && f2 & !o == 0 && f3 & !o == 0);
        assert(f4 & !o == 0 && f5 & !o == 0 && f6 & !o == 0 && f7 & !o == 0);
        assert((f0 | f1 | f2 | f3 | f4 | f5 | f6 | f7) & !o == 0) by (bit_vector)
            requires
                f0 & !o == 0,
                f1 & !o == 0,
                f2 & !o == 0,
                f3 & !o == 0,
                f4 & !o == 0,
                f5 & !o == 0,
                f6 & !o == 0,
                f7 & !o == 0,
        ;
    }
}

/// Empty squares plus one when the mover must pass: it drops with every
/// placement and with every pass that is followed by a placement.
pub open spec fn progress(m: u64, o: u64) -> nat {
    (2 * (64 - popcount(m | o)) + if legal_moves(m, o) == 0 { 1int } else { 0int }) as nat
}

/// Placing on an empty square keeps the position well formed and fills
/// exactly that square.
pub proof fn lemma_place_progress(m: u64, o: u64, mv: u64)
    requires
        m & o == 0,
        mv != 0,
        at_most_one_bit(mv),
        mv & (m | o) == 0,
    ensures
        ({
            let f = flips(m, o, mv);
            &&& (o ^ f) & (m ^ (mv | f)) == 0
            &&& (o ^ f) | (m ^ (mv | f)) == (m | o) | mv
            &&& popcount((o ^ f) | (m ^ (mv | f))) == popcount(m | o) + popcount(mv)
            &&& popcount(mv) >= 1
            &&& popcount(m | o) + popcount(mv) <= 64
            &&& progress(o ^ f, m ^ (mv | f)) < progress(m, o)
        }),
{
    let f = flips(m, o, mv);
    lemma_flips_within(m, o, mv);
    assert((o ^ f) & (m ^ (mv | f)) == 0 && (o ^ f) | (m ^ (mv | f)) == (m | o) | mv && (m | o)
        & mv == 0) by (bit_vector)
        requires
            m & o == 0,
            mv & (m | o) == 0,
            f & !o == 0,
    ;
    lemma_popcount_or(m | o, mv);
    lemma_popcount_zero(mv);
    lemma_popcount_bound((m | o) | mv);
}

/// The squares listed for a mask are nonzero single squares of that mask.
pub proof fn lemma_squares_of_elements(x: u64)
    ensures
        forall|j: int|
            0 <= j < squares_of(x).len() ==> {
                let e = #[trigger] squares_of(x)[j];
                &&& e != 0
                &&& at_most_one_bit(e)
                &&& e & !x == 0
            },
    decreases x,
{
    if x != 0 {
        lemma_low_bit(x);
        let l = low_bit(x);
        let y = x ^ l;
        lemma_squares_of_elements(y);
        assert(y & !x == 0) by (bit_vector)
            requires
                y == x ^ l,
                l & !x == 0,
        ;
        assert forall|j: int| 0 <= j < squares_of(x).len() implies {
            let e = #[trigger] squares_of(x)[j];
            &&& e != 0
            &&& at_most_one_bit(e)
            &&& e & !x == 0
        } by {
            if j > 0 {
                let e = squares_of(y)[j - 1];
                assert(squares_of(x)[j] == e);
                assert(e & !x == 0) by (bit_vector)
                    requires
                        e & !y == 0,
                        y & !x == 0,
                ;
            }
        }
    }
}

/// Placing a disc on an empty square never lowers the mover's disc count
/// and never raises the opponent's.
pub proof fn lemma_place_counts(m: u64, o: u64, k: u64)
    requires
        k < 64,
        m & o == 0,
        (1u64 << k) & (m | o) == 0,
    ensures
        popcount(m ^ ((1u64 << k) | flips(m, o, 1u64 << k))) >= popcount(m),
        popcount(o ^ flips(m, o, 1u64 << k)) <= popcount(o),
{
    let mv = 1u64 << k;
    let f = flips(m, o, mv);
    assert(at_most_one_bit(mv)) by (bit_vector)
        requires
            k < 64,
            mv == 1u64 << k,
    ;
    lemma_flips_within(m, o, mv);
    assert(m ^ (mv | f) == m | (mv | f) && m & (mv | f) == 0 && (o ^ f) & !o == 0)
        by (bit_vector)
        requires
            m & o == 0,
            mv & (m | o) == 0,
            f & !o == 0,
    ;
    lemma_popcount_or(m, mv | f);
    lemma_popcount_subset(o ^ f, o);
}


// ---------------------------------------------------------------------
// Flips and legal moves agree
// ---------------------------------------------------------------------

proof fn lemma_flip_dir_bits_0(m: u64, o: u64, mv: u64, x1: u64, x2: u64, x3: u64, x4: u64, x5: u64, x6: u64, x7: u64, x8: u64, x9: u64, r: u64, e: u64)
    by (bit_vector)
    requires
        mv != 0,
        mv & ((mv - 1) as u64) == 0,
        mv & (m | o) == 0,
        m & o == 0,
        x1 == ((mv >> 1u64) & 0x7f7f_7f7f_7f7f_7f7f),
        x2 == ((x1 >> 1u64) & 0x7f7f_7f7f_7f7f_7f7f),
        x3 == ((x2 >> 1u64) & 0x7f7f_7f7f_7f7f_7f7f),
        x4 == ((x3 >> 1u64) & 0x7f7f_7f7f_7f7f_7f7f),
        x5 == ((x4 >> 1u64) & 0x7f7f_7f7f_7f7f_7f7f),
        x6 == ((x5 >> 1u64) & 0x7f7f_7f7f_7f7f_7f7f),
        x7 == ((x6 >> 1u64) & 0x7f7f_7f7f_7f7f_7f7f),
        x8 == ((x7 >> 1u64) & 0x7f7f_7f7f_7f7f_7f7f),
        x9 == ((x8 >> 1u64) & 0x7f7f_7f7f_7f7f_7f7f),
        r == (if x1 & o == 0 { 0u64 } else { x1 | (if x2 & o == 0 { 0u64 } else { x2 | (if x3 & o == 0 { 0u64 } else { x3 | (if x4 & o == 0 { 0u64 } else { x4 | (if x5 & o == 0 { 0u64 } else { x5 | (if x6 & o == 0 { 0u64 } else { x6 | (if x7 & o == 0 { 0u64 } else { x7 | (if x8 & o == 0 { 0u64 } else { x8 | 0u64 }) }) }) }) }) }) }) }),
        e == (if x1 & o == 0 { x1 } else { (if x2 & o == 0 { x2 } else { (if x3 & o == 0 { x3 } else { (if x4 & o == 0 { x4 } else { (if x5 & o == 0 { x5 } else { (if x6 & o == 0 { x6 } else { (if x7 & o == 0 { x7 } else { (if x8 & o == 0 { x8 } else { x9 }) }) }) }) }) }) }) }),
    ensures
        (if e & m != 0 { r } else { 0u64 }) != 0 <==> moves_dir(m, o, 1, ROW_INNER, false) & mv != 0,
{
}

proof fn lemma_flip_dir_0(m: u64, o: u64, mv: u64)
    requires
        mv != 0,
        mv & ((mv - 1) as u64) == 0,
        mv & (m | o) == 0,
        m & o == 0,
    ensures
        flips_dir(m, o, mv, 0) != 0 <==> moves_dir(m, o, 1, ROW_INNER, false) & mv != 0,
{
    reveal_with_fuel(run, 9);
    reveal_with_fuel(run_end, 10);
    let x1 = step(mv, 0);
    let x2 = step(x1, 0);
    let x3 = step(x2, 0);
    let x4 = step(x3, 0);
    let x5 = step(x4, 0);
    let x6 = step(x5, 0);
    let x7 = step(x6, 0);
    let x8 = step(x7, 0);
    let x9 = step(x8, 0);
    lemma_flip_dir_bits_0(m, o, mv, x1, x2, x3, x4, x5, x6, x7, x8, x9, run(o, x1, 0, 8), run_end(o, x1, 0, 8));
}

proof fn lemma_flip_dir_bits_1(m: u64, o: u64, mv: u64, x1: u64, x2: u64, x3: u64, x4: u64, x5: u64, x6: u64, x7: u64, x8: u64, x9: u64, r: u64, e: u64)
    by (bit_vector)
    requires
        mv != 0,
        mv & ((mv - 1) as u64) == 0,
        mv & (m | o) == 0,
        m & o == 0,
        x1 == ((mv << 1u64) & 0xfefe_fefe_fefe_fefe),
        x2 == ((x1 << 1u64) & 0xfefe_fefe_fefe_fefe),
        x3 == ((x2 << 1u64) & 0xfefe_fefe_fefe_fefe),
        x4 == ((x3 << 1u64) & 0xfefe_fefe_fefe_fefe),
        x5 == ((x4 << 1u64) & 0xfefe_fefe_fefe_fefe),
        x6 == ((x5 << 1u64) & 0xfefe_fefe_fefe_fefe),
        x7 == ((x6 << 1u64) & 0xfefe_fefe_fefe_fefe),
        x8 == ((x7 << 1u64) & 0xfefe_fefe_fefe_fefe),
        x9 == ((x8 << 1u64) & 0xfefe_fefe_fefe_fefe),
        r == (if x1 & o == 0 { 0u64 } else { x1 | (if x2 & o == 0 { 0u64 } else { x2 | (if x3 & o == 0 { 0u64 } else { x3 | (if x4 & o == 0 { 0u64 } else { x4 | (if x5 & o == 0 { 0u64 } else { x5 | (if x6 & o == 0 { 0u64 } else { x6 | (if x7 & o == 0 { 0u64 } else { x7 | (if x8 & o == 0 { 0u64 } else { x8 | 0u64 }) }) }) }) }) }) }) }),
        e == (if x1 & o == 0 { x1 } else { (if x2 & o == 0 { x2 } else { (if x3 & o == 0 { x3 } else { (if x4 & o == 0 { x4 } else { (if x5 & o == 0 { x5 } else { (if x6 & o == 0 { x6 } else { (if x7 & o == 0 { x7 } else { (if x8 & o == 0 { x8 } else { x9 }) }) }) }) }) }) }) }),
    ensures
        (if e & m != 0 { r } else { 0u64 }) != 0 <==> moves_dir(m, o, 1, ROW_INNER, true) & mv != 0,
{
}

proof fn lemma_flip_dir_1(m: u64, o: u64, mv: u64)
    requires
        mv != 0,
        mv & ((mv - 1) as u64) == 0,
        mv & (m | o) == 0,
        m & o == 0,
    ensures
        flips_dir(m, o, mv, 1) != 0 <==> moves_dir(m, o, 1, ROW_INNER, true) & mv != 0,
{
    reveal_with_fuel(run, 9);
    reveal_with_fuel(run_end, 10);
    let x1 = step(mv, 1);
    let x2 = step(x1, 1);
    let x3 = step(x2, 1);
    let x4 = step(x3, 1);
    let x5 = step(x4, 1);
    let x6 = step(x5, 1);
    let x7 = step(x6, 1);
    let x8 = step(x7, 1);
    let x9 = step(x8, 1);
    lemma_flip_dir_bits_1(m, o, mv, x1, x2, x3, x4, x5, x6, x7, x8, x9, run(o, x1, 1, 8), run_end(o, x1, 1, 8));
}

proof fn lemma_flip_dir_bits_2(m: u64, o: u64, mv: u64, x1: u64, x2: u64, x3: u64, x4: u64, x5: u64, x6: u64, x7: u64, x8: u64, x9: u64, r: u64, e: u64)
    by (bit_vector)
    requires
        mv != 0,
        mv & ((mv - 1) as u64) == 0,
        mv & (m | o) == 0,
        m & o == 0,
        x1 == ((mv << 8u64) & 0xffff_ffff_ffff_ff00),
        x2 == ((x1 << 8u64) & 0xffff_ffff_ffff_ff00),
        x3 == ((x2 << 8u64) & 0xffff_ffff_ffff_ff00),
        x4 == ((x3 << 8u64) & 0xffff_ffff_ffff_ff00),
        x5 == ((x4 << 8u64) & 0xffff_ffff_ffff_ff00),
        x6 == ((x5 << 8u64) & 0xffff_ffff_ffff_ff00),
        x7 == ((x6 << 8u64) & 0xffff_ffff_ffff_ff00),
        x8 == ((x7 << 8u64) & 0xffff_ffff_ffff_ff00),
        x9 == ((x8 << 8u64) & 0xffff_ffff_ffff_ff00),
        r == (if x1 & o == 0 { 0u64 } else { x1 | (if x2 & o == 0 { 0u64 } else { x2 | (if x3 & o == 0 { 0u64 } else { x3 | (if x4 & o == 0 { 0u64 } else { x4 | (if x5 & o == 0 { 0u64 } else { x5 | (if x6 & o == 0 { 0u64 } else { x6 | (if x7 & o == 0 { 0u64 } else { x7 | (if x8 & o == 0 { 0u64 } else { x8 | 0u64 }) }) }) }) }) }) }) }),
        e == (if x1 & o == 0 { x1 } else { (if x2 & o == 0 { x2 } else { (if x3 & o == 0 { x3 } else { (if x4 & o == 0 { x4 } else { (if x5 & o == 0 { x5 } else { (if x6 & o == 0 { x6 } else { (if x7 & o == 0 { x7 } else { (if x8 & o == 0 { x8 } else { x9 }) }) }) }) }) }) }) }),
    ensures
        (if e & m != 0 { r } else { 0u64 }) != 0 <==> moves_dir(m, o, 8, COL_INNER, true) & mv != 0,
{
}

proof fn lemma_flip_dir_2(m: u64, o: u64, mv: u64)
    requires
        mv != 0,
        mv & ((mv - 1) as u64) == 0,
        mv & (m | o) == 0,
        m & o == 0,
    ensures
        flips_dir(m, o, mv, 2) != 0 <==> moves_dir(m, o, 8, COL_INNER, true) & mv != 0,
{
    reveal_with_fuel(run, 9);
    reveal_with_fuel(run_end, 10);
    let x1 = step(mv, 2);
    let x2 = step(x1, 2);
    let x3 = step(x2, 2);
    let x4 = step(x3, 2);
    let x5 = step(x4, 2);
    let x6 = step(x5, 2);
    let x7 = step(x6, 2);
    let x8 = step(x7, 2);
    let x9 = step(x8, 2);
    lemma_flip_dir_bits_2(m, o, mv, x1, x2, x3, x4, x5, x6, x7, x8, x9, run(o, x1, 2, 8), run_end(o, x1, 2, 8));
}

proof fn lemma_flip_dir_bits_3(m: u64, o: u64, mv: u64, x1: u64, x2: u64, x3: u64, x4: u64, x5: u64, x6: u64, x7: u64, x8: u64, x9: u64, r: u64, e: u64)
    by (bit_vector)
    requires
        mv != 0,
        mv & ((mv - 1) as u64) == 0,
        mv & (m | o) == 0,
        m & o == 0,
        x1 == ((mv >> 8u64) & 0x00ff_ffff_ffff_ffff),
        x2 == ((x1 >> 8u64) & 0x00ff_ffff_ffff_ffff),
        x3 == ((x2 >> 8u64) & 0x00ff_ffff_ffff_ffff),
        x4 == ((x3 >> 8u64) & 0x00ff_ffff_ffff_ffff),
        x5 == ((x4 >> 8u64) & 0x00ff_ffff_ffff_ffff),
        x6 == ((x5 >> 8u64) & 0x00ff_ffff_ffff_ffff),
        x7 == ((x6 >> 8u64) & 0x00ff_ffff_ffff_ffff),
        x8 == ((x7 >> 8u64) & 0x00ff_ffff_ffff_ffff),
        x9 == ((x8 >> 8u64) & 0x00ff_ffff_ffff_ffff),
        r == (if x1 & o == 0 { 0u64 } else { x1 | (if x2 & o == 0 { 0u64 } else { x2 | (if x3 & o == 0 { 0u64 } else { x3 | (if x4 & o == 0 { 0u64 } else { x4 | (if x5 & o == 0 { 0u64 } else { x5 | (if x6 & o == 0 { 0u64 } else { x6 | (if x7 & o == 0 { 0u64 } else { x7 | (if x8 & o == 0 { 0u64 } else { x8 | 0u64 }) }) }) }) }) }) }) }),
        e == (if x1 & o == 0 { x1 } else { (if x2 & o == 0 { x2 } else { (if x3 & o == 0 { x3 } else { (if x4 & o == 0 { x4 } else { (if x5 & o == 0 { x5 } else { (if x6 & o == 0 { x6 } else { (if x7 & o == 0 { x7 } else { (if x8 & o == 0 { x8 } else { x9 }) }) }) }) }) }) }) }),
    ensures
        (if e & m != 0 { r } else { 0u64 }) != 0 <==> moves_dir(m, o, 8, COL_INNER, false) & mv != 0,
{
}

proof fn lemma_flip_dir_3(m: u64, o: u64, mv: u64)
    requires
        mv != 0,
        mv & ((mv - 1) as u64) == 0,
        mv & (m | o) == 0,
        m & o == 0,
    ensures
        flips_dir(m, o, mv, 3) != 0 <==> moves_dir(m, o, 8, COL_INNER, false) & mv != 0,
{
    reveal_with_fuel(run, 9);
    reveal_with_fuel(run_end, 10);
    let x1 = step(mv, 3);
    let x2 = step(x1, 3);
    let x3 = step(x2, 3);
    let x4 = step(x3, 3);
    let x5 = step(x4, 3);
    let x6 = step(x5, 3);
    let x7 = step(x6, 3);
    let x8 = step(x7, 3);
    let x9 = step(x8, 3);
    lemma_flip_dir_bits_3(m, o, mv, x1, x2, x3, x4, x5, x6, x7, x8, x9, run(o, x1, 3, 8), run_end(o, x1, 3, 8));
}

proof fn lemma_flip_dir_bits_4(m: u64, o: u64, mv: u64, x1: u64, x2: u64, x3: u64, x4: u64, x5: u64, x6: u64, x7: u64, x8: u64, x9: u64, r: u64, e: u64)
    by (bit_vector)
    requires
        mv != 0,
        mv & ((mv - 1) as u64) == 0,
        mv & (m | o) == 0,
        m & o == 0,
        x1 == ((mv << 7u64) & 0x7f7f_7f7f_7f7f_7f7f),
        x2 == ((x1 << 7u64) & 0x7f7f_7f7f_7f7f_7f7f),
        x3 == ((x2 << 7u64) & 0x7f7f_7f7f_7f7f_7f7f),
        x4 == ((x3 << 7u64) & 0x7f7f_7f7f_7f7f_7f7f),
        x5 == ((x4 << 7u64) & 0x7f7f_7f7f_7f7f_7f7f),
        x6 == ((x5 << 7u64) & 0x7f7f_7f7f_7f7f_7f7f),
        x7 == ((x6 << 7u64) & 0x7f7f_7f7f_7f7f_7f7f),
        x8 == ((x7 << 7u64) & 0x7f7f_7f7f_7f7f_7f7f),
        x9 == ((x8 << 7u64) & 0x7f7f_7f7f_7f7f_7f7f),
        r == (if x1 & o == 0 { 0u64 } else { x1 | (if x2 & o == 0 { 0u64 } else { x2 | (if x3 & o == 0 { 0u64 } else { x3 | (if x4 & o == 0 { 0u64 } else { x4 | (if x5 & o == 0 { 0u64 } else { x5 | (if x6 & o == 0 { 0u64 } else { x6 | (if x7 & o == 0 { 0u64 } else { x7 | (if x8 & o == 0 { 0u64 } else { x8 | 0u64 }) }) }) }) }) }) }) }),
        e == (if x1 & o == 0 { x1 } else { (if x2 & o == 0 { x2 } else { (if x3 & o == 0 { x3 } else { (if x4 & o == 0 { x4 } else { (if x5 & o == 0 { x5 } else { (if x6 & o == 0 { x6 } else { (if x7 & o == 0 { x7 } else { (if x8 & o == 0 { x8 } else { x9 }) }) }) }) }) }) }) }),
    ensures
        (if e & m != 0 { r } else { 0u64 }) != 0 <==> moves_dir(m, o, 7, DIAG_INNER, true) & mv != 0,
{
}

proof fn lemma_flip_dir_4(m: u64, o: u64, mv: u64)
    requires
        mv != 0,
        mv & ((mv - 1) as u64) == 0,
        mv & (m | o) == 0,
        m & o == 0,
    ensures
        flips_dir(m, o, mv, 4) != 0 <==> moves_dir(m, o, 7, DIAG_INNER, true) & mv != 0,
{
    reveal_with_fuel(run, 9);
    reveal_with_fuel(run_end, 10);
    let x1 = step(mv, 4);
    let x2 = step(x1, 4);
    let x3 = step(x2, 4);
    let x4 = step(x3, 4);
    let x5 = step(x4, 4);
    let x6 = step(x5, 4);
    let x7 = step(x6, 4);
    let x8 = step(x7, 4);
    let x9 = step(x8, 4);
    lemma_flip_dir_bits_4(m, o, mv, x1, x2, x3, x4, x5, x6, x7, x8, x9, run(o, x1, 4, 8), run_end(o, x1, 4, 8));
}

proof fn lemma_flip_dir_bits_5(m: u64, o: u64, mv: u64, x1: u64, x2: u64, x3: u64, x4: u64, x5: u64, x6: u64, x7: u64, x8: u64, x9: u64, r: u64, e: u64)
    by (bit_vector)
    requires
        mv != 0,
        mv & ((mv - 1) as u64) == 0,
        mv & (m | o) == 0,
        m & o == 0,
        x1 == ((mv >> 7u64) & 0xfefe_fefe_fefe_fefe),
        x2 == ((x1 >> 7u64) & 0xfefe_fefe_fefe_fefe),
        x3 == ((x2 >> 7u64) & 0xfefe_fefe_fefe_fefe),
        x4 == ((x3 >> 7u64) & 0xfefe_fefe_fefe_fefe),
        x5 == ((x4 >> 7u64) & 0xfefe_fefe_fefe_fefe),
        x6 == ((x5 >> 7u64) & 0xfefe_fefe_fefe_fefe),
        x7 == ((x6 >> 7u64) & 0xfefe_fefe_fefe_fefe),
        x8 == ((x7 >> 7u64) & 0xfefe_fefe_fefe_fefe),
        x9 == ((x8 >> 7u64) & 0xfefe_fefe_fefe_fefe),
        r == (if x1 & o == 0 { 0u64 } else { x1 | (if x2 & o == 0 { 0u64 } else { x2 | (if x3 & o == 0 { 0u64 } else { x3 | (if x4 & o == 0 { 0u64 } else { x4 | (if x5 & o == 0 { 0u64 } else { x5 | (if x6 & o == 0 { 0u64 } else { x6 | (if x7 & o == 0 { 0u64 } else { x7 | (if x8 & o == 0 { 0u64 } else { x8 | 0u64 }) }) }) }) }) }) }) }),
        e == (if x1 & o == 0 { x1 } else { (if x2 & o == 0 { x2 } else { (if x3 & o == 0 { x3 } else { (if x4 & o == 0 { x4 } else { (if x5 & o == 0 { x5 } else { (if x6 & o == 0 { x6 } else { (if x7 & o == 0 { x7 } else { (if x8 & o == 0 { x8 } else { x9 }) }) }) }) }) }) }) }),
    ensures
        (if e & m != 0 { r } else { 0u64 }) != 0 <==> moves_dir(m, o, 7, DIAG_INNER, false) & mv != 0,
{
}

proof fn lemma_flip_dir_5(m: u64, o: u64, mv: u64)
    requires
        mv != 0,
        mv & ((mv - 1) as u64) == 0,
        mv & (m | o) == 0,
        m & o == 0,
    ensures
        flips_dir(m, o, mv, 5) != 0 <==> moves_dir(m, o, 7, DIAG_INNER, false) & mv != 0,
{
    reveal_with_fuel(run, 9);
    reveal_with_fuel(run_end, 10);
    let x1 = step(mv, 5);
    let x2 = step(x1, 5);
    let x3 = step(x2, 5);
    let x4 = step(x3, 5);
    let x5 = step(x4, 5);
    let x6 = step(x5, 5);
    let x7 = step(x6, 5);
    let x8 = step(x7, 5);
    let x9 = step(x8, 5);
    lemma_flip_dir_bits_5(m, o, mv, x1, x2, x3, x4, x5, x6, x7, x8, x9, run(o, x1, 5, 8), run_end(o, x1, 5, 8));
}

proof fn lemma_flip_dir_bits_6(m: u64, o: u64, mv: u64, x1: u64, x2: u64, x3: u64, x4: u64, x5: u64, x6: u64, x7: u64, x8: u64, x9: u64, r: u64, e: u64)
    by (bit_vector)
    requires
        mv != 0,
        mv & ((mv - 1) as u64) == 0,
        mv & (m | o) == 0,
        m & o == 0,
        x1 == ((mv << 9u64) & 0xfefe_fefe_fefe_fefe),
        x2 == ((x1 << 9u64) & 0xfefe_fefe_fefe_fefe),
        x3 == ((x2 << 9u64) & 0xfefe_fefe_fefe_fefe),
        x4 == ((x3 << 9u64) & 0xfefe_fefe_fefe_fefe),
        x5 == ((x4 << 9u64) & 0xfefe_fefe_fefe_fefe),
        x6 == ((x5 << 9u64) & 0xfefe_fefe_fefe_fefe),
        x7 == ((x6 << 9u64) & 0xfefe_fefe_fefe_fefe),
        x8 == ((x7 << 9u64) & 0xfefe_fefe_fefe_fefe),
        x9 == ((x8 << 9u64) & 0xfefe_fefe_fefe_fefe),
        r == (if x1 & o == 0 { 0u64 } else { x1 | (if x2 & o == 0 { 0u64 } else { x2 | (if x3 & o == 0 { 0u64 } else { x3 | (if x4 & o == 0 { 0u64 } else { x4 | (if x5 & o == 0 { 0u64 } else { x5 | (if x6 & o == 0 { 0u64 } else { x6 | (if x7 & o == 0 { 0u64 } else { x7 | (if x8 & o == 0 { 0u64 } else { x8 | 0u64 }) }) }) }) }) }) }) }),
        e == (if x1 & o == 0 { x1 } else { (if x2 & o == 0 { x2 } else { (if x3 & o == 0 { x3 } else { (if x4 & o == 0 { x4 } else { (if x5 & o == 0 { x5 } else { (if x6 & o == 0 { x6 } else { (if x7 & o == 0 { x7 } else { (if x8 & o == 0 { x8 } else { x9 }) }) }) }) }) }) }) }),
    ensures
        (if e & m != 0 { r } else { 0u64 }) != 0 <==> moves_dir(m, o, 9, DIAG_INNER, true) & mv != 0,
{
}

proof fn lemma_flip_dir_6(m: u64, o: u64, mv: u64)
    requires
        mv != 0,
        mv & ((mv - 1) as u64) == 0,
        mv & (m | o) == 0,
        m & o == 0,
    ensures
        flips_dir(m, o, mv, 6) != 0 <==> moves_dir(m, o, 9, DIAG_INNER, true) & mv != 0,
{
    reveal_with_fuel(run, 9);
    reveal_with_fuel(run_end, 10);
    let x1 = step(mv, 6);
    let x2 = step(x1, 6);
    let x3 = step(x2, 6);
    let x4 = step(x3, 6);
    let x5 = step(x4, 6);
    let x6 = step(x5, 6);
    let x7 = step(x6, 6);
    let x8 = step(x7, 6);
    let x9 = step(x8, 6);
    lemma_flip_dir_bits_6(m, o, mv, x1, x2, x3, x4, x5, x6, x7, x8, x9, run(o, x1, 6, 8), run_end(o, x1, 6, 8));
}

proof fn lemma_flip_dir_bits_7(m: u64, o: u64, mv: u64, x1: u64, x2: u64, x3: u64, x4: u64, x5: u64, x6: u64, x7: u64, x8: u64, x9: u64, r: u64, e: u64)
    by (bit_vector)
    requires
        mv != 0,
        mv & ((mv - 1) as u64) == 0,
        mv & (m | o) == 0,
        m & o == 0,
        x1 == ((mv >> 9u64) & 0x7f7f_7f7f_7f7f_7f7f),
        x2 == ((x1 >> 9u64) & 0x7f7f_7f7f_7f7f_7f7f),
        x3 == ((x2 >> 9u64) & 0x7f7f_7f7f_7f7f_7f7f),
        x4 == ((x3 >> 9u64) & 0x7f7f_7f7f_7f7f_7f7f),
        x5 == ((x4 >> 9u64) & 0x7f7f_7f7f_7f7f_7f7f),
        x6 == ((x5 >> 9u64) & 0x7f7f_7f7f_7f7f_7f7f),
        x7 == ((x6 >> 9u64) & 0x7f7f_7f7f_7f7f_7f7f),
        x8 == ((x7 >> 9u64) & 0x7f7f_7f7f_7f7f_7f7f),
        x9 == ((x8 >> 9u64) & 0x7f7f_7f7f_7f7f_7f7f),
        r == (if x1 & o == 0 { 0u64 } else { x1 | (if x2 & o == 0 { 0u64 } else { x2 | (if x3 & o == 0 { 0u64 } else { x3 | (if x4 & o == 0 { 0u64 } else { x4 | (if x5 & o == 0 { 0u64 } else { x5 | (if x6 & o == 0 { 0u64 } else { x6 | (if x7 & o == 0 { 0u64 } else { x7 | (if x8 & o == 0 { 0u64 } else { x8 | 0u64 }) }) }) }) }) }) }) }),
        e == (if x1 & o == 0 { x1 } else { (if x2 & o == 0 { x2 } else { (if x3 & o == 0 { x3 } else { (if x4 & o == 0 { x4 } else { (if x5 & o == 0 { x5 } else { (if x6 & o == 0 { x6 } else { (if x7 & o == 0 { x7 } else { (if x8 & o == 0 { x8 } else { x9 }) }) }) }) }) }) }) }),
    ensures
        (if e & m != 0 { r } else { 0u64 }) != 0 <==> moves_dir(m, o, 9, DIAG_INNER, false) & mv != 0,
{
}

proof fn lemma_flip_dir_7(m: u64, o: u64, mv: u64)
    requires
        mv != 0,
        mv & ((mv - 1) as u64) == 0,
        mv & (m | o) == 0,
        m & o == 0,
    ensures
        flips_dir(m, o, mv, 7) != 0 <==> moves_dir(m, o, 9, DIAG_INNER, false) & mv != 0,
{
    reveal_with_fuel(run, 9);
    reveal_with_fuel(run_end, 10);
    let x1 = step(mv, 7);
    let x2 = step(x1, 7);
    let x3 = step(x2, 7);
    let x4 = step(x3, 7);
    let x5 = step(x4, 7);
    let x6 = step(x5, 7);
    let x7 = step(x6, 7);
    let x8 = step(x7, 7);
    let x9 = step(x8, 7);
    lemma_flip_dir_bits_7(m, o, mv, x1, x2, x3, x4, x5, x6, x7, x8, x9, run(o, x1, 7, 8), run_end(o, x1, 7, 8));
}

/// On an empty square, a placement flips some disc exactly when the square
/// is a legal move.
pub proof fn lemma_flips_iff_legal(m: u64, o: u64, k: u64)
    requires
        k < 64,
        m & o == 0,
        (1u64 << k) & (m | o) == 0,
    ensures
        flips(m, o, 1u64 << k) != 0 <==> legal_moves(m, o) & (1u64 << k) != 0,
{
    let mv = 1u64 << k;
    assert(mv != 0 && mv & ((mv - 1) as u64) == 0 && (m | o) & mv == 0) by (bit_vector)
        requires
            k < 64,
            mv == 1u64 << k,
            mv & (m | o) == 0,
    ;
    lemma_flip_dir_0(m, o, mv);
    lemma_flip_dir_1(m, o, mv);
    lemma_flip_dir_2(m, o, mv);
    lemma_flip_dir_3(m, o, mv);
    lemma_flip_dir_4(m, o, mv);
    lemma_flip_dir_5(m, o, mv);
    lemma_flip_dir_6(m, o, mv);
    lemma_flip_dir_7(m, o, mv);
    let f0 = flips_dir(m, o, mv, 0);
    let f1 = flips_dir(m, o, mv, 1);
    let f2 = flips_dir(m, o, mv, 2);
    let f3 = flips_dir(m, o, mv, 3);
    let f4 = flips_dir(m, o, mv, 4);
    let f5 = flips_dir(m, o, mv, 5);
    let f6 = flips_dir(m, o, mv, 6);
    let f7 = flips_dir(m, o, mv, 7);
    let y0 = moves_dir(m, o, 1, ROW_INNER, false);
    let y1 = moves_dir(m, o, 1, ROW_INNER, true);
    let y2 = moves_dir(m, o, 8, COL_INNER, true);
    let y3 = moves_dir(m, o, 8, COL_INNER, false);
    let y4 = moves_dir(m, o, 7, DIAG_INNER, true);
    let y5 = moves_dir(m, o, 7, DIAG_INNER, false);
    let y6 = moves_dir(m, o, 9, DIAG_INNER, true);
    let y7 = moves_dir(m, o, 9, DIAG_INNER, false);
    assert((f0 | f1 | f2 | f3 | f4 | f5 | f6 | f7) != 0 <==> (y4 | y5 | y6 | y7 | y2 | y3 | y1
        | y0) & mv != 0) by (bit_vector)
        requires
            f0 != 0 <==> y0 & mv != 0,
            f1 != 0 <==> y1 & mv != 0,
            f2 != 0 <==> y2 & mv != 0,
            f3 != 0 <==> y3 & mv != 0,
            f4 != 0 <==> y4 & mv != 0,
            f5 != 0 <==> y5 & mv != 0,
            f6 != 0 <==> y6 & mv != 0,
            f7 != 0 <==> y7 & mv != 0,
    ;
}

// ---------------------------------------------------------------------
// Notation
// ---------------------------------------------------------------------

/// Letter of file `f` (0 is `A`).
pub open spec fn file_char(f: int) -> char {
    if f == 0 {
        'A'
    } else if f == 1 {
        'B'
    } else if f == 2 {
        'C'
    } else if f == 3 {
        'D'
    } else if f == 4 {
        'E'
    } else if f == 5 {
        'F'
    } else if f == 6 {
        'G'
    } else {
        'H'
    }
}

/// Digit of row `r` (0 is `1`).
pub open spec fn rank_char(r: int) -> char {
    if r == 0 {
        '1'
    } else if r == 1 {
        '2'
    } else if r == 2 {
        '3'
    } else if r == 3 {
        '4'
    } else if r == 4 {
        '5'
    } else if r == 5 {
        '6'
    } else if r == 6 {
        '7'
    } else {
        '8'
    }
}

/// Two-character name of the square at bit index `k`.
pub open spec fn coordinate(k: int) -> Seq<char> {
    seq![file_char(7 - k % 8), rank_char(7 - k / 8)]
}

/// The token written for a pass.
pub open spec fn pass_token() -> Seq<char> {
    seq!['P', 'a']
}

/// Index of a file letter, either case.
pub open spec fn file_index(c: char) -> Option<int> {
    if c == 'A' || c == 'a' {
        Some(0)
    } else if c == 'B' || c == 'b' {
        Some(1)
    } else if c == 'C' || c == 'c' {
        Some(2)
    } else if c == 'D' || c == 'd' {
        Some(3)
    } else if c == 'E' || c == 'e' {
        Some(4)
    } else if c == 'F' || c == 'f' {
        Some(5)
    } else if c == 'G' || c == 'g' {
        Some(6)
    } else if c == 'H' || c == 'h' {
        Some(7)
    } else {
        None
    }
}

/// Index of a rank digit.
pub open spec fn rank_index(c: char) -> Option<int> {
    if '1' <= c && c <= '8' {
        Some(c as int - '1' as int)
    } else {
        None
    }
}

/// The move mask named by a text: the pass token gives zero, a file letter
/// followed by a rank digit gives that square, anything else nothing.
pub open spec fn parse_coordinate(s: Seq<char>) -> Option<u64> {
    if s == pass_token() {
        Some(0)
    } else if s.len() == 2 && file_index(s[0]).is_some() && rank_index(s[1]).is_some() {
        Some((1u64 << ((63 - file_index(s[0]).unwrap() - 8 * rank_index(s[1]).unwrap()) as u64)))
    } else {
        None
    }
}

fn file_str(f: u64) -> (r: &'static str)
    requires
        f < 8,
    ensures
        r@ == seq![file_char(f as int)],
{
    if f == 0 {
        proof { reveal_strlit("A"); }
        "A"
    } else if f == 1 {
        proof { reveal_strlit("B"); }
        "B"
    } else if f == 2 {
        proof { reveal_strlit("C"); }
        "C"
    } else if f == 3 {
        proof { reveal_strlit("D"); }
        "D"
    } else if f == 4 {
        proof { reveal_strlit("E"); }
        "E"
    } else if f == 5 {
        proof { reveal_strlit("F"); }
        "F"
    } else if f == 6 {
        proof { reveal_strlit("G"); }
        "G"
    } else {
        proof { reveal_strlit("H"); }
        "H"
    }
}

fn rank_str(r: u64) -> (s: &'static str)
    requires
        r < 8,
    ensures
        s@ == seq![rank_char(r as int)],
{
    if r == 0 {
        proof { reveal_strlit("1"); }
        "1"
    } else if r == 1 {
        proof { reveal_strlit("2"); }
        "2"
    } else if r == 2 {
        proof { reveal_strlit("3"); }
        "3"
    } else if r == 3 {
        proof { reveal_strlit("4"); }
        "4"
    } else if r == 4 {
        proof { reveal_strlit("5"); }
        "5"
    } else if r == 5 {
        proof { reveal_strlit("6"); }
        "6"
    } else if r == 6 {
        proof { reveal_strlit("7"); }
        "7"
    } else {
        proof { reveal_strlit("8"); }
        "8"
    }
}

/// The name of a move mask: `Pa` for zero, else the two-character name of
/// its square (file letter, then rank digit).
pub fn make_index(mv: u64) -> (r: String)
    requires
        mv == 0 || exists|k: u64| k < 64 && mv == 1u64 << k,
    ensures
        mv == 0 ==> r@ == pass_token(),
        forall|k: u64| k < 64 && mv == 1u64 << k ==> r@ == coordinate(k as int),
{
    if mv == 0 {
        proof {
            reveal_strlit("Pa");
            assert forall|k: u64| k < 64 implies 1u64 << k != 0 by {
                assert(k < 64 ==> 1u64 << k != 0) by (bit_vector);
            }
        }
        return String::from_str("Pa");
    }
    let ghost kk = choose|k: u64| k < 64 && mv == 1u64 << k;
    let mut i: u64 = 0;
    while i < 63 && (mv >> i) & 1 != 1
        invariant
            kk < 64,
            mv == 1u64 << kk,
            i <= kk,
        decreases 64 - i,
    {
        assert((mv >> i) & 1 != 1 ==> i != kk) by (bit_vector)
            requires
                kk < 64,
                mv == 1u64 << kk,
        ;
        i = i + 1;
    }
    assert(i == kk) by (bit_vector)
        requires
            kk < 64,
            mv == 1u64 << kk,
            i <= kk,
            i == 63 || (mv >> i) & 1 == 1,
    ;
    let mut s = String::from_str(file_str(7 - i % 8));
    s.append(rank_str(7 - i / 8));
    proof {
        assert forall|k: u64| k < 64 && mv == 1u64 << k implies k == kk by {
            assert(k == kk) by (bit_vector)
                requires
                    k < 64,
                    kk < 64,
                    mv == 1u64 << k,
                    mv == 1u64 << kk,
            ;
        }
        assert(s@ =~= coordinate(i as int));
    }
    s
}

/// Reads a move written as `make_index` writes it (the file letter may also
/// be lower case). `None` when the text names no square and is no pass.
pub fn coordinate_to_square(s: &str) -> (r: Option<u64>)
    ensures
        r == parse_coordinate(s@),
{
    let n = s.unicode_len();
    if n != 2 {
        return None;
    }
    let c0 = s.get_char(0);
    let c1 = s.get_char(1);
    if c0 == 'P' && c1 == 'a' {
        assert(s@ =~= pass_token());
        return Some(0);
    }
    assert(s@ != pass_token());
    let f: u64 = if c0 == 'A' || c0 == 'a' {
        0
    } else if c0 == 'B' || c0 == 'b' {
        1
    } else if c0 == 'C' || c0 == 'c' {
        2
    } else if c0 == 'D' || c0 == 'd' {
        3
    } else if c0 == 'E' || c0 == 'e' {
        4
    } else if c0 == 'F' || c0 == 'f' {
        5
    } else if c0 == 'G' || c0 == 'g' {
        6
    } else if c0 == 'H' || c0 == 'h' {
        7
    } else {
        return None;
    };
    if c1 < '1' || c1 > '8' {
        return None;
    }
    let rk: u64 = (c1 as u32 - '1' as u32) as u64;
    Some(1u64 << (63 - f - 8 * rk))
}

/// Naming a square and reading the name back gives the same mask; the pass
/// token reads back as zero.
pub proof fn lemma_coordinate_round_trip(k: u64)
    requires
        k < 64,
    ensures
        parse_coordinate(coordinate(k as int)) == Some(1u64 << k),
        parse_coordinate(pass_token()) == Some(0u64),
{
    let c = coordinate(k as int);
    assert(c[0] == file_char(7 - k % 8));
    assert(c[1] == rank_char(7 - k / 8));
    assert(c != pass_token()) by {
        assert(c[1] != 'a');
    }
    assert(63 - (7 - k % 8) - 8 * (7 - k / 8) == k) by (nonlinear_arith);
}

} // verus!
