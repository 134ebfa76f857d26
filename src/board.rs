//! The absolute board kept by a game driver: black and white masks, whose
//! turn it is, and the mover / opponent view handed to the strategies.

use vstd::prelude::*;
use crate::bitboard::{can_locate, flips, get_rev_pat, legal_moves, pop_count, popcount};
use crate::player::{Pmove, TurnPlayer};

verus! {

/// Number of squares.
pub const BOARDSIZE_SQ: usize = 64;

/// A game in progress.
#[derive(Clone, Debug)]
pub struct Board {
    pub turn_player: TurnPlayer,
    pub black: u64,
    pub white: u64,
    /// Discs of the side to move.
    pub first: u64,
    /// Discs of the side not to move.
    pub second: u64,
    pub first_player: String,
    pub second_player: String,
    /// Number of the current move, starting at 1.
    pub step: u32,
    /// Number of empty squares.
    pub left: usize,
}

/// Number of empty squares of a position.
pub open spec fn empties(black: u64, white: u64) -> int {
    64 - popcount(black | white)
}

impl Board {
    /// A board with the given side to move, player names and discs. The
    /// mover view starts as (`black`, `white`).
    pub fn new(t_player: (TurnPlayer, String, String), black: u64, white: u64) -> (r: Self)
        ensures
            r.turn_player == t_player.0,
            r.black == black,
            r.white == white,
            r.first == black,
            r.second == white,
            r.first_player == t_player.1,
            r.second_player == t_player.2,
            r.step == 1,
            r.left == empties(black, white),
    {
        let n = pop_count(black | white);
        Board {
            turn_player: t_player.0,
            black,
            white,
            first: black,
            second: white,
            first_player: t_player.1,
            second_player: t_player.2,
            step: 1,
            left: BOARDSIZE_SQ - n as usize,
        }
    }

    /// Whether either side still has a legal placement.
    pub fn is_can_play(&self) -> (r: bool)
        ensures
            r == !(legal_moves(self.first, self.second) == 0 && legal_moves(self.second, self.first)
                == 0),
    {
        !(can_locate(self.first, self.second) == 0 && can_locate(self.second, self.first) == 0)
    }

    /// Puts a disc of the side to move on `put_posi` and flips `rev_pat`.
    pub fn put_stone(&mut self, put_posi: u64, rev_pat: u64)
        ensures
            old(self).turn_player == TurnPlayer::Black ==> final(self).black == old(self).black ^ (
            put_posi | rev_pat) && final(self).white == old(self).white ^ rev_pat,
            old(self).turn_player == TurnPlayer::White ==> final(self).white == old(self).white ^ (
            put_posi | rev_pat) && final(self).black == old(self).black ^ rev_pat,
            final(self).turn_player == old(self).turn_player,
            final(self).first == old(self).first,
            final(self).second == old(self).second,
            final(self).first_player == old(self).first_player,
            final(self).second_player == old(self).second_player,
            final(self).step == old(self).step,
            final(self).left == old(self).left,
    {
        if self.turn_player == TurnPlayer::Black {
            self.black = self.black ^ (put_posi | rev_pat);
            self.white = self.white ^ rev_pat;
        } else {
            self.white = self.white ^ (put_posi | rev_pat);
            self.black = self.black ^ rev_pat;
        }
    }

    /// Plays `pmove` for the side to move (a placement flips what it
    /// captures; anything else passes), then hands the turn over.
    pub fn update_board(&mut self, pmove: Pmove)
        ensures
            ({
                let (b, w) = match pmove {
                    Pmove::Pvmove(mv) => {
                        let f = flips(old(self).first, old(self).second, mv);
                        if old(self).turn_player == TurnPlayer::Black {
                            (old(self).black ^ (mv | f), old(self).white ^ f)
                        } else {
                            (old(self).black ^ f, old(self).white ^ (mv | f))
                        }
                    },
                    _ => (old(self).black, old(self).white),
                };
                &&& final(self).black == b
                &&& final(self).white == w
            }),
            final(self).turn_player == old(self).turn_player.other(),
            final(self).turn_player == TurnPlayer::White ==> final(self).first == final(self).white
                && final(self).second == final(self).black,
            final(self).turn_player == TurnPlayer::Black ==> final(self).first == final(self).black
                && final(self).second == final(self).white,
            final(self).left == empties(final(self).black, final(self).white),
            final(self).first_player == old(self).first_player,
            final(self).second_player == old(self).second_player,
            old(self).step < u32::MAX ==> final(self).step == old(self).step + 1,
    {
        if let Pmove::Pvmove(mv) = pmove {
            let rever_pat = get_rev_pat(self.first, self.second, mv);
            self.put_stone(mv, rever_pat);
        }
        match self.turn_player {
            TurnPlayer::Black => {
                self.first = self.white;
                self.second = self.black;
                self.turn_player = TurnPlayer::White;
            },
            TurnPlayer::White => {
                self.first = self.black;
                self.second = self.white;
                self.turn_player = TurnPlayer::Black;
            },
        }
        if self.step < u32::MAX {
            self.step = self.step + 1;
        }
        let n = pop_count(self.black | self.white);
        self.left = BOARDSIZE_SQ - n as usize;
    }
}

} // verus!
