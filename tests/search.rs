use othello::alpha_beta::{alphabeta, alphabeta_s};
use othello::bitboard::{can_locate, make_legal_actions};
use othello::evaluator::{eval_all, eval_edge, eval_move, eval_open, eval_stones, eval_table};
use othello::player::Pmove;

const BLACK_0: u64 = 0x0000_0008_1000_0000;
const WHITE_0: u64 = 0x0000_0010_0800_0000;
const BLACK_1: u64 = 0x6000_1008_1012_0500;
const WHITE_1: u64 = 0x8EFC_EFF7_6F6D_3A3F;

#[test]
fn score_of_a_lone_corner() {
    let black = 0x8000_0000_0000_0000u64;
    assert_eq!(eval_stones(black, 0), 1);
    assert_eq!(eval_table(black, 0), 50);
    assert_eq!(eval_move(black, 0), 0);
    assert_eq!(eval_edge(black, 0), 0);
    assert_eq!(eval_open(black, 0), -3);
    assert_eq!(eval_all(black, 0, 63), 96);
    assert_eq!(eval_all(black, 0, 13), 2);
}

#[test]
fn score_of_start_position() {
    assert_eq!(eval_table(BLACK_0, WHITE_0), 0);
    assert_eq!(eval_move(BLACK_0, WHITE_0), 0);
    assert_eq!(eval_all(BLACK_0, WHITE_0, 60), 0);
}

#[test]
fn edge_pattern_ownership() {
    // the whole bottom row is owned by black
    let black = 0x0000_0000_0000_00ffu64;
    // row patterns inside the bottom rank: 5 + 5 + 1 (full row)
    assert_eq!(eval_edge(black, 0), 11);
    assert_eq!(eval_edge(0, black), -11);
}

#[test]
fn score_is_deterministic_and_antisymmetric() {
    for left in [5usize, 13, 14, 40] {
        let a = eval_all(BLACK_1, WHITE_1, left);
        assert_eq!(a, eval_all(BLACK_1, WHITE_1, left));
        assert_eq!(a, -eval_all(WHITE_1, BLACK_1, left));
    }
}

#[test]
fn negamax_symmetry_at_depth_zero() {
    let (a, _) = alphabeta_s(BLACK_1, WHITE_1, 0, -100, 100, 20);
    let (b, _) = alphabeta_s(WHITE_1, BLACK_1, 0, -100, 100, 20);
    assert_eq!(a, -b);
}

#[test]
fn eliminated_mover_is_lost_at_every_depth() {
    for depth in 1..5 {
        assert_eq!(alphabeta_s(0, WHITE_0, depth, i32::MIN + 10, i32::MAX - 10, 60), (i32::MIN + 10, Pmove::Endnode));
    }
}

#[test]
fn finished_game_is_terminal() {
    // full board, black 40 discs, white 24
    let black = 0xffff_ffff_ff00_0000u64;
    let white = 0x0000_0000_00ff_ffffu64;
    assert_eq!(can_locate(black, white), 0);
    assert_eq!(can_locate(white, black), 0);
    let (v, m) = alphabeta_s(black, white, 3, i32::MIN + 10, i32::MAX - 10, 0);
    assert_eq!(m, Pmove::Endnode);
    assert_eq!(v, 1000 * eval_all(black, white, 0));
    assert_eq!(v, 1000 * 2 * 16);
    assert_eq!(alphabeta(black, white, 0), Pmove::Passmove);
}

#[test]
fn alphabeta_plays_a_legal_move_from_the_start() {
    let legal = make_legal_actions(BLACK_0, WHITE_0);
    match alphabeta(BLACK_0, WHITE_0, 60) {
        Pmove::Pvmove(mv) => assert!(legal.contains(&mv)),
        other => panic!("unexpected decision {:?}", other),
    }
}

#[test]
fn alphabeta_endgame_search() {
    // black to move in a nearly full position; the search reads to the end
    let legal = make_legal_actions(BLACK_1, WHITE_1);
    assert!(!legal.is_empty());
    match alphabeta(BLACK_1, WHITE_1, 64 - (BLACK_1 | WHITE_1).count_ones() as usize) {
        Pmove::Pvmove(mv) => assert!(legal.contains(&mv)),
        other => panic!("unexpected decision {:?}", other),
    }
}

#[test]
fn alphabeta_passes_without_moves() {
    // white has no disc next to an empty square that black could use
    let black = 0x8000_0000_0000_0000u64;
    let white = 0x4000_0000_0000_0000u64;
    assert_eq!(can_locate(white, black), 0);
    assert_eq!(alphabeta(white, black, 62), Pmove::Passmove);
    assert_eq!(alphabeta(black, white, 62), Pmove::Pvmove(0x2000_0000_0000_0000));
}
