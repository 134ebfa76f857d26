use othello::bitboard::{can_locate, make_legal_actions};
use othello::board::Board;
use othello::mcts::{mcts_search, mcts_tree, most_visited_child, Node, NodeState, WinLose};
use othello::monte_carlo::{first_max_index, primitive_montecarlo, primitive_montecarlo_s, rollout};
use othello::player::{Pmove, TurnPlayer};
use rand::rngs::StdRng;
use rand::SeedableRng;

const BLACK_0: u64 = 0x0000_0008_1000_0000;
const WHITE_0: u64 = 0x0000_0010_0800_0000;

fn count_key(w: u32, n: u32, _parent: u32) -> u64 {
    ((w as u64) << 32) / (n as u64)
}

#[test]
fn rollout_of_finished_game_is_its_result() {
    let mut rng = StdRng::seed_from_u64(1);
    let black = 0xffff_ffff_ff00_0000u64;
    let white = 0x0000_0000_00ff_ffffu64;
    assert_eq!(rollout(&mut rng, black, white), 1);
    assert_eq!(rollout(&mut rng, white, black), -1);
    let half = 0xffff_ffff_0000_0000u64;
    assert_eq!(rollout(&mut rng, half, !half), 0);
}

#[test]
fn rollout_result_is_a_game_result() {
    let mut rng = StdRng::seed_from_u64(7);
    for _ in 0..20 {
        let r = rollout(&mut rng, BLACK_0, WHITE_0);
        assert!(r == -1 || r == 0 || r == 1);
    }
}

#[test]
fn first_max_index_takes_the_first_maximum() {
    assert_eq!(first_max_index(&vec![3, 7, 7, 1]), 1);
    assert_eq!(first_max_index(&vec![-5]), 0);
    assert_eq!(first_max_index(&vec![-5, -2, -9, -2]), 1);
}

#[test]
fn flat_monte_carlo_plays_legal_moves() {
    let mut rng = StdRng::seed_from_u64(11);
    let legal = make_legal_actions(BLACK_0, WHITE_0);
    match primitive_montecarlo_s(&mut rng, BLACK_0, WHITE_0) {
        Pmove::Pvmove(mv) => assert!(legal.contains(&mv)),
        other => panic!("unexpected decision {:?}", other),
    }
    match primitive_montecarlo(BLACK_0, WHITE_0, 60) {
        Pmove::Pvmove(mv) => assert!(legal.contains(&mv)),
        other => panic!("unexpected decision {:?}", other),
    }
}

#[test]
fn flat_monte_carlo_pass_and_single_move() {
    let mut rng = StdRng::seed_from_u64(3);
    let black = 0x8000_0000_0000_0000u64;
    let white = 0x4000_0000_0000_0000u64;
    assert_eq!(primitive_montecarlo_s(&mut rng, white, black), Pmove::Passmove);
    assert_eq!(primitive_montecarlo_s(&mut rng, black, white), Pmove::Pvmove(0x2000_0000_0000_0000));
}

#[test]
fn tree_search_plays_legal_moves() {
    let mut rng = StdRng::seed_from_u64(5);
    let legal = make_legal_actions(BLACK_0, WHITE_0);
    match mcts_search(BLACK_0, WHITE_0, 300, &mut rng, &count_key) {
        Pmove::Pvmove(mv) => assert!(legal.contains(&mv)),
        other => panic!("unexpected decision {:?}", other),
    }
}

#[test]
fn tree_search_pass_and_single_move() {
    let mut rng = StdRng::seed_from_u64(9);
    let black = 0x8000_0000_0000_0000u64;
    let white = 0x4000_0000_0000_0000u64;
    assert_eq!(mcts_search(white, black, 100, &mut rng, &count_key), Pmove::Passmove);
    assert_eq!(mcts_search(black, white, 100, &mut rng, &count_key), Pmove::Pvmove(0x2000_0000_0000_0000));
}

#[test]
fn most_visited_child_prefers_the_first_maximum() {
    let mut root = Node::new(TurnPlayer::Black, BLACK_0, WHITE_0, 0, 0);
    root.n_sa = 10;
    root.state = NodeState::Expanded;
    root.first_child = 1;
    root.n_children = 3;
    let mut tree = vec![root];
    for (i, (mv, visits)) in make_legal_actions(BLACK_0, WHITE_0).into_iter().zip([2u32, 4, 4]).enumerate() {
        let _ = i;
        let mut c = Node::new(TurnPlayer::White, 0, 0, mv, 1);
        c.n_sa = visits;
        c.winlose = WinLose::Undecided;
        tree.push(c);
    }
    assert_eq!(most_visited_child(&tree, 0), Some(2));
    tree[2].n_sa = 0;
    tree[3].n_sa = 0;
    tree[1].n_sa = 0;
    assert_eq!(most_visited_child(&tree, 0), None);
}

#[test]
fn board_update_applies_and_hands_over() {
    let mut board = Board::new((TurnPlayer::Black, "one".to_string(), "two".to_string()), BLACK_0, WHITE_0);
    assert_eq!(board.left, 60);
    assert!(board.is_can_play());
    let mv = make_legal_actions(BLACK_0, WHITE_0)[0];
    board.update_board(Pmove::Pvmove(mv));
    assert_eq!(board.black.count_ones(), 4);
    assert_eq!(board.white.count_ones(), 1);
    assert_eq!(board.turn_player, TurnPlayer::White);
    assert_eq!(board.first, board.white);
    assert_eq!(board.second, board.black);
    assert_eq!(board.left, 59);
    assert_eq!(board.step, 2);
    board.update_board(Pmove::Passmove);
    assert_eq!(board.turn_player, TurnPlayer::Black);
    assert_eq!(board.first, board.black);
    assert_eq!(board.black.count_ones(), 4);
    assert_eq!(board.left, 59);
}

#[test]
fn finished_board_cannot_play() {
    let board = Board::new((TurnPlayer::Black, "a".to_string(), "b".to_string()), 0xffff_ffff_ff00_0000, 0x0000_0000_00ff_ffff);
    assert!(!board.is_can_play());
    assert_eq!(board.left, 0);
    assert_eq!(can_locate(board.first, board.second), 0);
}

#[test]
fn tree_search_expands_the_root_once_per_legal_move() {
    let mut rng = StdRng::seed_from_u64(21);
    let tree = mcts_tree(BLACK_0, WHITE_0, 300, &mut rng, &count_key);
    let root = tree[0];
    assert_eq!(root.n_sa, 300);
    assert_eq!(root.state, NodeState::Expanded);
    assert_eq!(root.n_children, 4);
    let legal = make_legal_actions(BLACK_0, WHITE_0);
    let mut sum = 0u32;
    for j in 0..root.n_children {
        let c = tree[root.first_child + j];
        assert_eq!(c.action, legal[j]);
        sum += c.n_sa;
    }
    assert!(sum + 1 <= 300);
}

#[test]
fn tree_after_one_visit_has_no_children() {
    let mut rng = StdRng::seed_from_u64(22);
    let tree = mcts_tree(BLACK_0, WHITE_0, 1, &mut rng, &count_key);
    assert_eq!(tree[0].n_sa, 1);
    assert_eq!(tree[0].n_children, 0);
    assert_eq!(tree[0].state, NodeState::BelowThreshold);
}
