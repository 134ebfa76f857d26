//! Monte Carlo tree search with UCB1 selection, random playouts and the
//! propagation of proven wins and losses.
//!
//! The tree is an arena: nodes live in a `Vec` and a node's children are
//! the contiguous run `first_child .. first_child + n_children`.

use vstd::prelude::*;
use rand::rngs::StdRng;
use crate::bitboard::{
    can_locate, legal_moves, lemma_popcount_bound, lemma_squares_of_step,
    make_legal_actions, pop_count, progress, squares_of,
};
use crate::monte_carlo::{next_position, play, rollout};
use crate::player::{Pmove, TurnPlayer};

verus! {

/// Number of visits from the root per decision.
pub const SIMULATIONS: u32 = 5000;

/// Visits after which a node is expanded.
pub const THRESHOLD: u32 = 1;

/// Proven result of a node, from Black's side.
#[derive(Clone, Copy, Debug, PartialEq, Eq, Structural)]
pub enum WinLose {
    Win,
    Lose,
    Draw,
    Undecided,
}

/// Expansion state of a node.
#[derive(Clone, Copy, Debug, PartialEq, Eq, Structural)]
pub enum NodeState {
    Unvisited,
    Pass,
    End,
    BelowThreshold,
    Expanded,
}

/// A search node. `value` is the last result of a visit, seen from the
/// side that moved into the node (-2 loss, 0 draw, 2 win).
#[derive(Clone, Copy, Debug)]
pub struct Node {
    pub turn_player: TurnPlayer,
    pub my_piece: u64,
    pub en_piece: u64,
    pub n_sa: u32,
    pub w_sa: u32,
    pub value: i32,
    pub step: u32,
    pub winlose: WinLose,
    pub state: NodeState,
    pub action: u64,
    pub first_child: usize,
    pub n_children: usize,
}

pub open spec fn node_progress(n: Node) -> nat {
    progress(n.my_piece, n.en_piece)
}

/// Shape of node `i` of the arena `t`.
pub open spec fn node_wf(t: Seq<Node>, i: int) -> bool {
    let n = t[i];
    &&& n.my_piece & n.en_piece == 0
    &&& n.value == -2 || n.value == 0 || n.value == 2
    &&& n.n_sa == 0 ==> n.n_children == 0
    &&& n.w_sa <= 2 * n.n_sa
    &&& n.state == NodeState::End ==> n.n_children == 0 && n.winlose != WinLose::Undecided
        && legal_moves(n.my_piece, n.en_piece) == 0 && legal_moves(n.en_piece, n.my_piece) == 0
    &&& 1 <= n.step && n.step + node_progress(n) <= 130
    &&& n.n_children > 0 ==> i < n.first_child && n.first_child + n.n_children <= t.len()
    &&& n.n_children > 0 ==> n.state == NodeState::Pass || n.state == NodeState::Expanded
    &&& n.state == NodeState::Pass ==> n.n_children == 1 && legal_moves(n.my_piece, n.en_piece) == 0
    &&& n.state == NodeState::Expanded ==> n.n_children >= 1
    &&& forall|c: int|
        n.first_child <= c < n.first_child + n.n_children ==> node_progress(#[trigger] t[c])
            < node_progress(n) && t[c].step == n.step + 1
    &&& n.state == NodeState::Expanded ==> expanded_children(t, n)
}

/// Child `j` of a node with position (`m`, `o`): the `j`-th legal placement
/// and the position it leads to.
pub open spec fn child_matches(ch: Node, m: u64, o: u64, j: int) -> bool {
    let sq = squares_of(legal_moves(m, o));
    &&& ch.action == sq[j]
    &&& ch.my_piece == next_position(m, o, sq[j]).0
    &&& ch.en_piece == next_position(m, o, sq[j]).1
}

/// The children of an expanded node are one per legal placement, in the
/// order of `squares_of`, each holding the position after that placement.
#[verifier::opaque]
pub open spec fn expanded_children(t: Seq<Node>, n: Node) -> bool {
    &&& n.n_children == squares_of(legal_moves(n.my_piece, n.en_piece)).len()
    &&& forall|c: int|
        n.first_child <= c < n.first_child + n.n_children ==> child_matches(
            #[trigger] t[c],
            n.my_piece,
            n.en_piece,
            c - n.first_child,
        )
}

/// Every node of the arena is well formed.
pub open spec fn tree_wf(t: Seq<Node>) -> bool {
    forall|i: int| 0 <= i < t.len() ==> #[trigger] node_wf(t, i)
}

/// Nodes below `len` keep their position.
pub open spec fn keeps_positions(t: Seq<Node>, u: Seq<Node>) -> bool {
    &&& u.len() >= t.len()
    &&& forall|i: int|
        0 <= i < t.len() ==> (#[trigger] u[i]).my_piece == t[i].my_piece && u[i].en_piece
            == t[i].en_piece && u[i].turn_player == t[i].turn_player && u[i].step == t[i].step
}

/// Sum of the visit counts of the children of node `idx`.
pub open spec fn child_visits(t: Seq<Node>, idx: int) -> int {
    visits_in(t, t[idx].first_child as int, t[idx].n_children as int)
}

/// Sum of the visit counts of the `n` nodes from index `start`.
pub open spec fn visits_in(t: Seq<Node>, start: int, n: int) -> int
    decreases n,
{
    if n <= 0 {
        0
    } else {
        visits_in(t, start, n - 1) + t[start + n - 1].n_sa
    }
}

/// Every child of node `idx` proves a loss for the side to move there.
pub open spec fn all_children_lost(t: Seq<Node>, idx: int) -> bool {
    forall|c: int|
        t[idx].first_child <= c < t[idx].first_child + t[idx].n_children ==> proves_loss(
            t[idx].turn_player,
            (#[trigger] t[c]).winlose,
        )
}

proof fn lemma_visits_in_bump(t: Seq<Node>, u: Seq<Node>, start: int, n: int, c: int)
    requires
        0 <= start,
        start + n <= t.len(),
        t.len() <= u.len(),
        start <= c < start + n,
        u[c].n_sa == t[c].n_sa + 1,
        forall|i: int| start <= i < start + n && i != c ==> (#[trigger] u[i]).n_sa == t[i].n_sa,
    ensures
        visits_in(u, start, n) == visits_in(t, start, n) + 1,
    decreases n,
{
    if n > 0 {
        if c < start + n - 1 {
            lemma_visits_in_bump(t, u, start, n - 1, c);
        } else {
            lemma_visits_in_same(t, u, start, n - 1);
        }
    }
}

proof fn lemma_visits_in_same(t: Seq<Node>, u: Seq<Node>, start: int, n: int)
    requires
        0 <= start,
        start + n <= t.len(),
        t.len() <= u.len(),
        forall|i: int| start <= i < start + n ==> (#[trigger] u[i]).n_sa == t[i].n_sa,
    ensures
        visits_in(u, start, n) == visits_in(t, start, n),
    decreases n,
{
    if n > 0 {
        lemma_visits_in_same(t, u, start, n - 1);
    }
}

proof fn lemma_visits_in_zero(t: Seq<Node>, start: int, n: int)
    requires
        0 <= start,
        start + n <= t.len(),
        forall|i: int| start <= i < start + n ==> (#[trigger] t[i]).n_sa == 0,
    ensures
        visits_in(t, start, n) == 0,
    decreases n,
{
    if n > 0 {
        lemma_visits_in_zero(t, start, n - 1);
    }
}

proof fn lemma_wf_push(t: Seq<Node>, x: Node)
    requires
        tree_wf(t),
        x.my_piece & x.en_piece == 0,
        x.value == 0,
        x.n_children == 0,
        x.state == NodeState::Unvisited,
        x.w_sa == 0,
        1 <= x.step,
        x.step + node_progress(x) <= 130,
    ensures
        tree_wf(t.push(x)),
        keeps_positions(t, t.push(x)),
{
    let u = t.push(x);
    reveal(expanded_children);
    assert forall|i: int| 0 <= i < u.len() implies #[trigger] node_wf(u, i) by {
        if i < t.len() {
            assert(node_wf(t, i));
            let n = t[i];
            if n.state == NodeState::Expanded {
                assert forall|c: int| n.first_child <= c < n.first_child + n.n_children implies child_matches(
                    #[trigger] u[c], n.my_piece, n.en_piece, c - n.first_child) by {
                    assert(u[c] == t[c]);
                }
            }
            assert forall|c: int| n.first_child <= c < n.first_child + n.n_children implies node_progress(
                #[trigger] u[c],
            ) < node_progress(n) by {
                assert(u[c] == t[c]);
            }
        }
    }
}

proof fn lemma_wf_set(t: Seq<Node>, idx: int, x: Node)
    requires
        tree_wf(t),
        0 <= idx < t.len(),
        x.my_piece == t[idx].my_piece,
        x.en_piece == t[idx].en_piece,
        x.turn_player == t[idx].turn_player,
        x.action == t[idx].action,
        x.step == t[idx].step,
        node_wf(t.update(idx, x), idx),
    ensures
        tree_wf(t.update(idx, x)),
        keeps_positions(t, t.update(idx, x)),
{
    let u = t.update(idx, x);
    assert forall|i: int| 0 <= i < u.len() implies #[trigger] node_wf(u, i) by {
        if i != idx {
            assert(node_wf(t, i));
            let n = t[i];
            assert forall|c: int| n.first_child <= c < n.first_child + n.n_children implies node_progress(
                #[trigger] u[c],
            ) < node_progress(n) by {
                if c != idx {
                    assert(u[c] == t[c]);
                }
            }
            if n.state == NodeState::Expanded {
                reveal(expanded_children);
                assert forall|c: int| n.first_child <= c < n.first_child + n.n_children implies child_matches(
                    #[trigger] u[c], n.my_piece, n.en_piece, c - n.first_child) by {
                    if c != idx {
                        assert(u[c] == t[c]);
                    } else {
                        assert(child_matches(t[c], n.my_piece, n.en_piece, c - n.first_child));
                    }
                }
            }
        }
    }
}

impl Node {
    /// A fresh node one ply below a node at step `step1`.
    pub fn new(turn_player: TurnPlayer, my_piece: u64, en_piece: u64, action: u64, step1: u32) -> (r: Node)
        ensures
            r.turn_player == turn_player,
            r.my_piece == my_piece,
            r.en_piece == en_piece,
            r.action == action,
            r.n_sa == 0,
            r.w_sa == 0,
            r.value == 0,
            step1 < u32::MAX ==> r.step == step1 + 1,
            r.winlose == WinLose::Undecided,
            r.state == NodeState::Unvisited,
            r.n_children == 0,
    {
        Node {
            turn_player,
            my_piece,
            en_piece,
            n_sa: 0,
            w_sa: 0,
            value: 0,
            step: if step1 < u32::MAX { step1 + 1 } else { step1 },
            winlose: WinLose::Undecided,
            state: NodeState::Unvisited,
            action,
            first_child: 0,
            n_children: 0,
        }
    }
}

/// Reward added to a node's total for a visit of value `v` (-2, 0, 2 map
/// to 0, 1, 2).
pub open spec fn reward(v: int) -> int {
    (v + 2) / 2
}

fn add_reward(w: u32, v: i32) -> (r: u32)
    requires
        -2 <= v <= 2,
    ensures
        w + reward(v as int) <= u32::MAX ==> r == w + reward(v as int),
        r <= w + 2,
{
    let d = ((v + 2) / 2) as u32;
    if w <= u32::MAX - d {
        w + d
    } else {
        u32::MAX
    }
}

/// Appends one child per legal placement of node `idx` and marks it
/// expanded.
fn expand(tree: &mut Vec<Node>, idx: usize)
    requires
        tree_wf(old(tree)@),
        idx < old(tree).len(),
        old(tree)@[idx as int].n_children == 0,
        old(tree)@[idx as int].n_sa > 0,
        legal_moves(old(tree)@[idx as int].my_piece, old(tree)@[idx as int].en_piece) != 0,
    ensures
        tree_wf(final(tree)@),
        keeps_positions(old(tree)@, final(tree)@),
        final(tree)@[idx as int].state == NodeState::Expanded,
        final(tree)@[idx as int].n_sa == old(tree)@[idx as int].n_sa,
        final(tree)@[idx as int].w_sa == old(tree)@[idx as int].w_sa,
        final(tree)@[idx as int].step == old(tree)@[idx as int].step,
        final(tree)@[idx as int].first_child == old(tree).len(),
        forall|i: int| 0 <= i < old(tree).len() && i != idx ==> #[trigger] final(tree)@[i] == old(tree)@[i],
        forall|i: int| old(tree).len() <= i < final(tree).len() ==> (#[trigger] final(tree)@[i]).n_sa == 0,
        final(tree)@[idx as int].first_child + final(tree)@[idx as int].n_children == final(tree).len(),
{
    let nd = tree[idx];
    let actions = make_legal_actions(nd.my_piece, nd.en_piece);
    let fc = tree.len();
    let ghost t0 = tree@;
    let mut k: usize = 0;
    proof {
        lemma_squares_of_step(legal_moves(nd.my_piece, nd.en_piece));
        assert(node_wf(t0, idx as int));
    }
    while k < actions.len()
        invariant
            tree_wf(tree@),
            keeps_positions(t0, tree@),
            idx < fc == t0.len(),
            tree@[idx as int] == nd,
            nd == t0[idx as int],
            nd.my_piece & nd.en_piece == 0,
            1 <= nd.step,
            nd.step + node_progress(nd) <= 130,
            actions@ == squares_of(legal_moves(nd.my_piece, nd.en_piece)),
            k <= actions.len(),
            tree.len() == fc + k,
            forall|i: int| 0 <= i < fc ==> #[trigger] tree@[i] == t0[i],
            forall|i: int| fc <= i < tree.len() ==> (#[trigger] tree@[i]).n_sa == 0,
            forall|c: int|
                fc <= c < fc + k ==> node_progress(#[trigger] tree@[c]) < node_progress(nd)
                    && tree@[c].step == nd.step + 1 && child_matches(tree@[c], nd.my_piece, nd.en_piece, c - fc),
        decreases actions.len() - k,
    {
        let action = actions[k];
        assert(actions@.contains(action)) by {
            assert(actions@[k as int] == action);
        }
        let (cm, co) = play(nd.my_piece, nd.en_piece, action);
        let child = Node::new(nd.turn_player.flip(), cm, co, action, nd.step);
        proof {
            lemma_wf_push(tree@, child);
        }
        tree.push(child);
        k = k + 1;
    }
    let mut nd2 = nd;
    nd2.first_child = fc;
    nd2.n_children = actions.len();
    nd2.state = NodeState::Expanded;
    proof {
        let u = tree@.update(idx as int, nd2);
        reveal(expanded_children);
        assert forall|c: int| fc <= c < fc + actions.len() implies child_matches(
            #[trigger] u[c], nd2.my_piece, nd2.en_piece, c - nd2.first_child) by {
            assert(u[c] == tree@[c]);
        }
        assert(expanded_children(u, nd2));
        assert forall|c: int| fc <= c < fc + actions.len() implies node_progress(#[trigger] u[c])
            < node_progress(nd2) && u[c].step == nd2.step + 1 by {
            assert(u[c] == tree@[c]);
        }
        assert(u[idx as int] == nd2);
        assert(actions.len() >= 1);
        assert(node_wf(u, idx as int));
        lemma_wf_set(tree@, idx as int, nd2);
    }
    tree.set(idx, nd2);
}


/// Writes back node `idx` after a visit changed its counters, value,
/// proven result or (for a childless node) its state.
fn set_node(tree: &mut Vec<Node>, idx: usize, x: Node)
    requires
        tree_wf(old(tree)@),
        idx < old(tree).len(),
        x.my_piece == old(tree)@[idx as int].my_piece,
        x.en_piece == old(tree)@[idx as int].en_piece,
        x.turn_player == old(tree)@[idx as int].turn_player,
        x.action == old(tree)@[idx as int].action,
        x.step == old(tree)@[idx as int].step,
        x.first_child == old(tree)@[idx as int].first_child,
        x.n_children == old(tree)@[idx as int].n_children,
        x.n_sa >= old(tree)@[idx as int].n_sa,
        x.state == old(tree)@[idx as int].state || (x.n_children == 0 && x.state
            != NodeState::Pass && x.state != NodeState::Expanded),
        x.value == -2 || x.value == 0 || x.value == 2,
        x.w_sa <= 2 * x.n_sa,
        x.state == NodeState::End ==> x.winlose != WinLose::Undecided && legal_moves(x.my_piece, x.en_piece)
            == 0 && legal_moves(x.en_piece, x.my_piece) == 0,
    ensures
        tree_wf(final(tree)@),
        keeps_positions(old(tree)@, final(tree)@),
        final(tree)@ == old(tree)@.update(idx as int, x),
{
    proof {
        let t = tree@;
        let u = t.update(idx as int, x);
        assert(node_wf(t, idx as int));
        let n = t[idx as int];
        assert forall|c: int| x.first_child <= c < x.first_child + x.n_children implies #[trigger] u[c]
            == t[c] by {}
        if x.state == NodeState::Expanded {
            reveal(expanded_children);
            assert forall|c: int| x.first_child <= c < x.first_child + x.n_children implies child_matches(
                #[trigger] u[c], x.my_piece, x.en_piece, c - x.first_child) by {
                assert(u[c] == t[c]);
            }
        }
        assert(node_wf(u, idx as int));
        lemma_wf_set(t, idx as int, x);
    }
    tree.set(idx, x);
}

/// What a visit of an expanded node does next.
pub enum Scan {
    /// This child proves a win for the side to move: adopt its result.
    Proven(usize),
    /// Every child proves a loss for the side to move: adopt the first.
    AllLosing,
    /// Descend into this child.
    Visit(usize),
}

/// Whether a child's proven result is a win for `turn`, the side to move
/// at its parent.
pub open spec fn proves_win(turn: TurnPlayer, w: WinLose) -> bool {
    if turn == TurnPlayer::Black {
        w == WinLose::Win
    } else {
        w == WinLose::Lose
    }
}

/// Whether a child's proven result is a loss for `turn`.
pub open spec fn proves_loss(turn: TurnPlayer, w: WinLose) -> bool {
    if turn == TurnPlayer::Black {
        w == WinLose::Lose
    } else {
        w == WinLose::Win
    }
}

/// Scans the children of the expanded node `idx` in order. A child that
/// proves a win for the mover ends the scan (except at the root's first
/// ply, step 1); so does the first unvisited child, which is chosen. When
/// every child proves a loss the first child's result is adopted.
/// Otherwise the first child with the largest `ucb` key is chosen.
fn scan_children<F: Fn(u32, u32, u32) -> u64>(tree: &Vec<Node>, idx: usize, ucb: &F) -> (r: Scan)
    requires
        tree_wf(tree@),
        idx < tree.len(),
        tree@[idx as int].state == NodeState::Expanded,
        forall|a: u32, b: u32, c: u32| ucb.requires((a, b, c)),
    ensures
        match r {
            Scan::Proven(c) => {
                let n = tree@[idx as int];
                &&& n.first_child <= c < n.first_child + n.n_children
                &&& proves_win(n.turn_player, tree@[c as int].winlose)
                &&& n.step > 1
            },
            Scan::AllLosing => forall|c: int|
                tree@[idx as int].first_child <= c < tree@[idx as int].first_child
                    + tree@[idx as int].n_children ==> proves_loss(
                    tree@[idx as int].turn_player,
                    (#[trigger] tree@[c]).winlose,
                ),
            Scan::Visit(c) => tree@[idx as int].first_child <= c < tree@[idx as int].first_child
                + tree@[idx as int].n_children,
        },
{
    let nd = tree[idx];
    proof {
        assert(node_wf(tree@, idx as int));
    }
    let fc = nd.first_child;
    let nc = nd.n_children;
    let mut selected: usize = fc;
    let mut has_sel = false;
    let mut best: u64 = 0;
    let mut bias_all = true;
    let mut k: usize = 0;
    while k < nc
        invariant
            nd == tree@[idx as int],
            fc == nd.first_child,
            nc == nd.n_children,
            nc >= 1,
            fc + nc <= tree.len(),
            k <= nc,
            forall|a: u32, b: u32, c: u32| ucb.requires((a, b, c)),
            k > 0 ==> has_sel,
            has_sel ==> fc <= selected < fc + nc,
            bias_all ==> forall|c: int| fc <= c < fc + k ==> proves_loss(nd.turn_player, (#[trigger] tree@[c]).winlose),
        decreases nc - k,
    {
        let ch = tree[fc + k];
        let is_win = if nd.turn_player == TurnPlayer::Black {
            ch.winlose == WinLose::Win
        } else {
            ch.winlose == WinLose::Lose
        };
        if is_win && nd.step > 1 {
            return Scan::Proven(fc + k);
        }
        let not_bias = if nd.turn_player == TurnPlayer::Black {
            ch.winlose != WinLose::Lose
        } else {
            ch.winlose != WinLose::Win
        };
        if not_bias {
            bias_all = false;
        }
        if ch.n_sa == 0 {
            return Scan::Visit(fc + k);
        }
        let key = ucb(ch.w_sa, ch.n_sa, nd.n_sa);
        if !has_sel || best < key {
            best = key;
            selected = fc + k;
            has_sel = true;
        }
        k = k + 1;
    }
    if bias_all {
        return Scan::AllLosing;
    }
    Scan::Visit(selected)
}

/// What a visit of node `idx` may change, and how it counts: node `idx`
/// gains one visit, no other node at its depth or above changes, no node
/// gains more than one visit, and the children of `idx` gain one visit in
/// all (unless the node is a pass, at a leaf, below the root's first ply,
/// on its first visit, or every child is proven lost).
pub open spec fn visit_effect(t: Seq<Node>, u: Seq<Node>, idx: int) -> bool {
    &&& forall|i: int|
        0 <= i < t.len() && i != idx && t[i].step <= t[idx].step ==> #[trigger] u[i] == t[i]
    &&& u[idx].n_sa == t[idx].n_sa + 1
    &&& forall|i: int| 0 <= i < t.len() ==> (#[trigger] u[i]).n_sa <= t[i].n_sa + 1
    &&& forall|i: int| t.len() <= i < u.len() ==> (#[trigger] u[i]).n_sa <= 1
    &&& t[idx].n_children > 0 ==> u[idx].first_child == t[idx].first_child && u[idx].n_children
        == t[idx].n_children
    &&& {
        ||| child_visits(u, idx) == (if t[idx].n_children > 0 {
            child_visits(t, idx)
        } else {
            0
        }) + 1
        ||| child_visits(u, idx) == (if t[idx].n_children > 0 {
            child_visits(t, idx)
        } else {
            0
        }) && (u[idx].step > 1 || all_children_lost(u, idx))
        ||| u[idx].n_sa == 1
        ||| u[idx].n_children == 0
        ||| u[idx].state == NodeState::Pass
    }
}

/// How a visit moves a node with legal placements through its states: the
/// first visit leaves it childless below the expansion threshold, and any
/// later visit leaves it expanded.
pub open spec fn state_effect(t: Seq<Node>, u: Seq<Node>, idx: int) -> bool {
    let n = t[idx];
    &&& n.n_sa == 0 && legal_moves(n.my_piece, n.en_piece) != 0 ==> u[idx].n_children == 0
        && u[idx].state == NodeState::BelowThreshold
    &&& n.n_sa >= 1 && legal_moves(n.my_piece, n.en_piece) != 0 && (n.state
        == NodeState::BelowThreshold || n.state == NodeState::Expanded) ==> u[idx].state
        == NodeState::Expanded
}

/// The bound on visit counts under which no count overflows.
pub open spec fn counts_below(t: Seq<Node>, bound: int, idx: int) -> bool {
    &&& forall|i: int| 0 <= i < t.len() ==> (#[trigger] t[i]).n_sa <= bound
    &&& bound - t[idx].step <= 4_294_967_000
}

#[verifier::rlimit(100)]
/// One visit of node `idx`: returns the value of the visit for the side
/// that moved into the node (-2, 0 or 2) and updates the statistics of the
/// nodes on the path. `ucb(w, n, parent_n)` orders the visited children of
/// an expanded node; the first child with the largest key is chosen.
fn evaluate<F: Fn(u32, u32, u32) -> u64>(
    tree: &mut Vec<Node>,
    idx: usize,
    rng: &mut StdRng,
    ucb: &F,
    Ghost(bound): Ghost<int>,
) -> (r: i32)
    requires
        tree_wf(old(tree)@),
        idx < old(tree).len(),
        counts_below(old(tree)@, bound, idx as int),
        forall|a: u32, b: u32, c: u32| ucb.requires((a, b, c)),
    ensures
        tree_wf(final(tree)@),
        keeps_positions(old(tree)@, final(tree)@),
        visit_effect(old(tree)@, final(tree)@, idx as int),
        state_effect(old(tree)@, final(tree)@, idx as int),
        r == -2 || r == 0 || r == 2,
    decreases node_progress(old(tree)@[idx as int]), 1int,
{
    let ghost t0 = tree@;
    proof {
        assert(node_wf(t0, idx as int));
        assert(t0[idx as int].n_sa <= bound);
    }
    let mut nd = tree[idx];
    nd.n_sa = nd.n_sa + 1;
    set_node(tree, idx, nd);
    let ghost t1 = tree@;
    proof {
        if t0[idx as int].n_children > 0 {
            lemma_visits_in_same(t0, t1, nd.first_child as int, nd.n_children as int);
        }
    }
    if nd.n_sa == 1 {
        let own = can_locate(nd.my_piece, nd.en_piece);
        if own == 0 {
            if can_locate(nd.en_piece, nd.my_piece) == 0 {
                nd.state = NodeState::End;
                let a = pop_count(nd.my_piece);
                let b = pop_count(nd.en_piece);
                if a == b {
                    nd.winlose = WinLose::Draw;
                    nd.value = 0;
                } else if a > b {
                    nd.winlose = if nd.turn_player == TurnPlayer::Black {
                        WinLose::Win
                    } else {
                        WinLose::Lose
                    };
                    nd.value = -2;
                } else {
                    nd.winlose = if nd.turn_player == TurnPlayer::Black {
                        WinLose::Lose
                    } else {
                        WinLose::Win
                    };
                    nd.value = 2;
                }
                nd.w_sa = add_reward(nd.w_sa, nd.value);
                set_node(tree, idx, nd);
                return nd.value;
            } else {
                let child = Node::new(nd.turn_player.flip(), nd.en_piece, nd.my_piece, 0, nd.step);
                let fc = tree.len();
                proof {
                    let (pm, pe) = (nd.my_piece, nd.en_piece);
                    assert(pe & pm == 0 && pe | pm == pm | pe) by (bit_vector)
                        requires
                            pm & pe == 0,
                    ;
                    lemma_popcount_bound(nd.my_piece | nd.en_piece);
                    assert(node_progress(child) < node_progress(nd));
                    lemma_wf_push(tree@, child);
                }
                tree.push(child);
                nd.state = NodeState::Pass;
                nd.first_child = fc;
                nd.n_children = 1;
                proof {
                    let t = tree@;
                    let u = t.update(idx as int, nd);
                    assert(u[fc as int] == child);
                    assert(node_wf(u, idx as int));
                    lemma_wf_set(t, idx as int, nd);
                }
                tree.set(idx, nd);
                let ghost t2 = tree@;
                proof {
                    assert(node_wf(t2, idx as int));
                    assert(t2[fc as int] == child);
                    assert(counts_below(t2, bound + 1, fc as int));
                }
                let v = evaluate(tree, fc, rng, ucb, Ghost(bound + 1));
                let value = -v;
                let mut nd2 = tree[idx];
                nd2.w_sa = add_reward(nd2.w_sa, value);
                proof {
                    assert(node_wf(tree@, idx as int));
                }
                set_node(tree, idx, nd2);
                return value;
            }
        } else {
            nd.state = NodeState::BelowThreshold;
            set_node(tree, idx, nd);
        }
    }
    if nd.n_sa > THRESHOLD && nd.n_children == 0 && nd.state == NodeState::BelowThreshold {
        proof {
            assert(node_wf(tree@, idx as int));
        }
        if can_locate(nd.my_piece, nd.en_piece) != 0 {
            expand(tree, idx);
            proof {
                let n = tree@[idx as int];
                lemma_visits_in_zero(tree@, n.first_child as int, n.n_children as int);
            }
        }
        nd = tree[idx];
    }
    proof {
        assert(node_wf(tree@, idx as int));
    }
    match nd.state {
        NodeState::End => {
            nd.w_sa = add_reward(nd.w_sa, nd.value);
            set_node(tree, idx, nd);
            nd.value
        },
        NodeState::Pass => {
            let c = nd.first_child;
            let ch = tree[c];
            proof {
                assert(node_wf(tree@, c as int));
            }
            if ch.winlose != WinLose::Undecided && nd.step > 1 {
                nd.winlose = ch.winlose;
                nd.value = -ch.value;
                nd.w_sa = add_reward(nd.w_sa, nd.value);
                set_node(tree, idx, nd);
                nd.value
            } else {
                proof {
                    assert(counts_below(tree@, bound + 1, c as int));
                }
                let v = evaluate(tree, c, rng, ucb, Ghost(bound + 1));
                let mut nd2 = tree[idx];
                proof {
                    assert(node_wf(tree@, idx as int));
                }
                nd2.value = -v;
                nd2.w_sa = add_reward(nd2.w_sa, nd2.value);
                set_node(tree, idx, nd2);
                nd2.value
            }
        },
        NodeState::BelowThreshold => {
            let v = rollout(rng, nd.my_piece, nd.en_piece);
            nd.value = -(v + v);
            nd.w_sa = add_reward(nd.w_sa, nd.value);
            set_node(tree, idx, nd);
            nd.value
        },
        NodeState::Expanded => visit_expanded(tree, idx, rng, ucb, Ghost(bound)),
        NodeState::Unvisited => nd.value,
    }
}

#[verifier::rlimit(100)]
/// The rest of a visit of an expanded node: adopt a proven result, or
/// descend into the chosen child.
fn visit_expanded<F: Fn(u32, u32, u32) -> u64>(
    tree: &mut Vec<Node>,
    idx: usize,
    rng: &mut StdRng,
    ucb: &F,
    Ghost(bound): Ghost<int>,
) -> (r: i32)
    requires
        tree_wf(old(tree)@),
        idx < old(tree).len(),
        old(tree)@[idx as int].state == NodeState::Expanded,
        old(tree)@[idx as int].w_sa + 2 <= 2 * old(tree)@[idx as int].n_sa,
        forall|i: int| 0 <= i < old(tree).len() ==> (#[trigger] old(tree)@[i]).n_sa <= bound + 1,
        bound - old(tree)@[idx as int].step <= 4_294_967_000,
        forall|a: u32, b: u32, c: u32| ucb.requires((a, b, c)),
    ensures
        tree_wf(final(tree)@),
        keeps_positions(old(tree)@, final(tree)@),
        forall|i: int|
            0 <= i < old(tree).len() && i != idx && old(tree)@[i].step <= old(tree)@[idx as int].step
                ==> #[trigger] final(tree)@[i] == old(tree)@[i],
        final(tree)@[idx as int].n_sa == old(tree)@[idx as int].n_sa,
        forall|i: int|
            0 <= i < old(tree).len() && i != idx ==> (#[trigger] final(tree)@[i]).n_sa <= old(
                tree,
            )@[i].n_sa + 1,
        forall|i: int| old(tree).len() <= i < final(tree).len() ==> (#[trigger] final(tree)@[i]).n_sa <= 1,
        final(tree)@[idx as int].first_child == old(tree)@[idx as int].first_child,
        final(tree)@[idx as int].n_children == old(tree)@[idx as int].n_children,
        final(tree)@[idx as int].step == old(tree)@[idx as int].step,
        final(tree)@[idx as int].state == old(tree)@[idx as int].state,
        ({
            ||| child_visits(final(tree)@, idx as int) == child_visits(old(tree)@, idx as int) + 1
            ||| child_visits(final(tree)@, idx as int) == child_visits(old(tree)@, idx as int) && (
            final(tree)@[idx as int].step > 1 || all_children_lost(final(tree)@, idx as int))
        }),
        r == -2 || r == 0 || r == 2,
    decreases node_progress(old(tree)@[idx as int]), 0int,
{
    let ghost t0 = tree@;
    let mut nd = tree[idx];
    proof {
        assert(node_wf(t0, idx as int));
    }
    let fc = nd.first_child;
    match scan_children(tree, idx, ucb) {
        Scan::Proven(c) => {
            let ch = tree[c];
            proof {
                assert(node_wf(tree@, c as int));
            }
            nd.value = -ch.value;
            nd.w_sa = add_reward(nd.w_sa, nd.value);
            nd.winlose = ch.winlose;
            set_node(tree, idx, nd);
            proof {
                lemma_visits_in_same(t0, tree@, nd.first_child as int, nd.n_children as int);
            }
            nd.value
        },
        Scan::AllLosing => {
            let c0 = tree[fc];
            proof {
                assert(node_wf(tree@, fc as int));
            }
            nd.winlose = c0.winlose;
            nd.value = -c0.value;
            nd.w_sa = add_reward(nd.w_sa, nd.value);
            set_node(tree, idx, nd);
            proof {
                assert forall|c: int| nd.first_child <= c < nd.first_child + nd.n_children implies #[trigger] tree@[c] == t0[c] by {}
                lemma_visits_in_same(t0, tree@, nd.first_child as int, nd.n_children as int);
            }
            nd.value
        },
        Scan::Visit(selected) => {
            proof {
                assert(tree@[selected as int].step == nd.step + 1);
                assert(counts_below(tree@, bound + 1, selected as int));
            }
            let v = evaluate(tree, selected, rng, ucb, Ghost(bound + 1));
            let ghost t1 = tree@;
            let mut nd2 = tree[idx];
            proof {
                assert(node_wf(tree@, idx as int));
            }
            nd2.value = -v;
            nd2.w_sa = add_reward(nd2.w_sa, nd2.value);
            set_node(tree, idx, nd2);
            proof {
                assert forall|i: int| nd.first_child <= i < nd.first_child + nd.n_children && i != selected implies (#[trigger] tree@[i]).n_sa == t0[i].n_sa by {
                    assert(t0[i].step == nd.step + 1);
                    assert(t1[i] == t0[i]);
                }
                lemma_visits_in_bump(t0, tree@, nd.first_child as int, nd.n_children as int, selected as int);
            }
            nd2.value
        },
    }
}

/// The child of node `idx` with the most visits, the first of several
/// equal ones; `None` when no child has been visited.
pub fn most_visited_child(tree: &Vec<Node>, idx: usize) -> (r: Option<usize>)
    requires
        tree_wf(tree@),
        idx < tree.len(),
    ensures
        ({
            let n = tree@[idx as int];
            match r {
                Some(c) => {
                    &&& n.first_child <= c < n.first_child + n.n_children
                    &&& tree@[c as int].n_sa > 0
                    &&& forall|d: int|
                        n.first_child <= d < n.first_child + n.n_children ==> (#[trigger] tree@[d]).n_sa
                            <= tree@[c as int].n_sa
                    &&& forall|d: int|
                        n.first_child <= d < c ==> (#[trigger] tree@[d]).n_sa < tree@[c as int].n_sa
                },
                None => forall|d: int|
                    n.first_child <= d < n.first_child + n.n_children ==> (#[trigger] tree@[d]).n_sa
                        == 0,
            }
        }),
{
    let nd = tree[idx];
    proof {
        assert(node_wf(tree@, idx as int));
    }
    let fc = nd.first_child;
    let nc = nd.n_children;
    let mut n_sa_max: u32 = 0;
    let mut best: Option<usize> = None;
    let mut k: usize = 0;
    while k < nc
        invariant
            nd == tree@[idx as int],
            fc == nd.first_child,
            nc == nd.n_children,
            nc > 0 ==> fc + nc <= tree.len(),
            k <= nc,
            match best {
                Some(c) => {
                    &&& fc <= c < fc + k
                    &&& tree@[c as int].n_sa == n_sa_max
                    &&& n_sa_max > 0
                    &&& forall|d: int| fc <= d < c ==> (#[trigger] tree@[d]).n_sa < n_sa_max
                },
                None => n_sa_max == 0,
            },
            forall|d: int| fc <= d < fc + k ==> (#[trigger] tree@[d]).n_sa <= n_sa_max,
        decreases nc - k,
    {
        let ch = tree[fc + k];
        if n_sa_max < ch.n_sa {
            n_sa_max = ch.n_sa;
            best = Some(fc + k);
        }
        k = k + 1;
    }
    best
}

/// Child `c` of node `idx` has the most visits, and is the first such
/// child, with at least one visit.
pub open spec fn first_most_visited(t: Seq<Node>, idx: int, c: int) -> bool {
    let n = t[idx];
    &&& n.first_child <= c < n.first_child + n.n_children
    &&& t[c].n_sa > 0
    &&& forall|d: int| n.first_child <= d < n.first_child + n.n_children ==> (#[trigger] t[d]).n_sa <= t[c].n_sa
    &&& forall|d: int| n.first_child <= d < c ==> (#[trigger] t[d]).n_sa < t[c].n_sa
}

/// No child of node `idx` has been visited.
pub open spec fn no_child_visited(t: Seq<Node>, idx: int) -> bool {
    forall|d: int| t[idx].first_child <= d < t[idx].first_child + t[idx].n_children ==> (#[trigger] t[d]).n_sa == 0
}

/// The move taken from search tree `t`: the first most visited root child,
/// or the first legal move when no root child was visited.
pub open spec fn chosen_move(t: Seq<Node>, r: Pmove) -> bool {
    ||| exists|c: int| first_most_visited(t, 0, c) && r == Pmove::Pvmove(#[trigger] t[c].action)
    ||| no_child_visited(t, 0) && r == Pmove::Pvmove(
        squares_of(legal_moves(t[0].my_piece, t[0].en_piece))[0],
    )
}

/// A search tree for the mover `black` against `white` after `simulations`
/// visits of its root, node 0: well formed, the root holds the position and
/// was visited `simulations` times. The first visit leaves the root without
/// children; from the second on it is expanded, with one child per legal
/// placement, each holding the position after that placement. Each visit
/// after the first goes down into one root child, except the visits that
/// find every root child proven lost, so the root children's visits sum to
/// at most `simulations - 1`.
pub open spec fn search_tree(t: Seq<Node>, black: u64, white: u64, simulations: int) -> bool {
    &&& tree_wf(t)
    &&& t.len() >= 1
    &&& t[0].my_piece == black
    &&& t[0].en_piece == white
    &&& t[0].turn_player == TurnPlayer::Black
    &&& t[0].step == 1
    &&& t[0].n_sa == simulations
    &&& t[0].n_children > 0 ==> t[0].state == NodeState::Expanded && expanded_children(t, t[0])
    &&& simulations >= 2 ==> t[0].state == NodeState::Expanded && t[0].n_children == squares_of(
        legal_moves(black, white),
    ).len()
    &&& simulations == 1 ==> t[0].n_children == 0
    &&& simulations >= 1 ==> child_visits(t, 0) + 1 <= simulations
}

/// Runs `simulations` visits from a fresh root for the mover `black`
/// against `white` and returns the tree.
pub fn mcts_tree<F: Fn(u32, u32, u32) -> u64>(
    black: u64,
    white: u64,
    simulations: u32,
    rng: &mut StdRng,
    ucb: &F,
) -> (r: Vec<Node>)
    requires
        black & white == 0,
        legal_moves(black, white) != 0,
        simulations <= 4_294_967_000,
        forall|a: u32, b: u32, c: u32| ucb.requires((a, b, c)),
    ensures
        search_tree(r@, black, white, simulations as int),
{
    let root = Node::new(TurnPlayer::Black, black, white, 0, 0);
    let mut tree: Vec<Node> = Vec::new();
    proof {
        lemma_popcount_bound(black | white);
        assert(node_progress(root) <= 129);
        lemma_wf_push(tree@, root);
    }
    tree.push(root);
    let mut n: u32 = 0;
    let ghost mut adopted: int = 0;
    while n < simulations
        invariant
            adopted >= 0,
            n >= 1 ==> child_visits(tree@, 0) + 1 + adopted == n,
            n == 0 ==> tree@[0].n_children == 0 && adopted == 0,
            n == 1 ==> tree@[0].n_children == 0 && tree@[0].state == NodeState::BelowThreshold,
            n >= 2 ==> tree@[0].state == NodeState::Expanded,
            n <= simulations,
            simulations <= 4_294_967_000,
            forall|i: int| 0 <= i < tree.len() ==> (#[trigger] tree@[i]).n_sa <= n,
            tree@[0].step == 1,
            tree@[0].n_sa == n,
            tree@[0].turn_player == TurnPlayer::Black,
            legal_moves(black, white) != 0,
            tree_wf(tree@),
            tree.len() >= 1,
            tree@[0].my_piece == black,
            tree@[0].en_piece == white,
            forall|a: u32, b: u32, c: u32| ucb.requires((a, b, c)),
        decreases simulations - n,
    {
        let ghost before = tree@;
        proof {
            assert(node_wf(before, 0));
        }
        evaluate(&mut tree, 0, rng, ucb, Ghost(n as int));
        proof {
            let after = tree@;
            assert(node_wf(after, 0));
            if n >= 1 {
                assert(after[0].state == NodeState::Expanded);
                if before[0].n_children == 0 {
                    assert(child_visits(before, 0) == 0);
                }
                let prev = if before[0].n_children > 0 { child_visits(before, 0) } else { 0 };
                assert(prev == child_visits(before, 0));
                assert(after[0].n_children > 0);
                assert(after[0].n_sa == n + 1);
                assert(visit_effect(before, after, 0));
                assert(child_visits(after, 0) == prev + 1 || child_visits(after, 0) == prev);
                if child_visits(after, 0) != child_visits(before, 0) + 1 {
                    adopted = adopted + 1;
                }
            } else {
                assert(child_visits(after, 0) == 0);
            }
        }
        n = n + 1;
    }
    proof {
        assert(node_wf(tree@, 0));
        reveal(expanded_children);
    }
    tree
}

/// Monte Carlo tree search for the mover `black` against `white`: runs
/// `simulations` visits from a fresh root and plays the first most visited
/// root child. A pass when there is no legal move; the only move when there
/// is one; the first legal move when no root child was visited.
pub fn mcts_search<F: Fn(u32, u32, u32) -> u64>(
    black: u64,
    white: u64,
    simulations: u32,
    rng: &mut StdRng,
    ucb: &F,
) -> (r: Pmove)
    requires
        black & white == 0,
        simulations <= 4_294_967_000,
        forall|a: u32, b: u32, c: u32| ucb.requires((a, b, c)),
    ensures
        r == Pmove::Passmove <==> legal_moves(black, white) == 0,
        squares_of(legal_moves(black, white)).len() == 1 ==> r == Pmove::Pvmove(
            squares_of(legal_moves(black, white))[0],
        ),
        r != Pmove::Passmove ==> squares_of(legal_moves(black, white)).contains(r->Pvmove_0),
        r != Pmove::Passmove ==> r is Pvmove,
        squares_of(legal_moves(black, white)).len() >= 2 ==> exists|t: Seq<Node>|
            #[trigger] search_tree(t, black, white, simulations as int) && chosen_move(t, r),
{
    let actions = make_legal_actions(black, white);
    proof {
        if legal_moves(black, white) != 0 {
            lemma_squares_of_step(legal_moves(black, white));
        }
    }
    if actions.len() == 0 {
        return Pmove::Passmove;
    }
    if actions.len() == 1 {
        assert(actions@.contains(actions@[0]));
        return Pmove::Pvmove(actions[0]);
    }
    let tree = mcts_tree(black, white, simulations, rng, ucb);
    proof {
        assert(node_wf(tree@, 0));
        reveal(expanded_children);
    }
    match most_visited_child(&tree, 0) {
        Some(c) => {
            proof {
                let j = c - tree@[0].first_child;
                assert(child_matches(tree@[c as int], black, white, j));
                assert(squares_of(legal_moves(black, white))[j] == tree@[c as int].action);
                assert(first_most_visited(tree@, 0, c as int));
                let r = Pmove::Pvmove(tree@[c as int].action);
                assert(exists|c2: int| first_most_visited(tree@, 0, c2) && r == Pmove::Pvmove(#[trigger] tree@[c2].action));
                assert(search_tree(tree@, black, white, simulations as int));
                assert(chosen_move(tree@, r));
            }
            Pmove::Pvmove(tree[c].action)
        },
        None => {
            assert(actions@.contains(actions@[0]));
            assert(no_child_visited(tree@, 0));
            assert(search_tree(tree@, black, white, simulations as int));
            assert(chosen_move(tree@, Pmove::Pvmove(actions[0])));
            Pmove::Pvmove(actions[0])
        },
    }
}

} // verus!
