//! Monte Carlo tree search with UCT selection. The tree is an arena of nodes
//! addressed by index; each node holds its position, accumulated win counts,
//! its legal replies, the replies already expanded (with their arena
//! indices), and the reply the UCT rule currently favors. One iteration
//! follows favored replies to a leaf, expands it with a batch of playouts,
//! and walks back to the root, refreshing statistics and favored replies.
//!
//! Selection scores are computed in fixed-point integers: the exploitation
//! term is the child's win ratio scaled by 256, and the exploration term is
//! the exploration constant times the square root of `log2(parent visits) /
//! child visits`, at the same scale. (The textbook UCT formula uses a natural
//! logarithm; base two only rescales the empirically chosen constant.)

use vstd::prelude::*;
use rand_pcg::Pcg64Mcg;
use crate::bitset::BitSet;
use crate::board::{Board, Player, PointState};
use crate::get_legal_moves::{get_legal_moves, get_legal_moves_strict, legal_strict_spec};
use crate::history::BoardHistory;
use crate::make_move::make_move;
use crate::montecarlo_score::montecarlo_wins;
use crate::rational::{MoveScore, Rat};

verus! {

/// Two to the power `e`.
pub open spec fn pow2(e: nat) -> nat
    decreases e,
{
    if e == 0 {
        1
    } else {
        2 * pow2((e - 1) as nat)
    }
}

/// The floor of the base-two logarithm: the `r` with `2^r <= x < 2^(r+1)`.
#[verifier::rlimit(60)]
fn ilog2(x: u64) -> (r: u64)
    requires
        x >= 1,
    ensures
        r < 64,
        pow2(r as nat) <= x < pow2((r + 1) as nat),
{
    let mut lg: u64 = 0;
    let mut y: u64 = x;
    proof {
        assert(pow2(0nat) == 1);
    }
    while y >= 2
        invariant
            y >= 1,
            lg < 64,
            pow2(lg as nat) >= 1,
            pow2(lg as nat) * y <= x,
            x < pow2(lg as nat) * (y + 1),
        decreases y,
    {
        let ghost p = pow2(lg as nat) as int;
        let ghost yg = y as int;
        y = y / 2;
        lg = lg + 1;
        proof {
            let y2 = y as int;
            assert(pow2(lg as nat) == 2 * pow2((lg - 1) as nat));
            assert(pow2((lg - 1) as nat) == p);
            assert(y2 == yg / 2);
            assert(1 <= y2 && 2 * p * y2 <= p * yg && p * (yg + 1) <= 2 * p * (y2 + 1)) by (
            nonlinear_arith)
                requires
                    p >= 1,
                    yg >= 2,
                    y2 == yg / 2,
            ;
            assert(pow2(lg as nat) * y <= x);
            assert(x < pow2(lg as nat) * (y + 1));
            assert(lg < 64) by {
                if lg >= 64 {
                    assert(pow2(64nat) > 0xffff_ffff_ffff_ffff) by {
                        reveal_with_fuel(pow2, 65);
                    }
                    lemma_pow2_mono(64nat, lg as nat);
                    assert(pow2(lg as nat) * y >= pow2(lg as nat) * 1) by (nonlinear_arith)
                        requires
                            y >= 1,
                            pow2(lg as nat) >= 1,
                    ;
                }
            }
        }
    }
    proof {
        assert(y == 1);
        assert(pow2(((lg + 1) as u64) as nat) == 2 * pow2(lg as nat));
        assert(pow2(lg as nat) * 1 == pow2(lg as nat)) by (nonlinear_arith);
        assert(pow2(lg as nat) * 2 == 2 * pow2(lg as nat)) by (nonlinear_arith);
    }
    lg
}

/// `pow2` does not shrink as the exponent grows.
proof fn lemma_pow2_mono(e1: nat, e2: nat)
    requires
        e1 <= e2,
    ensures
        pow2(e1) <= pow2(e2),
    decreases e2,
{
    if e1 < e2 {
        lemma_pow2_mono(e1, (e2 - 1) as nat);
    }
}

/// Whether `e` is the floor of the base-two logarithm of `x`.
pub open spec fn ilog2_char(e: int, x: int) -> bool {
    0 <= e && pow2(e as nat) <= x < pow2((e + 1) as nat)
}

/// The floor of the base-two logarithm, as a value.
pub open spec fn spec_ilog2(x: int) -> int {
    choose|e: int| #[trigger] ilog2_char(e, x)
}

/// Whether `r` is the integer square root of `x`.
pub open spec fn isqrt_char(r: int, x: int) -> bool {
    0 <= r && r * r <= x < (r + 1) * (r + 1)
}

/// The integer square root, as a value.
pub open spec fn spec_isqrt(x: int) -> int {
    choose|r: int| #[trigger] isqrt_char(r, x)
}

/// The characterization `2^e <= x < 2^(e+1)` names `spec_ilog2(x)` uniquely.
proof fn lemma_ilog2_is(x: int, e: int)
    requires
        0 <= e,
        pow2(e as nat) <= x < pow2((e + 1) as nat),
    ensures
        spec_ilog2(x) == e,
{
    assert(ilog2_char(e, x));
    let e2 = spec_ilog2(x);
    assert(ilog2_char(e2, x));
    if e2 < e {
        lemma_pow2_mono((e2 + 1) as nat, e as nat);
    }
    if e2 > e {
        lemma_pow2_mono((e + 1) as nat, e2 as nat);
    }
}

/// The characterization `r^2 <= x < (r+1)^2` names `spec_isqrt(x)` uniquely.
proof fn lemma_isqrt_is(x: int, r: int)
    requires
        0 <= r,
        r * r <= x,
        x < (r + 1) * (r + 1),
    ensures
        spec_isqrt(x) == r,
{
    assert(isqrt_char(r, x));
    let r2 = spec_isqrt(x);
    assert(isqrt_char(r2, x));
    if r2 < r {
        assert((r2 + 1) * (r2 + 1) <= r * r) by (nonlinear_arith)
            requires
                0 <= r2 < r,
        ;
    }
    if r2 > r {
        assert((r + 1) * (r + 1) <= r2 * r2) by (nonlinear_arith)
            requires
                0 <= r < r2,
        ;
    }
}

/// The integer square root: the `r` with `r^2 <= x < (r+1)^2`.
fn isqrt(x: u64) -> (r: u64)
    requires
        x <= 0x1_0000_0000,
    ensures
        r * r <= x,
        x < (r + 1) * (r + 1),
{
    let mut r: u64 = 0;
    loop
        invariant
            x <= 0x1_0000_0000,
            r * r <= x,
            r <= 0x1_0000,
        ensures
            r * r <= x,
            x < (r + 1) * (r + 1),
        decreases x - r * r,
    {
        let rp = r + 1;
        proof {
            let rg = rp as int;
            assert(rg * rg < 0x2_0000_0000) by (nonlinear_arith)
                requires
                    0 <= rg <= 0x1_0001,
            ;
        }
        let sq = rp * rp;
        if sq > x {
            break ;
        }
        proof {
            let rg = rp as int;
            assert(rg <= 0x1_0000) by (nonlinear_arith)
                requires
                    rg * rg <= 0x1_0000_0000,
                    rg >= 0,
            ;
            let r0 = r as int;
            assert(r0 * r0 < rg * rg) by (nonlinear_arith)
                requires
                    0 <= r0,
                    rg == r0 + 1,
            ;
        }
        r = rp;
    }
    r
}

/// The exploration constant of the UCT rule (empirically chosen).
pub const UCT_CONST: u64 = 42;

/// The fixed-point UCT score, as a value: the exploitation term is the win
/// ratio of the side that just moved — Black's wins when it is White's move
/// at the child — and the exploration term grows with the parent's visits
/// and shrinks with the child's, both scaled by 256.
pub open spec fn uct_spec(
    child_mover: Player,
    parent_visits: int,
    child_black: int,
    child_white: int,
) -> int {
    (if child_mover == Player::White {
        child_black
    } else {
        child_white
    }) * 256 / (child_black + child_white) + (UCT_CONST as int) * spec_isqrt(
        spec_ilog2(parent_visits) * 65536 / (child_black + child_white),
    )
}

/// Computes the fixed-point UCT score: exactly `uct_spec`.
fn uct_score_fp(child_mover: Player, parent_visits: u64, child_black: u64, child_white: u64) -> (r:
    u64)
    requires
        1 <= parent_visits <= 0x1_0000_0000,
        1 <= child_black + child_white <= 0x1_0000_0000,
    ensures
        r == uct_spec(
            child_mover,
            parent_visits as int,
            child_black as int,
            child_white as int,
        ),
{
    let visits = child_black + child_white;
    let wins: u64 = if child_mover == Player::White {
        child_black
    } else {
        child_white
    };
    proof {
        assert(wins * 256 <= 0x1_0000_0000 * 256) by (nonlinear_arith)
            requires
                wins <= 0x1_0000_0000,
        ;
    }
    let value_fp = (wins * 256) / visits;
    let lg = ilog2(parent_visits);
    let ratio = (lg * 65536) / visits;
    proof {
        assert(lg * 65536 <= 63 * 65536) by (nonlinear_arith)
            requires
                lg <= 63,
        ;
        assert(ratio <= lg * 65536);
    }
    let root = isqrt(ratio);
    proof {
        assert(root <= 0x1_0000) by (nonlinear_arith)
            requires
                root * root <= 63 * 65536,
        ;
        assert(UCT_CONST * root <= 42 * 0x1_0000) by (nonlinear_arith)
            requires
                root <= 0x1_0000,
        ;
    }
    let r = value_fp + UCT_CONST * root;
    proof {
        lemma_ilog2_is(parent_visits as int, lg as int);
        lemma_isqrt_is(ratio as int, root as int);
    }
    r
}

/// One node of the search tree: a position, the win counts accumulated
/// through it, its legal replies, the replies already expanded (each with the
/// arena index of its node), and the reply selection currently favors.
#[derive(Debug)]
pub struct Node {
    pub board: Board,
    pub black_wins: u64,
    pub white_wins: u64,
    pub favored_child: Option<usize>,
    pub children: BitSet,
    pub child_nodes: Vec<(usize, usize)>,
}

/// The search tree: an arena of nodes, the root at index zero, every edge
/// pointing to a higher index.
#[derive(Debug)]
pub struct MCTree {
    pub nodes: Vec<Node>,
}

impl MCTree {
    /// Every node is sound: a well-formed position, win counts within the
    /// playout budget spent so far (and at least one playout on every node
    /// below the root), favored and expanded replies on the board, and every
    /// edge ascending.
    pub open spec fn wf(self, budget: int) -> bool {
        &&& self.nodes@.len() >= 1
        &&& forall|i: int| 0 <= i < self.nodes@.len() ==> #[trigger] self.node_ok(i, budget)
    }

    /// The per-node part of `wf`.
    pub open spec fn node_ok(self, i: int, budget: int) -> bool {
        let n = self.nodes@[i];
        &&& n.board.wf()
        &&& n.black_wins + n.white_wins <= budget
        &&& (i >= 1 ==> n.black_wins + n.white_wins >= 1)
        &&& (n.favored_child is Some ==> (n.favored_child->0 as int) < n.board.board@.len())
        &&& forall|m: int| #[trigger] n.children.has(m) ==> m < n.board.board@.len()
        &&& forall|k: int|
            0 <= k < n.child_nodes@.len() ==> i < (#[trigger] n.child_nodes@[k].1 as int)
                < self.nodes@.len() && (n.child_nodes@[k].0 as int) < n.board.board@.len()
        &&& forall|k1: int, k2: int|
            0 <= k1 < k2 < n.child_nodes@.len() ==> (#[trigger] n.child_nodes@[k1].0) != (
            #[trigger] n.child_nodes@[k2].0)
    }
}

/// What one search iteration may do to a node that already existed: its
/// position and legal replies never change; its expanded-reply table either
/// stays or gains one entry; its win counts either stay or take one batch,
/// split some way between the colors.
pub open spec fn node_frame(n0: Node, n1: Node, batch: int) -> bool {
    &&& n1.board.board@ == n0.board.board@
    &&& n1.board.size == n0.board.size
    &&& n1.board.player == n0.board.player
    &&& n1.board.komi_half == n0.board.komi_half
    &&& n1.children == n0.children
    &&& (n1.child_nodes@ == n0.child_nodes@ || exists|e: (usize, usize)|
        n1.child_nodes@ == n0.child_nodes@.push(e))
    &&& ((n1.black_wins == n0.black_wins && n1.white_wins == n0.white_wins) || (n1.black_wins
        >= n0.black_wins && n1.white_wins >= n0.white_wins && n1.black_wins + n1.white_wins
        == n0.black_wins + n0.white_wins + batch))
}

/// Expands the reply `m` of node `parent`: builds the position it produces,
/// seeds it with one batch of playouts, appends it to the arena, and records
/// it in the parent's expanded-reply table. Returns the batch's black wins.
fn expand_reply(
    tree: &mut MCTree,
    parent: usize,
    m: usize,
    board_history: &BoardHistory,
    batch: u32,
    rng: &mut Pcg64Mcg,
    Ghost(budget): Ghost<int>,
) -> (wins: u32)
    requires
        old(tree).wf(budget),
        (parent as int) < old(tree).nodes@.len(),
        (m as int) < old(tree).nodes@[parent as int].board.board@.len(),
        forall|kk: int|
            0 <= kk < old(tree).nodes@[parent as int].child_nodes@.len() ==> (#[trigger] old(
                tree,
            ).nodes@[parent as int].child_nodes@[kk].0) != m,
        board_history.wf(),
        batch >= 1,
        budget >= 0,
        budget + batch <= 0x1_0000_0000,
    ensures
        final(tree).wf(budget + batch),
        wins <= batch,
        final(tree).nodes@.len() == old(tree).nodes@.len() + 1,
        forall|i: int|
            0 <= i < old(tree).nodes@.len() && i != parent as int ==> final(tree).nodes@[i] == old(
                tree,
            ).nodes@[i],
        ({
            let n0 = old(tree).nodes@[parent as int];
            let n1 = final(tree).nodes@[parent as int];
            &&& n1.board.board@ == n0.board.board@
            &&& n1.board.size == n0.board.size
            &&& n1.board.player == n0.board.player
            &&& n1.board.komi_half == n0.board.komi_half
            &&& n1.black_wins == n0.black_wins
            &&& n1.white_wins == n0.white_wins
            &&& n1.children == n0.children
            &&& n1.favored_child == n0.favored_child
            &&& n1.child_nodes@ == n0.child_nodes@.push(
                (m, old(tree).nodes@.len() as usize),
            )
        }),
        ({
            let leaf = final(tree).nodes@[old(tree).nodes@.len() as int];
            leaf.black_wins == wins && leaf.white_wins == batch - wins
        }),
{
    proof {
        assert(tree.node_ok(parent as int, budget));
    }
    let new_board = make_move(m, &tree.nodes[parent].board);
    let ghost nbv = new_board.board@;
    let wins = montecarlo_wins(&new_board, board_history, batch, rng);
    let children = get_legal_moves(&new_board, board_history);
    let favored = children.first();
    let node = Node {
        board: new_board,
        black_wins: wins as u64,
        white_wins: (batch - wins) as u64,
        favored_child: favored,
        children: children,
        child_nodes: Vec::new(),
    };
    let ci = tree.nodes.len();
    let ghost t1 = *tree;
    tree.nodes.push(node);
    let pn = &tree.nodes[parent];
    let mut cn = copy_child_nodes(&pn.child_nodes);
    cn.push((m, ci));
    let replacement = Node {
        board: pn.board.duplicate(),
        black_wins: pn.black_wins,
        white_wins: pn.white_wins,
        favored_child: pn.favored_child,
        children: pn.children,
        child_nodes: cn,
    };
    tree.nodes[parent] = replacement;
    proof {
        assert forall|i: int| 0 <= i < tree.nodes@.len() implies #[trigger] tree.node_ok(
            i,
            budget + batch,
        ) by {
            if i < t1.nodes@.len() {
                assert(t1.node_ok(i, budget));
            }
            if i == parent as int {
                assert(tree.nodes@[i].child_nodes@ == t1.nodes@[i].child_nodes@.push((m, ci)));
                assert(tree.nodes@[i].board.board@ == t1.nodes@[i].board.board@);
            } else if i == ci as int {
                assert(tree.nodes@[i].black_wins + tree.nodes@[i].white_wins == batch);
                assert(tree.nodes@[i].board.board@ == nbv);
                assert forall|m2: int|
                    #[trigger] tree.nodes@[i].children.has(m2) implies m2
                    < tree.nodes@[i].board.board@.len() by {
                    assert(children.has(m2));
                }
                if favored is Some {
                    assert(children.has(favored->0 as int));
                }
            }
        }
    }
    wins
}

/// Looks a reply up among a node's expanded children.
fn find_child(n: &Node, m: usize) -> (r: Option<usize>)
    ensures
        r is Some ==> exists|k: int|
            0 <= k < n.child_nodes@.len() && #[trigger] n.child_nodes@[k] == (m, r->0),
        r is None ==> forall|k: int|
            0 <= k < n.child_nodes@.len() ==> (#[trigger] n.child_nodes@[k].0) != m,
{
    let mut k: usize = 0;
    while k < n.child_nodes.len()
        invariant
            k <= n.child_nodes@.len(),
            forall|j: int| 0 <= j < k ==> (#[trigger] n.child_nodes@[j].0) != m,
        decreases n.child_nodes@.len() - k,
    {
        let (mv, ci) = n.child_nodes[k];
        if mv == m {
            return Some(ci);
        }
        k = k + 1;
    }
    None
}

/// Selection: follows favored replies from the root and returns the indices
/// of the nodes passed through, ending either at a node whose favored reply
/// has no node yet (the move to expand) or at a node with no favored reply
/// (a terminal dead end that keeps accumulating playouts).
fn select(tree: &MCTree, Ghost(budget): Ghost<int>) -> (r: (Vec<usize>, Option<usize>))
    requires
        tree.wf(budget),
    ensures
        r.0@.len() >= 1,
        r.0@[0] == 0usize,
        forall|j: int| 0 <= j < r.0@.len() ==> (#[trigger] r.0@[j] as int) < tree.nodes@.len(),
        forall|j1: int, j2: int| 0 <= j1 < j2 < r.0@.len() ==> #[trigger] r.0@[j1] < #[trigger] r.0@[j2],
        ({
            let leaf = r.0@[r.0@.len() - 1] as int;
            &&& (r.1 is Some ==> (r.1->0 as int) < tree.nodes@[leaf].board.board@.len() && forall|
                k: int,
            |
                0 <= k < tree.nodes@[leaf].child_nodes@.len() ==> (#[trigger] tree.nodes@[leaf].child_nodes@[k].0)
                    != r.1->0)
            &&& (r.1 is Some ==> tree.nodes@[leaf].favored_child == Some(r.1->0))
            &&& (r.1 is None ==> tree.nodes@[leaf].favored_child is None)
        }),
        forall|j: int|
            0 <= j < r.0@.len() - 1 ==> ({
                let n = tree.nodes@[#[trigger] r.0@[j] as int];
                &&& n.favored_child is Some
                &&& exists|kk: int|
                    0 <= kk < n.child_nodes@.len() && #[trigger] n.child_nodes@[kk] == (
                        n.favored_child->0,
                        r.0@[j + 1],
                    )
            }),
{
    let mut path: Vec<usize> = Vec::new();
    let mut cur: usize = 0;
    path.push(0);
    loop
        invariant
            tree.wf(budget),
            path@.len() >= 1,
            path@[0] == 0usize,
            path@[path@.len() - 1] == cur,
            (cur as int) < tree.nodes@.len(),
            forall|j: int| 0 <= j < path@.len() ==> (#[trigger] path@[j] as int)
                < tree.nodes@.len(),
            forall|j1: int, j2: int| 0 <= j1 < j2 < path@.len() ==> #[trigger] path@[j1] < #[trigger] path@[j2],
            forall|j: int|
                0 <= j < path@.len() - 1 ==> ({
                    let n = tree.nodes@[#[trigger] path@[j] as int];
                    &&& n.favored_child is Some
                    &&& exists|kk: int|
                        0 <= kk < n.child_nodes@.len() && #[trigger] n.child_nodes@[kk] == (
                            n.favored_child->0,
                            path@[j + 1],
                        )
                }),
        decreases tree.nodes@.len() - cur,
    {
        proof {
            assert(tree.node_ok(cur as int, budget));
        }
        let node = &tree.nodes[cur];
        match node.favored_child {
            None => {
                return (path, None);
            },
            Some(m) => {
                match find_child(node, m) {
                    None => {
                        return (path, Some(m));
                    },
                    Some(ci) => {
                        proof {
                            let k = choose|k: int|
                                0 <= k < node.child_nodes@.len() && #[trigger] node.child_nodes@[k]
                                    == (m, ci);
                            assert(node.child_nodes@[k].1 == ci);
                            assert((cur as int) < (node.child_nodes@[k].1 as int)
                                < tree.nodes@.len());
                            assert(cur < ci && (ci as int) < tree.nodes@.len());
                        }
                        let ghost pprev = path@;
                        path.push(ci);
                        proof {
                            assert forall|j: int|
                                0 <= j < path@.len() - 1 implies ({
                                let n = tree.nodes@[#[trigger] path@[j] as int];
                                &&& n.favored_child is Some
                                &&& exists|kk: int|
                                    0 <= kk < n.child_nodes@.len() && #[trigger] n.child_nodes@[kk]
                                        == (n.favored_child->0, path@[j + 1])
                            }) by {
                                if j < pprev.len() - 1 {
                                    assert(path@[j] == pprev[j] && path@[j + 1] == pprev[j + 1]);
                                } else {
                                    assert(path@[j] == cur && path@[j + 1] == ci);
                                    let k = choose|k: int|
                                        0 <= k < node.child_nodes@.len()
                                            && #[trigger] node.child_nodes@[k] == (m, ci);
                                    assert(tree.nodes@[cur as int].child_nodes@[k] == (m, ci));
                                }
                            }
                        }
                        cur = ci;
                    },
                }
            },
        }
    }
}

/// The UCT score of the reply recorded in entry `kk` of node `p`'s
/// expanded-reply table, from the parent's and the child's current counts.
pub open spec fn entry_uct(t: MCTree, p: int, kk: int) -> int {
    let n = t.nodes@[p];
    let c = t.nodes@[n.child_nodes@[kk].1 as int];
    uct_spec(
        c.board.player,
        n.black_wins + n.white_wins,
        c.black_wins as int,
        c.white_wins as int,
    )
}

/// Recomputes the favored reply of node `p` by the UCT rule: an unexplored
/// reply takes unconditional priority — the contract promises one is chosen
/// whenever one exists — otherwise, when every legal reply is expanded, the
/// one with the greatest UCT score is favored. A node with no legal replies
/// keeps its (empty) choice.
fn refresh_favored(tree: &mut MCTree, p: usize, Ghost(budget): Ghost<int>)
    requires
        old(tree).wf(budget),
        (p as int) < old(tree).nodes@.len(),
        budget <= 0x1_0000_0000,
        old(tree).nodes@[p as int].black_wins + old(tree).nodes@[p as int].white_wins >= 1,
    ensures
        final(tree).wf(budget),
        final(tree).nodes@.len() == old(tree).nodes@.len(),
        forall|i: int|
            0 <= i < final(tree).nodes@.len() && i != p as int ==> final(tree).nodes@[i] == old(
                tree,
            ).nodes@[i],
        ({
            let n0 = old(tree).nodes@[p as int];
            let n1 = final(tree).nodes@[p as int];
            &&& n1.board.board@ == n0.board.board@
            &&& n1.board.size == n0.board.size
            &&& n1.board.player == n0.board.player
            &&& n1.board.komi_half == n0.board.komi_half
            &&& n1.black_wins == n0.black_wins
            &&& n1.white_wins == n0.white_wins
            &&& n1.children == n0.children
            &&& n1.child_nodes@ == n0.child_nodes@
        }),
        ({
            let n0 = old(tree).nodes@[p as int];
            let n1 = final(tree).nodes@[p as int];
            (exists|mu: int|
                n0.children.has(mu) && forall|kk: int|
                    0 <= kk < n0.child_nodes@.len() ==> (#[trigger] n0.child_nodes@[kk].0 as int)
                        != mu) ==> (n1.favored_child is Some && n0.children.has(
                n1.favored_child->0 as int,
            ) && forall|kk: int|
                0 <= kk < n0.child_nodes@.len() ==> (#[trigger] n0.child_nodes@[kk].0 as int)
                    != n1.favored_child->0 as int)
        }),
        ({
            let n0 = old(tree).nodes@[p as int];
            let n1 = final(tree).nodes@[p as int];
            ((exists|m2: int| n0.children.has(m2)) && (forall|m2: int|
                n0.children.has(m2) ==> exists|kk: int|
                    0 <= kk < n0.child_nodes@.len() && (#[trigger] n0.child_nodes@[kk].0 as int)
                        == m2)) ==> (n1.favored_child is Some && exists|kkf: int|
                {
                    &&& 0 <= kkf < n0.child_nodes@.len()
                    &&& (#[trigger] n0.child_nodes@[kkf].0 as int) == n1.favored_child->0 as int
                    &&& n0.children.has(n1.favored_child->0 as int)
                    &&& forall|kk: int|
                        0 <= kk < n0.child_nodes@.len() && n0.children.has(
                            #[trigger] n0.child_nodes@[kk].0 as int,
                        ) ==> entry_uct(*old(tree), p as int, kk) <= entry_uct(
                            *old(tree),
                            p as int,
                            kkf,
                        )
                })
        }),
{
    proof {
        assert(old(tree).node_ok(p as int, budget));
    }
    let parent_visits = tree.nodes[p].black_wins + tree.nodes[p].white_wins;
    let board_len = tree.nodes[p].board.board.len();
    let ghost sz = old(tree).nodes@[p as int].board.size as int;
    proof {
        assert(board_len <= 64) by (nonlinear_arith)
            requires
                board_len == sz * sz,
                1 <= sz <= 8,
        ;
    }
    let mut best_move: Option<usize> = None;
    let mut best_uct: u64 = 0;
    let mut m: usize = 0;
    let mut done = false;
    let ghost t0 = *tree;
    while m < board_len && !done
        invariant
            *tree == t0,
            t0.wf(budget),
            budget <= 0x1_0000_0000,
            (p as int) < t0.nodes@.len(),
            board_len == t0.nodes@[p as int].board.board@.len(),
            board_len <= 64,
            parent_visits == t0.nodes@[p as int].black_wins + t0.nodes@[p as int].white_wins,
            parent_visits >= 1,
            m <= board_len,
            best_move is Some ==> (best_move->0 as int) < board_len as int,
            !done ==> forall|m2: int|
                0 <= m2 < m && t0.nodes@[p as int].children.has(m2) ==> exists|kk: int|
                    0 <= kk < t0.nodes@[p as int].child_nodes@.len() && (
                    #[trigger] t0.nodes@[p as int].child_nodes@[kk].0 as int) == m2,
            !done && best_move is None ==> forall|m2: int|
                0 <= m2 < m ==> !t0.nodes@[p as int].children.has(m2),
            !done && best_move is Some ==> t0.nodes@[p as int].children.has(
                best_move->0 as int,
            ) && exists|kkb: int|
                0 <= kkb < t0.nodes@[p as int].child_nodes@.len() && (
                #[trigger] t0.nodes@[p as int].child_nodes@[kkb].0 as int) == best_move->0 as int
                && best_uct == entry_uct(t0, p as int, kkb),
            !done ==> forall|kk: int|
                0 <= kk < t0.nodes@[p as int].child_nodes@.len() && (
                t0.nodes@[p as int].child_nodes@[kk].0 as int) < m as int
                    && t0.nodes@[p as int].children.has(
                    #[trigger] t0.nodes@[p as int].child_nodes@[kk].0 as int,
                ) ==> best_move is Some && entry_uct(t0, p as int, kk) <= best_uct,
            done ==> best_move is Some && t0.nodes@[p as int].children.has(
                best_move->0 as int,
            ) && forall|kk: int|
                0 <= kk < t0.nodes@[p as int].child_nodes@.len() ==> (
                #[trigger] t0.nodes@[p as int].child_nodes@[kk].0 as int) != best_move->0 as int,
        decreases board_len - m,
    {
        proof {
            assert(t0.node_ok(p as int, budget));
        }
        if tree.nodes[p].children.contains(m) {
            match find_child(&tree.nodes[p], m) {
                None => {
                    // an unexplored reply is favored before any comparison
                    best_move = Some(m);
                    done = true;
                },
                Some(ci) => {
                    proof {
                        let k = choose|k: int|
                            0 <= k < t0.nodes@[p as int].child_nodes@.len()
                                && #[trigger] t0.nodes@[p as int].child_nodes@[k] == (m, ci);
                        assert(t0.nodes@[p as int].child_nodes@[k].1 == ci);
                        assert((p as int) < (t0.nodes@[p as int].child_nodes@[k].1 as int)
                            < t0.nodes@.len());
                        assert(t0.node_ok(ci as int, budget));
                    }
                    let cb = tree.nodes[ci].black_wins;
                    let cw = tree.nodes[ci].white_wins;
                    let mover = tree.nodes[ci].board.player;
                    let uct = uct_score_fp(mover, parent_visits, cb, cw);
                    proof {
                        let k = choose|k: int|
                            0 <= k < t0.nodes@[p as int].child_nodes@.len()
                                && #[trigger] t0.nodes@[p as int].child_nodes@[k] == (m, ci);
                        assert(entry_uct(t0, p as int, k) == uct as int);
                        assert forall|kk: int|
                            0 <= kk < t0.nodes@[p as int].child_nodes@.len() && (
                            t0.nodes@[p as int].child_nodes@[kk].0 as int) == m as int implies kk
                            == k by {
                            if kk != k {
                                assert(t0.nodes@[p as int].child_nodes@[kk].0
                                    == t0.nodes@[p as int].child_nodes@[k].0);
                            }
                        }
                    }
                    if best_move.is_none() || uct > best_uct {
                        best_uct = uct;
                        best_move = Some(m);
                    }
                },
            }
        }
        m = m + 1;
    }
    proof {
        if !done && exists|mu: int|
            t0.nodes@[p as int].children.has(mu) && forall|kk: int|
                0 <= kk < t0.nodes@[p as int].child_nodes@.len() ==> (
                #[trigger] t0.nodes@[p as int].child_nodes@[kk].0 as int) != mu {
            let mu = choose|mu: int|
                t0.nodes@[p as int].children.has(mu) && forall|kk: int|
                    0 <= kk < t0.nodes@[p as int].child_nodes@.len() ==> (
                    #[trigger] t0.nodes@[p as int].child_nodes@[kk].0 as int) != mu;
            assert(0 <= mu < board_len as int);
            assert(exists|kk: int|
                0 <= kk < t0.nodes@[p as int].child_nodes@.len() && (
                #[trigger] t0.nodes@[p as int].child_nodes@[kk].0 as int) == mu);
        }
    }
    if best_move.is_some() {
        let n = &tree.nodes[p];
        let replacement = Node {
            board: n.board.duplicate(),
            black_wins: n.black_wins,
            white_wins: n.white_wins,
            favored_child: best_move,
            children: n.children,
            child_nodes: copy_child_nodes(&n.child_nodes),
        };
        let ghost told = *tree;
        tree.nodes[p] = replacement;
        proof {
            assert(told.nodes@[p as int].board.board@ == final(tree).nodes@[p as int].board.board@);
            assert(told.nodes@[p as int].board.wf() == final(tree).nodes@[p as int].board.wf());
            assert forall|i: int| 0 <= i < tree.nodes@.len() implies #[trigger] tree.node_ok(
                i,
                budget,
            ) by {
                assert(told.node_ok(i, budget));
                if i == p as int {
                    assert(tree.nodes@[i].child_nodes@ == told.nodes@[i].child_nodes@);
                }
            }
        }
    }
}

/// Whether `i` occurs in the index list.
pub open spec fn seq_has(s: Seq<usize>, i: int) -> bool {
    exists|j: int| 0 <= j < s.len() && (#[trigger] s[j] as int) == i
}

/// The exact footprint of one search iteration: an ascending path of
/// already-existing nodes from the root, each taking the batch's wins under
/// one split (`lb` black), and every node off the path untouched.
pub open spec fn playout_frame(
    t0: MCTree,
    t1: MCTree,
    sel: Seq<usize>,
    lb: int,
    batch: int,
) -> bool {
    &&& 1 <= sel.len()
    &&& sel[0] == 0usize
    &&& forall|j: int| 0 <= j < sel.len() ==> (#[trigger] sel[j] as int) < t0.nodes@.len()
    &&& forall|j1: int, j2: int| 0 <= j1 < j2 < sel.len() ==> #[trigger] sel[j1] < #[trigger] sel[j2]
    &&& 0 <= lb <= batch
    &&& forall|j: int|
        0 <= j < sel.len() ==> t1.nodes@[#[trigger] sel[j] as int].black_wins
            == t0.nodes@[sel[j] as int].black_wins + lb && t1.nodes@[sel[j] as int].white_wins
            == t0.nodes@[sel[j] as int].white_wins + (batch - lb)
    &&& forall|i: int|
        0 <= i < t0.nodes@.len() && !seq_has(sel, i) ==> t1.nodes@[i] == t0.nodes@[i]
}

/// One search iteration: selection follows favored replies to a leaf; a new
/// leaf is built by applying the pending move and seeded with a batch of
/// playouts (a dead end simply accumulates another batch); then every node on
/// the way back to the root takes the batch's wins and refreshes its favored
/// reply — reading its children's fresh counts, since the path child was
/// updated first.
#[verifier::rlimit(100)]
fn mcts_playout(
    tree: &mut MCTree,
    board_history: &BoardHistory,
    batch: u32,
    rng: &mut Pcg64Mcg,
    Ghost(budget): Ghost<int>,
)
    requires
        old(tree).wf(budget),
        board_history.wf(),
        batch >= 1,
        budget >= 0,
        budget + batch <= 0x1_0000_0000,
    ensures
        final(tree).wf(budget + batch),
        old(tree).nodes@.len() <= final(tree).nodes@.len() <= old(tree).nodes@.len() + 1,
        forall|i: int|
            0 <= i < old(tree).nodes@.len() ==> node_frame(
                old(tree).nodes@[i],
                final(tree).nodes@[i],
                batch as int,
            ),
        exists|sel: Seq<usize>, lb: int|
            #[trigger] playout_frame(*old(tree), *final(tree), sel, lb, batch as int),
{
    let ghost told = *old(tree);
    let (path, pending) = select(tree, Ghost(budget));
    let leaf = path[path.len() - 1];
    let lb: u32;
    let start: usize;
    match pending {
        Some(m) => {
            let wins = expand_reply(tree, leaf, m, board_history, batch, rng, Ghost(budget));
            lb = wins;
            start = path.len();
            proof {
                assert forall|i: int|
                    0 <= i < told.nodes@.len() implies #[trigger] node_frame(
                    told.nodes@[i],
                    tree.nodes@[i],
                    batch as int,
                ) by {
                    if i == leaf as int {
                        assert(tree.nodes@[i].child_nodes@ == told.nodes@[i].child_nodes@.push(
                            (m, told.nodes@.len() as usize),
                        ));
                    } else {
                        assert(tree.nodes@[i] == told.nodes@[i]);
                    }
                }
                assert forall|j: int|
                    0 <= j < path@.len() implies #[trigger] tree.nodes@[path@[j] as int].black_wins
                    == told.nodes@[path@[j] as int].black_wins
                    && tree.nodes@[path@[j] as int].white_wins
                    == told.nodes@[path@[j] as int].white_wins by {
                    if path@[j] as int != leaf as int {
                        assert(tree.nodes@[path@[j] as int] == told.nodes@[path@[j] as int]);
                    }
                }
                assert forall|i: int|
                    0 <= i < told.nodes@.len() && !seq_has(path@, i) implies tree.nodes@[i]
                    == told.nodes@[i] by {
                    assert(i != leaf as int);
                }
            }
        },
        None => {
            proof {
                assert(tree.node_ok(leaf as int, budget));
            }
            let wins = montecarlo_wins(&tree.nodes[leaf].board, board_history, batch, rng);
            let n = &tree.nodes[leaf];
            let replacement = Node {
                board: n.board.duplicate(),
                black_wins: n.black_wins + wins as u64,
                white_wins: n.white_wins + (batch - wins) as u64,
                favored_child: n.favored_child,
                children: n.children,
                child_nodes: copy_child_nodes(&n.child_nodes),
            };
            let ghost t1 = *tree;
            tree.nodes[leaf] = replacement;
            proof {
                assert forall|i: int| 0 <= i < tree.nodes@.len() implies #[trigger] tree.node_ok(
                    i,
                    budget + batch,
                ) by {
                    assert(t1.node_ok(i, budget));
                    if i == leaf as int {
                        assert(tree.nodes@[i].child_nodes@ == t1.nodes@[i].child_nodes@);
                        assert(tree.nodes@[i].board.board@ == t1.nodes@[i].board.board@);
                    }
                }
            }
            lb = wins;
            start = path.len() - 1;
            proof {
                assert forall|i: int|
                    0 <= i < told.nodes@.len() implies #[trigger] node_frame(
                    told.nodes@[i],
                    tree.nodes@[i],
                    batch as int,
                ) by {
                    if i != leaf as int {
                        assert(tree.nodes@[i] == told.nodes@[i]);
                    }
                }
                assert forall|j: int|
                    0 <= j < path@.len() - 1 implies #[trigger] tree.nodes@[path@[j] as int].black_wins
                    == told.nodes@[path@[j] as int].black_wins
                    && tree.nodes@[path@[j] as int].white_wins
                    == told.nodes@[path@[j] as int].white_wins by {
                    assert(path@[j] < path@[path@.len() - 1]);
                    assert(tree.nodes@[path@[j] as int] == told.nodes@[path@[j] as int]);
                }
                assert forall|i: int|
                    0 <= i < told.nodes@.len() && !seq_has(path@, i) implies tree.nodes@[i]
                    == told.nodes@[i] by {
                    assert(i != leaf as int);
                }
                assert(path@[path@.len() - 1] as int == leaf as int && seq_has(
                    path@,
                    leaf as int,
                ));
                assert(tree.nodes@[leaf as int].black_wins == told.nodes@[leaf as int].black_wins
                    + lb && tree.nodes@[leaf as int].white_wins
                    == told.nodes@[leaf as int].white_wins + (batch - lb));
            }
        },
    }
    let lw = batch - lb;
    let mut k = start;
    while k > 0
        invariant
            tree.wf(budget + batch),
            board_history.wf(),
            batch >= 1,
            budget >= 0,
            budget + batch <= 0x1_0000_0000,
            lb as int + lw as int == batch as int,
            k <= path@.len(),
            told.wf(budget),
            told.nodes@.len() <= tree.nodes@.len() <= told.nodes@.len() + 1,
            forall|j: int| 0 <= j < path@.len() ==> (#[trigger] path@[j] as int)
                < tree.nodes@.len() && (path@[j] as int) < told.nodes@.len(),
            forall|j1: int, j2: int| 0 <= j1 < j2 < path@.len() ==> #[trigger] path@[j1] < #[trigger] path@[j2],
            forall|i: int|
                0 <= i < told.nodes@.len() ==> #[trigger] node_frame(
                    told.nodes@[i],
                    tree.nodes@[i],
                    batch as int,
                ),
            forall|j: int|
                0 <= j < k ==> #[trigger] tree.nodes@[path@[j] as int].black_wins
                    == told.nodes@[path@[j] as int].black_wins
                    && tree.nodes@[path@[j] as int].white_wins
                    == told.nodes@[path@[j] as int].white_wins,
            forall|j: int|
                k <= j < path@.len() ==> #[trigger] tree.nodes@[path@[j] as int].black_wins
                    == told.nodes@[path@[j] as int].black_wins + lb
                    && tree.nodes@[path@[j] as int].white_wins
                    == told.nodes@[path@[j] as int].white_wins + lw,
            forall|i: int|
                0 <= i < told.nodes@.len() && !seq_has(path@, i) ==> tree.nodes@[i]
                    == told.nodes@[i],
        decreases k,
    {
        k = k - 1;
        let p = path[k];
        let ghost pre = *tree;
        proof {
            assert(tree.node_ok(p as int, budget + batch));
            assert(told.node_ok(p as int, budget));
            assert(pre.nodes@[p as int].black_wins == told.nodes@[p as int].black_wins
                && pre.nodes@[p as int].white_wins == told.nodes@[p as int].white_wins);
        }
        let n = &tree.nodes[p];
        let replacement = Node {
            board: n.board.duplicate(),
            black_wins: n.black_wins + lb as u64,
            white_wins: n.white_wins + lw as u64,
            favored_child: n.favored_child,
            children: n.children,
            child_nodes: copy_child_nodes(&n.child_nodes),
        };
        let ghost t1 = *tree;
        tree.nodes[p] = replacement;
        let ghost t2 = *tree;
        proof {
            assert forall|i: int| 0 <= i < tree.nodes@.len() implies #[trigger] tree.node_ok(
                i,
                budget + batch,
            ) by {
                assert(t1.node_ok(i, budget + batch));
                if i == p as int {
                    assert(tree.nodes@[i].child_nodes@ == t1.nodes@[i].child_nodes@);
                    assert(tree.nodes@[i].board.board@ == t1.nodes@[i].board.board@);
                }
            }
        }
        refresh_favored(tree, p, Ghost(budget + batch));
        proof {
            assert forall|i: int|
                0 <= i < tree.nodes@.len() && i != p as int implies tree.nodes@[i] == pre.nodes@[i] by {
                assert(tree.nodes@[i] == t2.nodes@[i]);
                assert(t2.nodes@[i] == pre.nodes@[i]);
            }
            assert forall|j: int|
                k <= j < path@.len() implies #[trigger] tree.nodes@[path@[j] as int].black_wins
                == told.nodes@[path@[j] as int].black_wins + lb
                && tree.nodes@[path@[j] as int].white_wins
                == told.nodes@[path@[j] as int].white_wins + lw by {
                if j > k {
                    assert(path@[k as int] < path@[j]);
                    assert(tree.nodes@[path@[j] as int] == pre.nodes@[path@[j] as int]);
                }
            }
            assert forall|i: int|
                0 <= i < told.nodes@.len() && !seq_has(path@, i) implies tree.nodes@[i]
                == told.nodes@[i] by {
                assert(i != p as int);
                assert(tree.nodes@[i] == pre.nodes@[i]);
            }
            assert forall|j: int|
                0 <= j < k implies #[trigger] tree.nodes@[path@[j] as int].black_wins
                == told.nodes@[path@[j] as int].black_wins
                && tree.nodes@[path@[j] as int].white_wins
                == told.nodes@[path@[j] as int].white_wins by {
                assert(path@[j] != path@[k as int]);
                assert(tree.nodes@[path@[j] as int] == pre.nodes@[path@[j] as int]);
                assert(pre.nodes@[path@[j] as int].black_wins == told.nodes@[path@[j] as int].black_wins);
            }
            assert forall|i: int|
                0 <= i < told.nodes@.len() implies #[trigger] node_frame(
                told.nodes@[i],
                tree.nodes@[i],
                batch as int,
            ) by {
                assert(node_frame(told.nodes@[i], pre.nodes@[i], batch as int));
                if i == p as int {
                    assert(tree.nodes@[i].child_nodes@ == pre.nodes@[i].child_nodes@);
                    assert(tree.nodes@[i].black_wins == pre.nodes@[i].black_wins + lb
                        && tree.nodes@[i].white_wins == pre.nodes@[i].white_wins + lw);
                    assert(pre.nodes@[i].black_wins == told.nodes@[i].black_wins
                        && pre.nodes@[i].white_wins == told.nodes@[i].white_wins);
                } else {
                    assert(tree.nodes@[i] == pre.nodes@[i]);
                }
            }
        }
    }
    proof {
        assert(playout_frame(told, *tree, path@, lb as int, batch as int));
    }
}

/// The playout budget of a full search, and the batch spent per iteration.
pub const MCTS_PLAYOUT_COUNT: u32 = 65000;

/// See `MCTS_PLAYOUT_COUNT`.
pub const MCTS_BATCH_SIZE: u32 = 25;

/// What the tree search promises of its score vector: one entry per point
/// plus the pass, the pass unplayable (this strategy does not pass), a point
/// unplayable exactly when the strict rule forbids it, and no forced entries.
pub open spec fn mcts_strategy_post(
    r: Seq<MoveScore>,
    cells: Seq<PointState>,
    size: int,
    player: Player,
    hist: Set<Seq<PointState>>,
) -> bool {
    &&& r.len() == cells.len() + 1
    &&& r[cells.len() as int] is Illegal
    &&& forall|i: int|
        0 <= i < cells.len() ==> ((#[trigger] r[i]) is Illegal == !legal_strict_spec(
            cells,
            size,
            i,
            player,
            hist,
        ))
    &&& forall|i: int| 0 <= i < r.len() ==> (#[trigger] r[i]).wf() && !(r[i] is Forced)
}

/// Scores every move by Monte Carlo tree search: the tree is grown for
/// `playout_count / batch_size` iterations, then each legal first move is
/// read off its child's accumulated win ratio, lowered pessimistically to the
/// worst expanded reply. A legal first move the search never reached is
/// seeded with one extra batch before reading, so every legal move gets a
/// score; every illegal point is unplayable, and so is passing, which this
/// strategy does not support.
pub fn mcts_strategy(
    board: Board,
    board_history: BoardHistory,
    playout_count: u32,
    batch_size: u32,
    rng: &mut Pcg64Mcg,
) -> (r: Vec<MoveScore>)
    requires
        board.wf(),
        board_history.wf(),
        1 <= batch_size <= playout_count,
        playout_count <= 0x0100_0000,
    ensures
        mcts_strategy_post(
            r@,
            board.board@,
            board.size as int,
            board.player,
            board_history.to_set(),
        ),
{
    let ghost cells = board.board@;
    let ghost s = board.size as int;
    let ghost l = board.board@.len() as int;
    let ghost pl = board.player;
    let ghost hist = board_history.to_set();
    proof {
        assert(l <= 64) by (nonlinear_arith)
            requires
                l == s * s,
                1 <= s <= 8,
        ;
    }
    let board_len = board.board.len();
    let legal = get_legal_moves_strict(&board, &board_history);
    let favored = legal.first();
    let root = Node {
        board: board,
        black_wins: 0,
        white_wins: 0,
        favored_child: favored,
        children: legal,
        child_nodes: Vec::new(),
    };
    let mut tree = MCTree { nodes: Vec::new() };
    tree.nodes.push(root);
    let ghost mut budget: int = 0;
    proof {
        assert forall|i: int| 0 <= i < tree.nodes@.len() implies #[trigger] tree.node_ok(
            i,
            budget,
        ) by {
            if favored is Some {
                assert(legal.has(favored->0 as int));
            }
            assert forall|m2: int| #[trigger] legal.has(m2) implies m2 < l by {}
        }
        assert(tree.wf(budget));
    }
    let iterations = playout_count / batch_size;
    proof {
        assert(iterations * batch_size <= playout_count) by (nonlinear_arith)
            requires
                batch_size >= 1,
                iterations == playout_count / batch_size,
        ;
    }
    let mut it: u32 = 0;
    while it < iterations
        invariant
            board_history.wf(),
            1 <= batch_size <= playout_count,
            playout_count <= 0x0100_0000,
            it <= iterations,
            iterations * batch_size <= playout_count,
            budget >= 0,
            budget + (iterations - it) * batch_size <= playout_count,
            tree.wf(budget),
            tree.nodes@[0].board.board@ == cells,
        decreases iterations - it,
    {
        proof {
            assert((iterations - it) * batch_size == (iterations - it - 1) * batch_size
                + batch_size) by (nonlinear_arith)
                requires
                    it < iterations,
            ;
            assert((iterations - it - 1) * batch_size >= 0) by (nonlinear_arith)
                requires
                    it < iterations,
                    batch_size >= 1,
            ;
        }
        let ghost tprev = tree;
        mcts_playout(&mut tree, &board_history, batch_size, rng, Ghost(budget));
        proof {
            assert(node_frame(tprev.nodes@[0], tree.nodes@[0], batch_size as int));
            budget = budget + batch_size;
        }
        it = it + 1;
    }
    // every legal first move gets a node before scores are read
    let mut bp: usize = 0;
    while bp < board_len
        invariant
            board_history.wf(),
            1 <= batch_size <= playout_count,
            playout_count <= 0x0100_0000,
            board_len as int == l,
            l <= 64,
            bp <= board_len,
            budget >= 0,
            budget <= playout_count + (bp as int) * (batch_size as int),
            tree.wf(budget),
            tree.nodes@[0].board.board@ == cells,
            forall|i: int| #[trigger] legal.has(i) == legal_strict_spec(cells, s, i, pl, hist),
            forall|i: int|
                0 <= i < bp && legal.has(i) ==> exists|kk: int|
                    0 <= kk < tree.nodes@[0].child_nodes@.len() && (
                    #[trigger] tree.nodes@[0].child_nodes@[kk]).0 as int == i,
        decreases board_len - bp,
    {
        if legal.contains(bp) {
            let ghost tpre = tree;
            match find_child(&tree.nodes[0], bp) {
                Some(ci) => {
                    proof {
                        let kk = choose|kk: int|
                            0 <= kk < tree.nodes@[0].child_nodes@.len()
                                && #[trigger] tree.nodes@[0].child_nodes@[kk] == (bp, ci);
                        assert(tree.nodes@[0].child_nodes@[kk].0 as int == bp as int);
                    }
                },
                None => {
                    proof {
                        assert((bp as int) * (batch_size as int) + batch_size <= 65
                            * (batch_size as int)) by (nonlinear_arith)
                            requires
                                0 <= bp < 64,
                                batch_size >= 1,
                        ;
                        assert(65 * (batch_size as int) <= 65 * 0x0100_0000) by (nonlinear_arith)
                            requires
                                batch_size <= 0x0100_0000,
                        ;
                    }
                    let ghost tprev = tree;
                    expand_reply(&mut tree, 0, bp, &board_history, batch_size, rng, Ghost(budget));
                    proof {
                        budget = budget + batch_size;
                        let prevlen = tprev.nodes@[0].child_nodes@.len() as int;
                        assert(tree.nodes@[0].child_nodes@
                            == tprev.nodes@[0].child_nodes@.push(
                            (bp, tprev.nodes@.len() as usize),
                        ));
                        assert(tree.nodes@[0].child_nodes@[prevlen].0 as int == bp as int);
                    }
                },
            }
            proof {
                assert forall|i: int|
                    0 <= i < bp + 1 && legal.has(i) implies exists|kk: int|
                    0 <= kk < tree.nodes@[0].child_nodes@.len() && (
                    #[trigger] tree.nodes@[0].child_nodes@[kk]).0 as int == i by {
                    if i < bp as int {
                        let kk = choose|kk: int|
                            0 <= kk < tpre.nodes@[0].child_nodes@.len() && (
                            #[trigger] tpre.nodes@[0].child_nodes@[kk]).0 as int == i;
                        assert(tree.nodes@[0].child_nodes@[kk].0 as int == i);
                    }
                }
            }
        }
        proof {
            assert(((bp + 1) as int) * (batch_size as int) == (bp as int) * (batch_size as int)
                + batch_size) by (nonlinear_arith);
        }
        bp = bp + 1;
    }
    proof {
        assert(budget <= 0x8000_0000) by (nonlinear_arith)
            requires
                budget <= playout_count + (bp as int) * (batch_size as int),
                bp <= 64,
                batch_size <= 0x0100_0000,
                playout_count <= 0x0100_0000,
        ;
    }
    let mut result: Vec<MoveScore> = Vec::new();
    let mut point: usize = 0;
    while point < board_len
        invariant
            tree.wf(budget),
            budget <= 0x8000_0000,
            forall|i: int|
                0 <= i < l && legal.has(i) ==> exists|kk: int|
                    0 <= kk < tree.nodes@[0].child_nodes@.len() && (
                    #[trigger] tree.nodes@[0].child_nodes@[kk]).0 as int == i,
            board_len as int == l,
            l <= 64,
            forall|i: int| #[trigger] legal.has(i) == legal_strict_spec(cells, s, i, pl, hist),
            point <= board_len,
            result@.len() == point,
            forall|i: int|
                0 <= i < point ==> ((#[trigger] result@[i]) is Illegal == !legal.has(i)),
            forall|i: int|
                0 <= i < point ==> (#[trigger] result@[i]).wf() && !(result@[i] is Forced),
        decreases board_len - point,
    {
        if legal.contains(point) {
            proof {
                assert(tree.node_ok(0, budget));
            }
            match find_child(&tree.nodes[0], point) {
                None => {
                    // never reached: every legal first move was given a node
                    proof {
                        let kk = choose|kk: int|
                            0 <= kk < tree.nodes@[0].child_nodes@.len() && (
                            #[trigger] tree.nodes@[0].child_nodes@[kk]).0 as int == point as int;
                        assert(tree.nodes@[0].child_nodes@[kk].0 != point);
                        assert(false);
                    }
                    result.push(MoveScore::Value(Rat { num: 0, den: 1 }));
                },
                Some(ci) => {
                    proof {
                        let k = choose|k: int|
                            0 <= k < tree.nodes@[0].child_nodes@.len()
                                && #[trigger] tree.nodes@[0].child_nodes@[k] == (point, ci);
                        assert(tree.nodes@[0].child_nodes@[k].1 == ci);
                        assert(0 < (tree.nodes@[0].child_nodes@[k].1 as int) < tree.nodes@.len());
                        assert(tree.node_ok(ci as int, budget));
                    }
                    let cb = tree.nodes[ci].black_wins;
                    let cw = tree.nodes[ci].white_wins;
                    let mut score = Rat {
                        num: (cb as i64) - (cw as i64),
                        den: 2 * ((cb + cw) as i64),
                    };
                    let responses = tree.nodes[ci].child_nodes.len();
                    let mut k: usize = 0;
                    while k < responses
                        invariant
                            tree.wf(budget),
                            budget <= 0x8000_0000,
                            (ci as int) < tree.nodes@.len(),
                            responses == tree.nodes@[ci as int].child_nodes@.len(),
                            k <= responses,
                            score.wf(),
                        decreases responses - k,
                    {
                        proof {
                            assert(tree.node_ok(ci as int, budget));
                        }
                        let (_, gi) = tree.nodes[ci].child_nodes[k];
                        proof {
                            assert((ci as int) < (tree.nodes@[ci as int].child_nodes@[k as int].1
                                as int) < tree.nodes@.len());
                            assert(tree.node_ok(
                                tree.nodes@[ci as int].child_nodes@[k as int].1 as int,
                                budget,
                            ));
                        }
                        let gb = tree.nodes[gi].black_wins;
                        let gw = tree.nodes[gi].white_wins;
                        let gs = Rat {
                            num: (gb as i64) - (gw as i64),
                            den: 2 * ((gb + gw) as i64),
                        };
                        if gs.lt(&score) {
                            score = gs;
                        }
                        k = k + 1;
                    }
                    result.push(MoveScore::Value(score));
                },
            }
        } else {
            result.push(MoveScore::Illegal);
        }
        point = point + 1;
    }
    result.push(MoveScore::Illegal);
    result
}

/// Copies a node's expanded-reply table.
fn copy_child_nodes(v: &Vec<(usize, usize)>) -> (r: Vec<(usize, usize)>)
    ensures
        r@ == v@,
{
    let mut out: Vec<(usize, usize)> = Vec::new();
    let mut i: usize = 0;
    while i < v.len()
        invariant
            i <= v@.len(),
            out@ == v@.subrange(0, i as int),
        decreases v@.len() - i,
    {
        out.push(v[i]);
        i = i + 1;
    }
    proof {
        assert(out@ =~= v@);
    }
    out
}

} // verus!
