use ego_tree::{NodeId, Tree};
use vstd::prelude::*;

use crate::game::game::{opponent, Game, GameModel, Turn};
use crate::game::laws::{
    board_empties, law_offered_moves_distinct, law_offered_moves_playable, law_open_game_offers_moves,
    law_play_fills_one_cell, law_play_keeps_legal_region, law_unplay_undoes_play,
    legal_region_ok, offered_moves, open_board_at,
};
use crate::game::model::{board_get, get_safe, board_value};
use crate::game::value::Value;
use crate::game::cell::lemma_deep_view_positions;

use super::monte_carlo_policy::MonteCarloPolicy;
use super::search_control::Thoughts;
use super::random::random_choice;
use super::node::{add_held, add_held_exec, relative_score, MonteCarloNode, NodeModel};
use super::tree::{
    tree_ancestors, tree_append, tree_children, tree_model, tree_new, tree_root, tree_root_id,
    tree_set_value, tree_value, TreeEntry,
};

verus! {

broadcast use vstd::std_specs::vec::group_vec_axioms;

/// The game after the given moves, played in order.
pub open spec fn replay(g: GameModel, plays: Seq<Seq<usize>>) -> GameModel
    decreases plays.len(),
{
    if plays.len() == 0 {
        g
    } else {
        replay(g, plays.drop_last()).after_play(plays.last())
    }
}

/// The game is well-formed and its legal region is sound.
pub open spec fn game_ok(g: GameModel) -> bool {
    g.wf() && legal_region_ok(g.board, g.legal)
}

/// Each move is one that `legal_moves` offers in the game reached by the moves before it.
pub open spec fn valid_plays(g: GameModel, plays: Seq<Seq<usize>>) -> bool {
    forall|k: int| 0 <= k < plays.len() ==> #[trigger] offered_moves(replay(g, plays.take(k))).contains(plays[k])
}

/// The nodes from the child of the root down to `id` (empty for the root).
pub open spec fn node_path(m: Map<NodeId, TreeEntry>, id: NodeId) -> Seq<NodeId> {
    let a = m[id].ancestors;
    if a.len() == 0 {
        Seq::empty()
    } else {
        a.reverse().drop_first().push(id)
    }
}

/// The moves that lead from the root's game to the game at `id`.
pub open spec fn node_plays(m: Map<NodeId, TreeEntry>, id: NodeId) -> Seq<Seq<usize>> {
    node_path(m, id).map_values(|n: NodeId| m[n].node.play)
}

/// The game at a node of the tree.
pub open spec fn state_at(g: GameModel, m: Map<NodeId, TreeEntry>, id: NodeId) -> GameModel {
    replay(g, node_plays(m, id))
}

/// The tree is a tree rooted at `root` whose every node stands for a game reached from
/// `g` by moves that were legal each in turn.
pub open spec fn tree_ok(m: Map<NodeId, TreeEntry>, root: NodeId, g: GameModel) -> bool {
    &&& m.contains_key(root)
    &&& m[root].ancestors.len() == 0
    &&& m[root].node.play.len() == 0
    &&& forall|id: NodeId| #[trigger] m.contains_key(id) && id != root ==> {
        &&& m[id].ancestors.len() > 0
        &&& m[id].ancestors.last() == root
    }
    &&& forall|id: NodeId| #[trigger] m.contains_key(id) ==> {
        &&& m[id].ancestors.no_duplicates()
        &&& !m[id].ancestors.contains(id)
        &&& forall|k: int| 0 <= k < m[id].ancestors.len() ==> m.contains_key(#[trigger] m[id].ancestors[k])
        &&& forall|k: int| 0 <= k < m[id].children.len() ==> {
            &&& m.contains_key(#[trigger] m[id].children[k])
            &&& m[m[id].children[k]].ancestors == seq![id] + m[id].ancestors
        }
        &&& valid_plays(g, node_plays(m, id))
    }
}

/// The moves that remain of `moves` once those in `taken` are removed, in order.
pub open spec fn remaining_moves(moves: Seq<Seq<usize>>, taken: Seq<Seq<usize>>) -> Seq<Seq<usize>>
    decreases moves.len(),
{
    if moves.len() == 0 {
        Seq::empty()
    } else if taken.contains(moves.last()) {
        remaining_moves(moves.drop_last(), taken)
    } else {
        remaining_moves(moves.drop_last(), taken).push(moves.last())
    }
}

/// The moves of a playout from `g`: each is legal in turn and is made while the game is
/// still open, and after the last one the game is over.
pub open spec fn is_playout(g: GameModel, rest: Seq<Seq<usize>>) -> bool {
    &&& valid_plays(g, rest)
    &&& forall|k: int| 0 <= k < rest.len() ==> board_value(#[trigger] replay(g, rest.take(k)).board) == Value::Undecided
    &&& board_value(replay(g, rest).board) != Value::Undecided
}

/// The moves of the children of a node.
pub open spec fn child_plays(m: Map<NodeId, TreeEntry>, id: NodeId) -> Seq<Seq<usize>> {
    m[id].children.map_values(|c: NodeId| m[c].node.play)
}

/// The children of every node stand for distinct moves.
pub open spec fn children_distinct(m: Map<NodeId, TreeEntry>) -> bool {
    forall|id: NodeId| m.contains_key(id) ==> (#[trigger] child_plays(m, id)).no_duplicates()
}

/// The node after one more simulation through it that ended with `val`.
pub open spec fn with_result(n: NodeModel, val: i64) -> NodeModel {
    NodeModel {
        playouts: if n.playouts == u64::MAX { u64::MAX } else { (n.playouts + 1) as u64 },
        score: add_held(n.score, val),
        ..n
    }
}

/// The result of a finished game for `opt_for`: 1 for a win, 0 for a draw, -1 otherwise.
pub open spec fn result_value(outcome: Value, opt_for: Turn) -> i64 {
    if outcome == crate::game::game::turn_value(opt_for) {
        1
    } else if outcome == Value::Draw {
        0
    } else {
        -1i64
    }
}

/// The result of a finished game for `opt_for`: 1 for a win, 0 for a draw, -1 otherwise.
pub fn playout_value(outcome: Value, opt_for: Turn) -> (r: i64)
    ensures
        r == result_value(outcome, opt_for),
{
    if outcome == opt_for.val() {
        1
    } else if outcome == Value::Draw {
        0
    } else {
        -1
    }
}

/// The moves up to `k` of a longer list are the moves up to `k` of the shorter one.
proof fn lemma_take_push_moves(p: Seq<Seq<usize>>, x: Seq<usize>, k: int)
    requires
        0 <= k <= p.len(),
    ensures
        p.push(x).take(k) == p.take(k),
{
    assert(p.push(x).take(k) =~= p.take(k));
}

/// Along a list of moves that are legal each in turn, every game reached is sound, each
/// next move is accepted, and taking it back restores the game before it.
pub proof fn lemma_replay(g: GameModel, plays: Seq<Seq<usize>>, k: int)
    requires
        game_ok(g),
        valid_plays(g, plays),
        0 <= k <= plays.len(),
    ensures
        game_ok(replay(g, plays.take(k))),
        replay(g, plays.take(k)).depth == g.depth,
        replay(g, plays.take(k)).players == g.players,
        replay(g, plays.take(k)).moves.len() == g.moves.len() + k,
        k < plays.len() ==> {
            let h = replay(g, plays.take(k));
            &&& h.play_safe(plays[k])
            &&& h.play_result(plays[k]) is Ok
            &&& game_ok(h.after_play(plays[k]))
            &&& replay(g, plays.take(k + 1)) == h.after_play(plays[k])
            &&& h.after_play(plays[k]).unplay_safe()
            &&& h.after_play(plays[k]).after_unplay() == h
            &&& board_empties(h.after_play(plays[k]).board, 9) + 1 == board_empties(h.board, 9)
        },
    decreases k,
{
    if k == 0 {
        assert(plays.take(0) =~= Seq::<Seq<usize>>::empty());
        assert(replay(g, plays.take(0)) == g);
    } else {
        lemma_replay(g, plays, k - 1);
        assert(plays.take(k).drop_last() =~= plays.take(k - 1));
    }
    if k < plays.len() {
        let h = replay(g, plays.take(k));
        assert(offered_moves(h).contains(plays[k]));
        let i = choose|i: int| 0 <= i < offered_moves(h).len() && offered_moves(h)[i] == plays[k];
        law_offered_moves_playable(h, i);
        law_play_keeps_legal_region(h, plays[k]);
        law_unplay_undoes_play(h, plays[k]);
        law_play_fills_one_cell(h, plays[k]);
        assert(plays.take(k + 1).drop_last() =~= plays.take(k));
    }
}

/// When nothing remains of a list of moves, every move of it was taken.
proof fn lemma_remaining_empty(moves: Seq<Seq<usize>>, taken: Seq<Seq<usize>>)
    requires
        remaining_moves(moves, taken).len() == 0,
    ensures
        forall|x: Seq<usize>| moves.contains(x) ==> taken.contains(x),
    decreases moves.len(),
{
    if moves.len() > 0 {
        lemma_remaining_empty(moves.drop_last(), taken);
        assert forall|x: Seq<usize>| moves.contains(x) implies taken.contains(x) by {
            let k = choose|k: int| 0 <= k < moves.len() && moves[k] == x;
            if k < moves.len() - 1 {
                assert(moves.drop_last()[k] == x);
            }
        }
    }
}

/// A list without repeats whose items all occur in another list without repeats is no
/// longer than it.
proof fn lemma_covered_len(a: Seq<Seq<usize>>, b: Seq<Seq<usize>>)
    requires
        a.no_duplicates(),
        b.no_duplicates(),
        forall|x: Seq<usize>| a.contains(x) ==> b.contains(x),
    ensures
        a.len() <= b.len(),
{
    a.unique_seq_to_set();
    b.unique_seq_to_set();
    vstd::seq_lib::seq_to_set_is_finite(b);
    assert(a.to_set().subset_of(b.to_set()));
    vstd::set_lib::lemma_len_subset(a.to_set(), b.to_set());
}

/// Whether two moves are the same.
fn same_play(a: &Vec<usize>, b: &Vec<usize>) -> (r: bool)
    ensures
        r == (a@ == b@),
{
    if a.len() != b.len() {
        return false;
    }
    let n = a.len();
    for i in 0..n
        invariant
            n == a@.len(),
            n == b@.len(),
            forall|k: int| 0 <= k < i ==> a@[k] == b@[k],
    {
        if a[i] != b[i] {
            return false;
        }
    }
    assert(a@ =~= b@);
    true
}

/// What remains of a list of moves is part of it.
proof fn lemma_remaining_in(moves: Seq<Seq<usize>>, taken: Seq<Seq<usize>>)
    ensures
        forall|x: Seq<usize>| #[trigger] remaining_moves(moves, taken).contains(x) ==> moves.contains(x) && !taken.contains(x),
    decreases moves.len(),
{
    if moves.len() > 0 {
        lemma_remaining_in(moves.drop_last(), taken);
        assert forall|x: Seq<usize>| #[trigger] remaining_moves(moves, taken).contains(x) implies moves.contains(x) && !taken.contains(x) by {
            if remaining_moves(moves.drop_last(), taken).contains(x) {
                let k = choose|k: int| 0 <= k < moves.drop_last().len() && #[trigger] moves.drop_last()[k] == x;
                assert(moves[k] == x);
            } else {
                assert(x == moves.last());
            }
        }
    }
}

/// A legal move appended to a list of moves that are legal each in turn keeps it so.
proof fn lemma_valid_push(g: GameModel, plays: Seq<Seq<usize>>, x: Seq<usize>)
    requires
        valid_plays(g, plays),
        offered_moves(replay(g, plays)).contains(x),
    ensures
        valid_plays(g, plays.push(x)),
{
    let p2 = plays.push(x);
    assert forall|k: int| 0 <= k < p2.len() implies #[trigger] offered_moves(replay(g, p2.take(k))).contains(p2[k]) by {
        lemma_take_push_moves(plays, x, k);
        if k == plays.len() {
            assert(plays.take(k) =~= plays);
        } else {
            assert(offered_moves(replay(g, plays.take(k))).contains(plays[k]));
        }
    }
}

/// In a sound game, the legal region can be looked up.
pub proof fn lemma_legal_lookup(g: GameModel)
    requires
        game_ok(g),
    ensures
        get_safe(g.board, g.legal),
        board_get(g.board, g.legal) is Some,
{
    assert(g.legal.take(g.legal.len() as int) =~= g.legal);
    if board_value(g.board) == Value::Undecided {
        assert(open_board_at(g.board, g.legal.take(g.legal.len() as int)));
    }
}

/// Two trees with the same nodes, links and moves stand for the same games.
proof fn lemma_tree_ok_same_shape(m: Map<NodeId, TreeEntry>, m2: Map<NodeId, TreeEntry>, root: NodeId, g: GameModel)
    requires
        tree_ok(m, root, g),
        m2.dom() == m.dom(),
        forall|id: NodeId| #[trigger] m.contains_key(id) ==> {
            &&& m2[id].ancestors == m[id].ancestors
            &&& m2[id].children == m[id].children
            &&& m2[id].node.play == m[id].node.play
        },
    ensures
        tree_ok(m2, root, g),
        forall|id: NodeId| #[trigger] m.contains_key(id) ==> node_plays(m2, id) == node_plays(m, id),
        children_distinct(m) ==> children_distinct(m2),
{
    assert forall|id: NodeId| #[trigger] m.contains_key(id) implies child_plays(m2, id) == child_plays(m, id) by {
        assert forall|k: int| 0 <= k < m[id].children.len() implies #[trigger] m2[m[id].children[k]].node.play
            == m[m[id].children[k]].node.play by {
            assert(m.contains_key(m[id].children[k]));
        }
        assert(child_plays(m2, id) =~= child_plays(m, id));
    }
    if children_distinct(m) {
        assert forall|id: NodeId| m2.contains_key(id) implies (#[trigger] child_plays(m2, id)).no_duplicates() by {
            assert(m.contains_key(id));
            assert(child_plays(m2, id) == child_plays(m, id));
        }
    }
    assert forall|id: NodeId| #[trigger] m.contains_key(id) implies node_plays(m2, id) == node_plays(m, id) by {
        assert(node_path(m2, id) == node_path(m, id));
        let p = node_path(m, id);
        if m[id].ancestors.len() > 0 {
            assert forall|k: int| 0 <= k < p.len() implies m.contains_key(#[trigger] p[k]) by {
                if k < p.len() - 1 {
                    assert(p[k] == m[id].ancestors[m[id].ancestors.len() - 2 - k]);
                }
            }
        }
        assert(node_plays(m2, id) =~= node_plays(m, id));
    }
    assert forall|id: NodeId| #[trigger] m2.contains_key(id) implies {
        &&& m2[id].ancestors.no_duplicates()
        &&& !m2[id].ancestors.contains(id)
        &&& forall|k: int| 0 <= k < m2[id].ancestors.len() ==> m2.contains_key(#[trigger] m2[id].ancestors[k])
        &&& forall|k: int| 0 <= k < m2[id].children.len() ==> {
            &&& m2.contains_key(#[trigger] m2[id].children[k])
            &&& m2[m2[id].children[k]].ancestors == seq![id] + m2[id].ancestors
        }
        &&& valid_plays(g, node_plays(m2, id))
    } by {
        assert(m.contains_key(id));
        assert forall|k: int| 0 <= k < m2[id].children.len() implies {
            &&& m2.contains_key(#[trigger] m2[id].children[k])
            &&& m2[m2[id].children[k]].ancestors == seq![id] + m2[id].ancestors
        } by {
            assert(m.contains_key(m[id].children[k]));
        }
    }
    assert forall|id: NodeId| #[trigger] m2.contains_key(id) && id != root implies {
        &&& m2[id].ancestors.len() > 0
        &&& m2[id].ancestors.last() == root
    } by {
        assert(m.contains_key(id));
    }
}

/// The moves to a child are the moves to its parent followed by the child's own move.
proof fn lemma_child_plays(m: Map<NodeId, TreeEntry>, root: NodeId, g: GameModel, id: NodeId, k: int)
    requires
        tree_ok(m, root, g),
        m.contains_key(id),
        0 <= k < m[id].children.len(),
    ensures
        m.contains_key(m[id].children[k]),
        node_plays(m, m[id].children[k]) == node_plays(m, id).push(m[m[id].children[k]].node.play),
{
    let c = m[id].children[k];
    let a = m[id].ancestors;
    assert(m[c].ancestors == seq![id] + a);
    if a.len() == 0 {
        assert((seq![id] + a).reverse().drop_first() =~= Seq::<NodeId>::empty());
        assert(node_path(m, id) =~= Seq::<NodeId>::empty());
    } else {
        assert((seq![id] + a).reverse().drop_first() =~= a.reverse().drop_first().push(id));
    }
    assert(node_path(m, c) =~= node_path(m, id).push(c));
    assert(node_plays(m, c) =~= node_plays(m, id).push(m[c].node.play));
}

/// The child with the most simulations: the first in order among those with the most,
/// and none when no child has been simulated; paired with its number of simulations.
pub open spec fn robust_pick(m: Map<NodeId, TreeEntry>, cs: Seq<NodeId>, n: nat) -> (u64, Option<NodeId>)
    decreases n,
{
    if n == 0 || n > cs.len() {
        (0, None)
    } else {
        let prev = robust_pick(m, cs, (n - 1) as nat);
        let p = m[cs[n - 1]].node.playouts;
        if p > prev.0 {
            (p, Some(cs[n - 1]))
        } else {
            prev
        }
    }
}

/// The child with the highest score for `opt_for`: the last in order among those with
/// the highest, and none when there are no children; paired with its score.
pub open spec fn maximum_pick(m: Map<NodeId, TreeEntry>, cs: Seq<NodeId>, n: nat, opt_for: Turn) -> (i64, Option<NodeId>)
    decreases n,
{
    if n == 0 || n > cs.len() {
        (0, None)
    } else {
        let prev = maximum_pick(m, cs, (n - 1) as nat, opt_for);
        let s = relative_score(m[cs[n - 1]].node, opt_for);
        if prev.1 is None || s >= prev.0 {
            (s, Some(cs[n - 1]))
        } else {
            prev
        }
    }
}

/// Among the first `n` children, one is picked, and its score is the highest of them.
proof fn lemma_maximum_pick(m: Map<NodeId, TreeEntry>, cs: Seq<NodeId>, n: nat, opt_for: Turn)
    requires
        0 < n <= cs.len(),
    ensures
        exists|i: int| 0 <= i < n && maximum_pick(m, cs, n, opt_for) == (relative_score(m[cs[i]].node, opt_for), Some(#[trigger] cs[i])),
        forall|j: int| 0 <= j < n ==> relative_score(m[#[trigger] cs[j]].node, opt_for) <= maximum_pick(m, cs, n, opt_for).0,
    decreases n,
{
    let sc = relative_score(m[cs[n - 1]].node, opt_for);
    if n == 1 {
        assert(maximum_pick(m, cs, 0, opt_for).1 is None);
        assert(maximum_pick(m, cs, n, opt_for) == (sc, Some(cs[0])));
        assert(cs[0] == cs[0]);
    } else {
        lemma_maximum_pick(m, cs, (n - 1) as nat, opt_for);
        let prev = maximum_pick(m, cs, (n - 1) as nat, opt_for);
        if sc >= prev.0 {
            assert(cs[n - 1] == cs[n - 1]);
        } else {
            let i = choose|i: int| 0 <= i < n - 1 && prev == (relative_score(m[cs[i]].node, opt_for), Some(#[trigger] cs[i]));
            assert(cs[i] == cs[i]);
        }
        assert forall|j: int| 0 <= j < n implies relative_score(m[#[trigger] cs[j]].node, opt_for) <= maximum_pick(m, cs, n, opt_for).0 by {
            if j < n - 1 {
                assert(relative_score(m[cs[j]].node, opt_for) <= prev.0);
            }
        }
    }
}

/// A picked child is one of the children.
proof fn lemma_pick_in(m: Map<NodeId, TreeEntry>, cs: Seq<NodeId>, n: nat, robust: bool, opt_for: Turn)
    ensures
        robust ==> (robust_pick(m, cs, n).1 matches Some(id) ==> cs.contains(id)),
        !robust ==> (maximum_pick(m, cs, n, opt_for).1 matches Some(id) ==> cs.contains(id)),
    decreases n,
{
    if n > 0 && n <= cs.len() {
        lemma_pick_in(m, cs, (n - 1) as nat, robust, opt_for);
        assert(cs[n - 1] == cs[n - 1]);
    }
}

/// The child of the root that a policy picks, if any.
pub open spec fn best_pick(m: Map<NodeId, TreeEntry>, root: NodeId, policy: MonteCarloPolicy, opt_for: Turn) -> Option<NodeId> {
    let cs = m[root].children;
    match policy {
        MonteCarloPolicy::Robust => robust_pick(m, cs, cs.len()).1,
        MonteCarloPolicy::Maximum => maximum_pick(m, cs, cs.len(), opt_for).1,
        _ => None,
    }
}

/// The entry of a new child `r` of `p` holding `node`, and the tree after it is appended.
pub open spec fn appended(m: Map<NodeId, TreeEntry>, p: NodeId, r: NodeId, node: NodeModel) -> Map<NodeId, TreeEntry> {
    m.insert(p, TreeEntry { children: m[p].children.push(r), ..m[p] }).insert(
        r,
        TreeEntry { ancestors: seq![p] + m[p].ancestors, children: Seq::empty(), node },
    )
}

/// Appending a child whose move is legal in its parent's game keeps the tree sound.
proof fn lemma_append_ok(m: Map<NodeId, TreeEntry>, root: NodeId, g: GameModel, p: NodeId, r: NodeId, node: NodeModel)
    requires
        game_ok(g),
        tree_ok(m, root, g),
        m.contains_key(p),
        !m.contains_key(r),
        offered_moves(state_at(g, m, p)).contains(node.play),
    ensures
        tree_ok(appended(m, p, r, node), root, g),
        node_plays(appended(m, p, r, node), r) == node_plays(m, p).push(node.play),
        children_distinct(m) && !child_plays(m, p).contains(node.play) ==> children_distinct(
            appended(m, p, r, node),
        ),
{
    let m2 = appended(m, p, r, node);
    if children_distinct(m) && !child_plays(m, p).contains(node.play) {
        assert forall|id: NodeId| m2.contains_key(id) implies (#[trigger] child_plays(m2, id)).no_duplicates() by {
            if id == r {
                assert(child_plays(m2, id) =~= Seq::<Seq<usize>>::empty());
            } else {
                assert(m.contains_key(id));
                assert(child_plays(m, id).no_duplicates());
                assert forall|k: int| 0 <= k < m[id].children.len() implies #[trigger] m2[m[id].children[k]].node.play
                    == m[m[id].children[k]].node.play by {
                    assert(m.contains_key(m[id].children[k]));
                }
                if id == p {
                    assert(m2[p].children == m[p].children.push(r));
                    assert(child_plays(m2, p) =~= child_plays(m, p).push(node.play));
                } else {
                    assert(child_plays(m2, id) =~= child_plays(m, id));
                }
            }
        }
    }
    let ap = m[p].ancestors;
    assert(m2[r].ancestors == seq![p] + ap);
    // Paths of the old nodes do not change.
    assert forall|id: NodeId| #[trigger] m.contains_key(id) implies node_plays(m2, id) == node_plays(m, id) by {
        assert(m2[id].ancestors == m[id].ancestors);
        assert(node_path(m2, id) == node_path(m, id));
        let path = node_path(m, id);
        if m[id].ancestors.len() > 0 {
            assert forall|k: int| 0 <= k < path.len() implies m.contains_key(#[trigger] path[k]) by {
                if k < path.len() - 1 {
                    assert(path[k] == m[id].ancestors[m[id].ancestors.len() - 2 - k]);
                }
            }
            assert forall|k: int| 0 <= k < path.len() implies #[trigger] m2[path[k]].node.play == m[path[k]].node.play by {
                assert(m.contains_key(path[k]));
            }
        }
        assert(node_plays(m2, id) =~= node_plays(m, id));
    }
    // The path of the new node.
    if ap.len() == 0 {
        assert(p == root);
        assert((seq![p] + ap).reverse().drop_first() =~= Seq::<NodeId>::empty());
        assert(node_path(m, p) =~= Seq::<NodeId>::empty());
    } else {
        assert((seq![p] + ap).reverse().drop_first() =~= ap.reverse().drop_first().push(p));
    }
    assert(node_path(m2, r) =~= node_path(m, p).push(r));
    assert(node_plays(m2, r) =~= node_plays(m, p).push(node.play)) by {
        let path = node_path(m, p);
        if ap.len() > 0 {
            assert forall|k: int| 0 <= k < path.len() implies m.contains_key(#[trigger] path[k]) by {
                if k < path.len() - 1 {
                    assert(path[k] == ap[ap.len() - 2 - k]);
                }
            }
        }
    }
    lemma_valid_push(g, node_plays(m, p), node.play);
    assert forall|id: NodeId| #[trigger] m2.contains_key(id) && id != root implies {
        &&& m2[id].ancestors.len() > 0
        &&& m2[id].ancestors.last() == root
    } by {
        if id == r {
            if ap.len() > 0 {
                assert((seq![p] + ap).last() == ap.last());
            }
        } else {
            assert(m.contains_key(id));
        }
    }
    assert forall|id: NodeId| #[trigger] m2.contains_key(id) implies {
        &&& m2[id].ancestors.no_duplicates()
        &&& !m2[id].ancestors.contains(id)
        &&& forall|k: int| 0 <= k < m2[id].ancestors.len() ==> m2.contains_key(#[trigger] m2[id].ancestors[k])
        &&& forall|k: int| 0 <= k < m2[id].children.len() ==> {
            &&& m2.contains_key(#[trigger] m2[id].children[k])
            &&& m2[m2[id].children[k]].ancestors == seq![id] + m2[id].ancestors
        }
        &&& valid_plays(g, node_plays(m2, id))
    } by {
        if id == r {
            let a2 = seq![p] + ap;
            assert forall|i: int, j: int| 0 <= i < a2.len() && 0 <= j < a2.len() && i != j implies a2[i] != a2[j] by {
                if i == 0 && j > 0 {
                    assert(a2[j] == ap[j - 1]);
                    assert(ap.contains(a2[j]));
                } else if j == 0 && i > 0 {
                    assert(a2[i] == ap[i - 1]);
                    assert(ap.contains(a2[i]));
                } else if i > 0 && j > 0 {
                    assert(a2[i] == ap[i - 1]);
                    assert(a2[j] == ap[j - 1]);
                }
            }
            assert(!a2.contains(r)) by {
                if a2.contains(r) {
                    let k = choose|k: int| 0 <= k < a2.len() && #[trigger] a2[k] == r;
                    if k > 0 {
                        assert(a2[k] == ap[k - 1]);
                        assert(m.contains_key(ap[k - 1]));
                    }
                }
            }
            assert forall|k: int| 0 <= k < a2.len() implies m2.contains_key(#[trigger] a2[k]) by {
                if k > 0 {
                    assert(a2[k] == ap[k - 1]);
                    assert(m.contains_key(ap[k - 1]));
                }
            }
        } else {
            assert(m.contains_key(id));
            assert(m2[id].ancestors == m[id].ancestors);
            assert forall|k: int| 0 <= k < m2[id].children.len() implies {
                &&& m2.contains_key(#[trigger] m2[id].children[k])
                &&& m2[m2[id].children[k]].ancestors == seq![id] + m2[id].ancestors
            } by {
                if id == p && k == m[p].children.len() {
                    assert(m2[id].children[k] == r);
                } else {
                    assert(m2[id].children[k] == m[id].children[k]);
                    assert(m.contains_key(m[id].children[k]));
                    assert(m[id].children[k] != r);
                }
            }
        }
    }
}

/// The node is where selection stops: not every legal move of its game has a child yet,
/// it expects no children, or its game is over.
pub open spec fn stops_selection(m: Map<NodeId, TreeEntry>, g: GameModel, id: NodeId) -> bool {
    let st = state_at(g, m, id);
    ||| m[id].children.len() < offered_moves(st).len()
    ||| m[id].node.child_count == 0
    ||| board_value(st.board) != Value::Undecided
}

/// The statistics handed to `pick` for the children of a node: each child's score seen
/// from `opt_for` and its number of simulations, in the children's order.
pub open spec fn child_stats(m: Map<NodeId, TreeEntry>, id: NodeId, opt_for: Turn) -> Seq<(i64, u64)> {
    m[id].children.map_values(|c: NodeId| (relative_score(m[c].node, opt_for), m[c].node.playouts))
}

/// The statistics handed to `pick` hold, for each child in order, its number of
/// simulations and its score as the player who made the child's move sees it: the score
/// kept for `opt_for` where the move is `opt_for`'s, and its negation (held at
/// `i64::MAX`) where the move is the opponent's.
pub proof fn law_child_stats_seen_by_mover(m: Map<NodeId, TreeEntry>, id: NodeId, opt_for: Turn)
    ensures
        child_stats(m, id, opt_for).len() == m[id].children.len(),
        forall|k: int|
            0 <= k < m[id].children.len() ==> {
                let n = m[m[id].children[k]].node;
                &&& (#[trigger] child_stats(m, id, opt_for)[k]).1 == n.playouts
                &&& n.turn == opt_for ==> child_stats(m, id, opt_for)[k].0 == n.score
                &&& n.turn != opt_for ==> child_stats(m, id, opt_for)[k].0 as int == if n.score == i64::MIN {
                    i64::MAX as int
                } else {
                    -(n.score as int)
                }
            },
{
}

/// `child` is a child of `parent` that `pick` may choose when it is handed the children's
/// statistics and the parent's number of simulations.
#[verifier::opaque]
pub open spec fn picked_child<F: Fn(&Vec<(i64, u64)>, u64) -> usize>(
    pick: F,
    m: Map<NodeId, TreeEntry>,
    opt_for: Turn,
    parent: NodeId,
    child: NodeId,
) -> bool {
    exists|stats: &Vec<(i64, u64)>, k: usize|
        #![trigger call_ensures(pick, (stats, m[parent].node.playouts), k)]
        {
            &&& stats@ == child_stats(m, parent, opt_for)
            &&& k < m[parent].children.len()
            &&& m[parent].children[k as int] == child
            &&& call_ensures(pick, (stats, m[parent].node.playouts), k)
        }
}

/// Every step on the way from the root down to `id` went to a child that `pick` chose.
#[verifier::opaque]
pub open spec fn picked_path<F: Fn(&Vec<(i64, u64)>, u64) -> usize>(
    pick: F,
    m: Map<NodeId, TreeEntry>,
    opt_for: Turn,
    id: NodeId,
) -> bool {
    forall|k: int|
        0 <= k < m[id].ancestors.len() ==> picked_child(
            pick,
            m,
            opt_for,
            #[trigger] m[id].ancestors[k],
            if k == 0 { id } else { m[id].ancestors[k - 1] },
        )
}

/// A step from a node reached through `pick`'s choices to a child that `pick` chose
/// reaches the child through `pick`'s choices.
proof fn lemma_picked_path_step<F: Fn(&Vec<(i64, u64)>, u64) -> usize>(
    pick: F,
    m: Map<NodeId, TreeEntry>,
    opt_for: Turn,
    current: NodeId,
    next: NodeId,
)
    requires
        picked_path(pick, m, opt_for, current),
        picked_child(pick, m, opt_for, current, next),
        m[next].ancestors == seq![current] + m[current].ancestors,
    ensures
        picked_path(pick, m, opt_for, next),
{
    reveal(picked_path);
    let a0 = m[next].ancestors;
    assert forall|j: int| 0 <= j < a0.len() implies picked_child(
        pick,
        m,
        opt_for,
        #[trigger] a0[j],
        if j == 0 { next } else { a0[j - 1] },
    ) by {
        if j > 0 {
            assert(a0[j] == m[current].ancestors[j - 1]);
            if j > 1 {
                assert(a0[j - 1] == m[current].ancestors[j - 2]);
            }
        }
    }
}

/// The child at index `k` is one that `pick` chose, when `pick` returned `k` for the
/// children's statistics.
proof fn lemma_picked_child<F: Fn(&Vec<(i64, u64)>, u64) -> usize>(
    pick: F,
    m: Map<NodeId, TreeEntry>,
    opt_for: Turn,
    parent: NodeId,
    stats: &Vec<(i64, u64)>,
    k: usize,
)
    requires
        stats@ == child_stats(m, parent, opt_for),
        k < m[parent].children.len(),
        call_ensures(pick, (stats, m[parent].node.playouts), k),
    ensures
        picked_child(pick, m, opt_for, parent, m[parent].children[k as int]),
{
    reveal(picked_child);
}

/// The root is reached through `pick`'s choices, by no step at all.
proof fn lemma_picked_path_root<F: Fn(&Vec<(i64, u64)>, u64) -> usize>(
    pick: F,
    m: Map<NodeId, TreeEntry>,
    opt_for: Turn,
    root: NodeId,
)
    requires
        m[root].ancestors.len() == 0,
    ensures
        picked_path(pick, m, opt_for, root),
{
    reveal(picked_path);
}

/// The node that selection may reach: it stops selection, every node above it does not,
/// each step down went to a child that `pick` chose, and when the root stops selection
/// it is the root.
pub open spec fn selected<F: Fn(&Vec<(i64, u64)>, u64) -> usize>(
    pick: F,
    m: Map<NodeId, TreeEntry>,
    g: GameModel,
    root: NodeId,
    opt_for: Turn,
    id: NodeId,
) -> bool {
    &&& m.contains_key(id)
    &&& stops_selection(m, g, id)
    &&& stops_selection(m, g, root) ==> id == root
    &&& forall|k: int| 0 <= k < m[id].ancestors.len() ==> !stops_selection(m, g, #[trigger] m[id].ancestors[k])
    &&& picked_path(pick, m, opt_for, id)
}

/// The tree `m2` after `s` was expanded in `m` (games played from `g`): when no legal
/// move of the game at `s` is left without a child, or that game is over, `e` is `s` and
/// nothing changes; else `e` is a new last child of `s` for one of those moves.
pub open spec fn expanded(m: Map<NodeId, TreeEntry>, g: GameModel, s: NodeId, e: NodeId, m2: Map<NodeId, TreeEntry>) -> bool {
    let st = state_at(g, m, s);
    let avail = remaining_moves(offered_moves(st), child_plays(m, s));
    &&& (e == s) <==> (avail.len() == 0 || board_value(st.board) != Value::Undecided)
    &&& e == s ==> m2 == m
    &&& e != s ==> {
        let play = m2[e].node.play;
        &&& !m.contains_key(e)
        &&& avail.contains(play)
        &&& m2 == appended(
            m,
            s,
            e,
            NodeModel {
                play,
                playouts: 0,
                score: 0,
                child_count: offered_moves(st.after_play(play)).len() as usize,
                turn: opponent(m[s].node.turn),
            },
        )
    }
}

/// `v` is the result, for `opt_for`, of some playout from `g`.
pub open spec fn playout_result(g: GameModel, v: i64, opt_for: Turn) -> bool {
    exists|rest: Seq<Seq<usize>>| #[trigger] is_playout(g, rest) && v == result_value(board_value(replay(g, rest).board), opt_for)
}

/// The tree after the result `v` of a simulation through `e` was counted at `e` and at
/// each of its ancestors, up to the root.
pub open spec fn with_path_result(m: Map<NodeId, TreeEntry>, e: NodeId, v: i64) -> Map<NodeId, TreeEntry> {
    Map::new(
        |id: NodeId| m.contains_key(id),
        |id: NodeId|
            if id == e || m[e].ancestors.contains(id) {
                TreeEntry { node: with_result(m[id].node, v), ..m[id] }
            } else {
                m[id]
            },
    )
}

/// Recording a simulation's result at a node and then propagating it to the node's
/// ancestors counts it once at every node on the path from the node up to the root,
/// and nowhere else.
pub proof fn law_simulate_then_backpropogate(
    m2: Map<NodeId, TreeEntry>,
    m3: Map<NodeId, TreeEntry>,
    m4: Map<NodeId, TreeEntry>,
    e: NodeId,
    v: i64,
)
    requires
        m2.contains_key(e),
        !m2[e].ancestors.contains(e),
        m3 == m2.insert(e, TreeEntry { node: with_result(m2[e].node, v), ..m2[e] }),
        m4.dom() == m3.dom(),
        forall|id: NodeId| #[trigger] m3.contains_key(id) ==> m4[id] == if m3[e].ancestors.contains(id) {
            TreeEntry { node: with_result(m3[id].node, v), ..m3[id] }
        } else {
            m3[id]
        },
    ensures
        m4 == with_path_result(m2, e, v),
{
    assert(m3.dom() =~= m2.dom());
    assert forall|id: NodeId| #[trigger] m2.contains_key(id) implies m4[id] == with_path_result(m2, e, v)[id] by {
        assert(m3.contains_key(id));
    }
    assert(m4 =~= with_path_result(m2, e, v));
}

/// The search for a computer move: a game, the tree of explored moves, and the number
/// of simulations run.
#[derive(Debug)]
pub struct MonteCarloManager {
    /// The game that is being evaluated
    pub g: Game,
    /// The game tree
    pub tree: Tree<MonteCarloNode>,
    /// The number of simulations that have been run
    pub sims: usize,
}

impl MonteCarloManager {
    /// The nodes of the tree.
    pub open spec fn nodes(&self) -> Map<NodeId, TreeEntry> {
        tree_model(self.tree)
    }

    /// The root of the tree.
    pub open spec fn root(&self) -> NodeId {
        tree_root(self.tree)
    }

    /// The game is sound, the tree stands for games reached from it by legal moves, the
    /// children of a node stand for distinct moves, and the root expects a child for each
    /// legal move of the game.
    pub open spec fn inv(&self) -> bool {
        &&& game_ok(self.g@)
        &&& tree_ok(self.nodes(), self.root(), self.g@)
        &&& children_distinct(self.nodes())
        &&& self.nodes()[self.root()].node.child_count == offered_moves(self.g@).len()
    }

    /// Constructor function
    pub fn new(g: Game, t: Turn) -> (r: MonteCarloManager)
        requires
            game_ok(g@),
        ensures
            r.inv(),
            r.g@ == g@,
            r.sims == 0,
            r.nodes() == map![r.root() => TreeEntry {
                ancestors: Seq::empty(),
                children: Seq::empty(),
                node: NodeModel {
                    play: Seq::empty(),
                    playouts: 0,
                    score: 0,
                    child_count: offered_moves(g@).len() as usize,
                    turn: opponent(t),
                },
            }],
    {
        proof { lemma_legal_lookup(g@); }
        let moves_count = g.legal_moves().len();
        let root = MonteCarloNode::new(Vec::new(), moves_count, t.not());
        let tree = tree_new(root);
        let r = MonteCarloManager { g, tree, sims: 0 };
        proof {
            let m = r.nodes();
            let rt = r.root();
            assert(node_path(m, rt) =~= Seq::<NodeId>::empty());
            assert(node_plays(m, rt) =~= Seq::<Seq<usize>>::empty());
            assert forall|id: NodeId| #[trigger] m.contains_key(id) implies {
                &&& m[id].ancestors.no_duplicates()
                &&& !m[id].ancestors.contains(id)
                &&& forall|k: int| 0 <= k < m[id].ancestors.len() ==> m.contains_key(#[trigger] m[id].ancestors[k])
                &&& forall|k: int| 0 <= k < m[id].children.len() ==> {
                    &&& m.contains_key(#[trigger] m[id].children[k])
                    &&& m[m[id].children[k]].ancestors == seq![id] + m[id].ancestors
                }
                &&& valid_plays(r.g@, node_plays(m, id))
            } by {
                assert(id == rt);
            }
        }
        r
    }

    /// Plays, in the game, the moves that lead from the root down to the node `id`.
    fn play_path(&mut self, id: NodeId)
        requires
            old(self).inv(),
            old(self).nodes().contains_key(id),
        ensures
            final(self).g@ == state_at(old(self).g@, old(self).nodes(), id),
            final(self).g@.moves.len() == old(self).g@.moves.len() + node_plays(old(self).nodes(), id).len(),
            final(self).tree == old(self).tree,
            final(self).sims == old(self).sims,
    {
        let ghost g0 = self.g@;
        let ghost m = self.nodes();
        let ghost plays = node_plays(m, id);
        let anc = tree_ancestors(&self.tree, id);
        let n = anc.len();
        if n > 0 {
            proof {
                assert(plays.len() == n);
            }
            for t in 0..n - 1
                invariant
                    self.tree == old(self).tree,
                    self.sims == old(self).sims,
                    m == self.nodes(),
                    g0 == old(self).g@,
                    game_ok(g0),
                    valid_plays(g0, plays),
                    plays == node_plays(m, id),
                    anc@ == m[id].ancestors,
                    n == anc@.len(),
                    n > 0,
                    plays.len() == n,
                    tree_ok(m, tree_root(self.tree), g0),
                    m.contains_key(id),
                    self.g@ == replay(g0, plays.take(t as int)),
                    self.g@.moves.len() == g0.moves.len() + t,
            {
                proof {
                    lemma_replay(g0, plays, t as int);
                    assert(node_path(m, id)[t as int] == anc@[n - 2 - t]);
                }
                let node = anc[n - 2 - t];
                let r = self.g.play(tree_value(&self.tree, node).play.as_slice());
            }
            proof {
                lemma_replay(g0, plays, n - 1);
                assert(node_path(m, id)[n - 1] == id);
            }
            let r = self.g.play(tree_value(&self.tree, id).play.as_slice());
            proof {
                assert(plays.take(n as int) =~= plays);
            }
        } else {
            proof {
                assert(plays =~= Seq::<Seq<usize>>::empty());
                assert(state_at(g0, m, id) == g0);
            }
        }
    }

    /// Takes back moves until the game is `g0` again, where the game now is `g0` after
    /// `plays`.
    fn unwind(&mut self, base: usize, Ghost(g0): Ghost<GameModel>, Ghost(plays): Ghost<Seq<Seq<usize>>>)
        requires
            base == g0.moves.len(),
            game_ok(g0),
            valid_plays(g0, plays),
            old(self).g@ == replay(g0, plays),
            old(self).g@.moves.len() == g0.moves.len() + plays.len(),
        ensures
            final(self).g@ == g0,
            final(self).tree == old(self).tree,
            final(self).sims == old(self).sims,
    {
        assert(plays.take(plays.len() as int) =~= plays);
        let ghost mut k: int = plays.len() as int;
        while self.g.moves.len() > base
            invariant
                self.tree == old(self).tree,
                self.sims == old(self).sims,
                game_ok(g0),
                valid_plays(g0, plays),
                0 <= k <= plays.len(),
                base == g0.moves.len(),
                self.g@ == replay(g0, plays.take(k)),
                self.g@.moves.len() == g0.moves.len() + k,
            decreases self.g.moves.len(),
        {
            proof {
                lemma_replay(g0, plays, k - 1);
            }
            let r = self.g.unplay();
            proof {
                k = k - 1;
            }
        }
        proof {
            assert(k == 0);
            assert(plays.take(0) =~= Seq::<Seq<usize>>::empty());
        }
    }

    /// Propagates the value up the tree: every ancestor of the node counts one more
    /// simulation and adds `val` to its score (both held at their type's bounds).
    pub fn backpropogate(&mut self, node_id: NodeId, val: i64)
        requires
            old(self).inv(),
            old(self).nodes().contains_key(node_id),
        ensures
            final(self).inv(),
            final(self).g@ == old(self).g@,
            final(self).sims == old(self).sims,
            final(self).root() == old(self).root(),
            final(self).nodes().dom() == old(self).nodes().dom(),
            forall|id: NodeId| #[trigger] old(self).nodes().contains_key(id) ==> final(self).nodes()[id] == if old(
                self,
            ).nodes()[node_id].ancestors.contains(id) {
                TreeEntry { node: with_result(old(self).nodes()[id].node, val), ..old(self).nodes()[id] }
            } else {
                old(self).nodes()[id]
            },
    {
        let ghost m0 = self.nodes();
        let anc = tree_ancestors(&self.tree, node_id);
        let n = anc.len();
        for t in 0..n
            invariant
                self.g@ == old(self).g@,
                self.sims == old(self).sims,
                m0 == old(self).nodes(),
                old(self).inv(),
                m0.contains_key(node_id),
                anc@ == m0[node_id].ancestors,
                n == anc@.len(),
                tree_root(self.tree) == old(self).root(),
                self.nodes().dom() == m0.dom(),
                forall|id: NodeId| #[trigger] m0.contains_key(id) ==> self.nodes()[id] == if anc@.subrange(
                    n - t,
                    n as int,
                ).contains(id) {
                    TreeEntry { node: with_result(m0[id].node, val), ..m0[id] }
                } else {
                    m0[id]
                },
        {
            let a = anc[n - 1 - t];
            proof {
                assert(m0.contains_key(a));
                assert(!anc@.subrange(n - t, n as int).contains(a)) by {
                    if anc@.subrange(n - t, n as int).contains(a) {
                        let sub = anc@.subrange(n - t, n as int);
                        let j = choose|j: int| 0 <= j < sub.len() && #[trigger] sub[j] == a;
                        assert(anc@[n - t + j] == anc@[n - 1 - t]);
                    }
                }
            }
            let mut v = tree_value(&self.tree, a).copy();
            v.playouts = v.playouts.saturating_add(1);
            v.score = add_held_exec(v.score, val);
            tree_set_value(&mut self.tree, a, v);
            proof {
                assert forall|id: NodeId| #[trigger] m0.contains_key(id) implies self.nodes()[id] == if anc@.subrange(
                    n - (t + 1),
                    n as int,
                ).contains(id) {
                    TreeEntry { node: with_result(m0[id].node, val), ..m0[id] }
                } else {
                    m0[id]
                } by {
                    let s1 = anc@.subrange(n - (t + 1), n as int);
                    let s0 = anc@.subrange(n - t, n as int);
                    if id == a {
                        assert(s1[0] == a);
                    } else {
                        if s1.contains(id) {
                            let j = choose|j: int| 0 <= j < s1.len() && #[trigger] s1[j] == id;
                            assert(s0[j - 1] == id);
                        }
                        if s0.contains(id) {
                            let j = choose|j: int| 0 <= j < s0.len() && #[trigger] s0[j] == id;
                            assert(s1[j + 1] == id);
                        }
                    }
                }
            }
        }
        proof {
            assert(anc@.subrange(0, n as int) =~= anc@);
            lemma_tree_ok_same_shape(m0, self.nodes(), self.root(), self.g@);
        }
    }

    /// The search's judgement so far: the simulations run and the root's score seen from
    /// `t`.
    pub fn thoughts(&self, t: Turn) -> (r: Thoughts)
        requires
            self.inv(),
        ensures
            r.sims == self.sims,
            r.score == relative_score(self.nodes()[self.root()].node, t),
    {
        let root = tree_root_id(&self.tree);
        Thoughts { sims: self.sims, score: tree_value(&self.tree, root).score(t) }
    }

    /// Picks a random move among those that `legal_moves` offers.
    fn random_legal_move(&self) -> (r: Option<Vec<usize>>)
        requires
            game_ok(self.g@),
        ensures
            r is None <==> offered_moves(self.g@).len() == 0,
            r matches Some(v) ==> offered_moves(self.g@).contains(v@),
    {
        proof { lemma_legal_lookup(self.g@); }
        let moves = self.g.legal_moves();
        let ghost mv = moves@;
        let r = random_choice(moves);
        proof {
            if r is Some {
                let v = r->Some_0;
                let i = choose|i: int| 0 <= i < mv.len() && mv[i] == v;
                lemma_deep_view_positions(v);
                assert(offered_moves(self.g@)[i] == v@);
            }
        }
        r
    }

    /// Return the best move based on the selected policy: the most simulated child of the
    /// root (Robust) or the best scored one (Maximum); a random legal move when the policy
    /// picks no child.
    pub fn best(&self, policy: MonteCarloPolicy, opt_for: Turn) -> (r: Option<Vec<usize>>)
        requires
            self.inv(),
            policy == MonteCarloPolicy::Robust || policy == MonteCarloPolicy::Maximum,
        ensures
            match best_pick(self.nodes(), self.root(), policy, opt_for) {
                Some(id) => r matches Some(v) && v@ == self.nodes()[id].node.play,
                None => {
                    &&& r is None <==> offered_moves(self.g@).len() == 0
                    &&& r matches Some(v) ==> offered_moves(self.g@).contains(v@)
                },
            },
            policy == MonteCarloPolicy::Maximum && self.nodes()[self.root()].children.len() > 0 ==> ({
                let m = self.nodes();
                let cs = m[self.root()].children;
                exists|i: int|
                    0 <= i < cs.len() && (r matches Some(v) && v@ == m[#[trigger] cs[i]].node.play) && forall|j: int|
                        0 <= j < cs.len() ==> relative_score(m[#[trigger] cs[j]].node, opt_for) <= relative_score(
                            m[cs[i]].node,
                            opt_for,
                        )
            }),
    {
        let ghost m = self.nodes();
        let root = tree_root_id(&self.tree);
        let cs = tree_children(&self.tree, root);
        let n = cs.len();
        let mut best_id: Option<NodeId> = None;
        match policy {
            MonteCarloPolicy::Robust => {
                let mut best_score: u64 = 0;
                for i in 0..n
                    invariant
                        self.inv(),
                        m == self.nodes(),
                        root == self.root(),
                        cs@ == m[root].children,
                        n == cs@.len(),
                        (best_score, best_id) == robust_pick(m, cs@, i as nat),
                {
                    proof { assert(m.contains_key(cs@[i as int])); }
                    let p = tree_value(&self.tree, cs[i]).playouts;
                    if p > best_score {
                        best_score = p;
                        best_id = Some(cs[i]);
                    }
                }
            },
            _ => {
                let mut best_score: i64 = 0;
                for i in 0..n
                    invariant
                        self.inv(),
                        m == self.nodes(),
                        root == self.root(),
                        cs@ == m[root].children,
                        n == cs@.len(),
                        (best_score, best_id) == maximum_pick(m, cs@, i as nat, opt_for),
                {
                    proof { assert(m.contains_key(cs@[i as int])); }
                    let sc = tree_value(&self.tree, cs[i]).score(opt_for);
                    if best_id.is_none() || sc >= best_score {
                        best_score = sc;
                        best_id = Some(cs[i]);
                    }
                }
            },
        }
        match best_id {
            Some(id) => {
                proof {
                    if policy == MonteCarloPolicy::Robust {
                        lemma_pick_in(m, cs@, cs@.len(), true, opt_for);
                    } else {
                        lemma_pick_in(m, cs@, cs@.len(), false, opt_for);
                        lemma_maximum_pick(m, cs@, cs@.len(), opt_for);
                    }
                }
                Some(vstd::slice::slice_to_vec(tree_value(&self.tree, id).play.as_slice()))
            },
            None => {
                proof {
                    if policy == MonteCarloPolicy::Maximum && n > 0 {
                        lemma_maximum_pick(m, cs@, cs@.len(), opt_for);
                    }
                }
                self.random_legal_move()
            },
        }
    }

    /// Runs a playout on the selected node: from the node's game, random legal moves are
    /// played until the game is over; the node counts one more simulation and adds the
    /// result for `opt_for` (1 win, 0 draw, -1 loss) to its score. The game is restored.
    pub fn simulate(&mut self, node_id: NodeId, opt_for: Turn) -> (r: (NodeId, i64))
        requires
            old(self).inv(),
            old(self).nodes().contains_key(node_id),
            node_id != old(self).root(),
        ensures
            final(self).inv(),
            final(self).g@ == old(self).g@,
            final(self).sims == old(self).sims,
            final(self).root() == old(self).root(),
            r.0 == node_id,
            r.1 == 1 || r.1 == 0 || r.1 == -1,
            playout_result(state_at(old(self).g@, old(self).nodes(), node_id), r.1, opt_for),
            final(self).nodes() == old(self).nodes().insert(
                node_id,
                TreeEntry { node: with_result(old(self).nodes()[node_id].node, r.1), ..old(self).nodes()[node_id] },
            ),
    {
        let ghost g0 = self.g@;
        let ghost m = self.nodes();
        let base = self.g.moves.len();
        self.play_path(node_id);
        let ghost mut plays = node_plays(m, node_id);
        proof {
            lemma_replay(g0, plays, plays.len() as int);
            assert(plays.take(plays.len() as int) =~= plays);
        }
        let ghost st = self.g@;
        let ghost mut rest: Seq<Seq<usize>> = Seq::empty();
        proof {
            assert(replay(st, rest) == st);
        }
        while self.g.board.check() == Value::Undecided
            invariant
                self.tree == old(self).tree,
                self.sims == old(self).sims,
                g0 == old(self).g@,
                game_ok(g0),
                valid_plays(g0, plays),
                self.g@ == replay(g0, plays),
                game_ok(self.g@),
                self.g@.moves.len() == base + plays.len(),
                base == g0.moves.len(),
                valid_plays(st, rest),
                self.g@ == replay(st, rest),
                forall|k: int| 0 <= k < rest.len() ==> board_value(#[trigger] replay(st, rest.take(k)).board) == Value::Undecided,
            decreases board_empties(self.g@.board, 9),
        {
            proof {
                law_open_game_offers_moves(self.g@);
            }
            let mv = self.random_legal_move();
            let v = mv.unwrap();
            proof {
                lemma_valid_push(g0, plays, v@);
                lemma_replay(g0, plays.push(v@), plays.len() as int);
                lemma_take_push_moves(plays, v@, plays.len() as int);
                assert(plays.take(plays.len() as int) =~= plays);
                assert(plays.push(v@).take(plays.len() + 1int) =~= plays.push(v@));
                lemma_valid_push(st, rest, v@);
                assert(rest.push(v@).drop_last() =~= rest);
                assert forall|k: int| 0 <= k < rest.len() + 1 implies board_value(
                    #[trigger] replay(st, rest.push(v@).take(k)).board,
                ) == Value::Undecided by {
                    if k < rest.len() {
                        lemma_take_push_moves(rest, v@, k);
                    } else {
                        assert(rest.push(v@).take(k) =~= rest);
                    }
                }
            }
            let res = self.g.play(v.as_slice());
            proof {
                plays = plays.push(v@);
                rest = rest.push(v@);
            }
        }
        let outcome = self.g.board.check();
        let val = playout_value(outcome, opt_for);
        proof {
            assert(is_playout(st, rest));
        }
        self.unwind(base, Ghost(g0), Ghost(plays));
        let mut node = tree_value(&self.tree, node_id).copy();
        node.playouts = node.playouts.saturating_add(1);
        node.score = add_held_exec(node.score, val);
        tree_set_value(&mut self.tree, node_id, node);
        proof {
            assert(self.nodes().dom() =~= m.dom());
            lemma_tree_ok_same_shape(m, self.nodes(), self.root(), self.g@);
        }
        (node_id, val)
    }

    /// Whether the move is that of one of the nodes `cs`.
    fn is_child_play(&self, cs: &Vec<NodeId>, mv: &Vec<usize>) -> (b: bool)
        requires
            forall|k: int| 0 <= k < cs@.len() ==> self.nodes().contains_key(#[trigger] cs@[k]),
        ensures
            b == cs@.map_values(|c: NodeId| self.nodes()[c].node.play).contains(mv@),
    {
        let ghost plays = cs@.map_values(|c: NodeId| self.nodes()[c].node.play);
        let n = cs.len();
        for i in 0..n
            invariant
                n == cs@.len(),
                plays == cs@.map_values(|c: NodeId| self.nodes()[c].node.play),
                forall|k: int| 0 <= k < cs@.len() ==> self.nodes().contains_key(#[trigger] cs@[k]),
                forall|k: int| 0 <= k < i ==> plays[k] != mv@,
        {
            if same_play(&tree_value(&self.tree, cs[i]).play, mv) {
                assert(plays[i as int] == mv@);
                return true;
            }
        }
        false
    }

    /// Adds a child node (where applicable) to the selected node: a random legal move of
    /// the node's game that no child has yet. The node itself is returned when there is no
    /// such move or its game is over. The game is restored.
    pub fn expand(&mut self, node_id: NodeId) -> (r: NodeId)
        requires
            old(self).inv(),
            old(self).nodes().contains_key(node_id),
        ensures
            final(self).inv(),
            final(self).g@ == old(self).g@,
            final(self).sims == old(self).sims,
            final(self).root() == old(self).root(),
            expanded(old(self).nodes(), old(self).g@, node_id, r, final(self).nodes()),
    {
        let ghost g0 = self.g@;
        let ghost m = self.nodes();
        let base = self.g.moves.len();
        self.play_path(node_id);
        let ghost plays = node_plays(m, node_id);
        let ghost st = state_at(g0, m, node_id);
        proof {
            lemma_replay(g0, plays, plays.len() as int);
            assert(plays.take(plays.len() as int) =~= plays);
            lemma_legal_lookup(self.g@);
        }
        let moves = self.g.legal_moves();
        let cs = tree_children(&self.tree, node_id);
        let ghost taken = child_plays(m, node_id);
        proof {
            assert forall|k: int| 0 <= k < cs@.len() implies self.nodes().contains_key(#[trigger] cs@[k]) by {
                assert(m.contains_key(m[node_id].children[k]));
            }
            assert(cs@.map_values(|c: NodeId| self.nodes()[c].node.play) =~= taken);
        }
        let mut avail: Vec<Vec<usize>> = Vec::new();
        let n = moves.len();
        for i in 0..n
            invariant
                self.tree == old(self).tree,
                m == self.nodes(),
                n == moves@.len(),
                moves.deep_view() == offered_moves(st),
                cs@ == m[node_id].children,
                taken == cs@.map_values(|c: NodeId| self.nodes()[c].node.play),
                forall|k: int| 0 <= k < cs@.len() ==> self.nodes().contains_key(#[trigger] cs@[k]),
                avail.deep_view() == remaining_moves(moves.deep_view().take(i as int), taken),
        {
            proof {
                lemma_deep_view_positions(moves@[i as int]);
                assert(moves.deep_view().take(i + 1).drop_last() =~= moves.deep_view().take(i as int));
            }
            if !self.is_child_play(&cs, &moves[i]) {
                let ghost before = avail.deep_view();
                let c = vstd::slice::slice_to_vec(moves[i].as_slice());
                avail.push(c);
                proof {
                    lemma_deep_view_positions(c);
                    assert(avail.deep_view() =~= before.push(c@));
                }
            }
        }
        proof {
            assert(moves.deep_view().take(n as int) =~= moves.deep_view());
            lemma_remaining_in(offered_moves(st), taken);
        }
        if avail.len() == 0 || self.g.board.check() != Value::Undecided {
            self.unwind(base, Ghost(g0), Ghost(plays));
            return node_id;
        }
        let ghost av = avail@;
        let ghost avd = avail.deep_view();
        let play = random_choice(avail).unwrap();
        proof {
            let i = choose|i: int| 0 <= i < av.len() && av[i] == play;
            lemma_deep_view_positions(play);
            assert(avd[i] == play@);
            assert(remaining_moves(offered_moves(st), taken).contains(play@));
            assert(offered_moves(st).contains(play@));
            lemma_valid_push(g0, plays, play@);
            lemma_replay(g0, plays.push(play@), plays.len() as int);
            lemma_take_push_moves(plays, play@, plays.len() as int);
            assert(plays.push(play@).take(plays.len() + 1int) =~= plays.push(play@));
        }
        let res = self.g.play(play.as_slice());
        proof {
            lemma_legal_lookup(self.g@);
        }
        let moves_count = self.g.legal_moves().len();
        self.unwind(base, Ghost(g0), Ghost(plays.push(play@)));
        let new_turn = tree_value(&self.tree, node_id).turn.not();
        let ghost play_model = play@;
        let node = MonteCarloNode { play, playouts: 0, score: 0, child_count: moves_count, turn: new_turn };
        let out = tree_append(&mut self.tree, node_id, node);
        proof {
            lemma_append_ok(m, self.root(), g0, node_id, out, node@);
            assert(!child_plays(m, node_id).contains(play_model));
        }
        out
    }

    /// The statistics of the children `cs` of `id`, as `pick` is handed them.
    fn children_stats(&self, cs: &Vec<NodeId>, id: NodeId, opt_for: Turn) -> (stats: Vec<(i64, u64)>)
        requires
            self.nodes().contains_key(id),
            cs@ == self.nodes()[id].children,
            forall|k: int| 0 <= k < cs@.len() ==> self.nodes().contains_key(#[trigger] cs@[k]),
        ensures
            stats@ == child_stats(self.nodes(), id, opt_for),
    {
        let ghost m = self.nodes();
        let n = cs.len();
        let mut stats: Vec<(i64, u64)> = Vec::new();
        for i in 0..n
            invariant
                n == cs@.len(),
                cs@ == m[id].children,
                m == self.nodes(),
                forall|k: int| 0 <= k < cs@.len() ==> m.contains_key(#[trigger] cs@[k]),
                m.contains_key(id),
                stats@ == child_stats(m, id, opt_for).take(i as int),
        {
            proof { assert(m.contains_key(cs@[i as int])); }
            let v = tree_value(&self.tree, cs[i]);
            stats.push((v.score(opt_for), v.playouts));
            proof {
                assert(stats@ =~= child_stats(m, id, opt_for).take(i + 1));
            }
        }
        proof {
            assert(stats@ =~= child_stats(m, id, opt_for));
        }
        stats
    }

    /// Selects the node to expand next. Starting at the root, while the current node has a
    /// child for every legal move of its game, expects children and its game is open, the
    /// search moves to the child that `pick` picks, given each child's score for
    /// `opt_for` and its simulations (in the children's order) and the current node's
    /// simulations. The game is restored.
    pub fn select<F: Fn(&Vec<(i64, u64)>, u64) -> usize>(&mut self, pick: &F, opt_for: Turn) -> (r: Option<NodeId>)
        requires
            old(self).inv(),
            forall|stats: &Vec<(i64, u64)>, p: u64| stats@.len() > 0 ==> call_requires(*pick, (stats, p)),
            forall|stats: &Vec<(i64, u64)>, p: u64, k: usize|
                stats@.len() > 0 && call_ensures(*pick, (stats, p), k) ==> k < stats@.len(),
        ensures
            final(self).inv(),
            final(self).g@ == old(self).g@,
            final(self).tree == old(self).tree,
            final(self).sims == old(self).sims,
            r matches Some(id) && selected(*pick, old(self).nodes(), old(self).g@, old(self).root(), opt_for, id),
    {
        let ghost g0 = self.g@;
        let ghost m = self.nodes();
        let root = tree_root_id(&self.tree);
        let base = self.g.moves.len();
        let mut current = root;
        let ghost mut plays: Seq<Seq<usize>> = Seq::empty();
        proof {
            assert(node_plays(m, root) =~= plays);
            assert(replay(g0, plays) == g0);
            lemma_picked_path_root(*pick, m, opt_for, root);
        }
        loop
            invariant
                self.tree == old(self).tree,
                self.sims == old(self).sims,
                m == self.nodes(),
                g0 == old(self).g@,
                old(self).inv(),
                root == self.root(),
                base == g0.moves.len(),
                m.contains_key(current),
                plays == node_plays(m, current),
                valid_plays(g0, plays),
                self.g@ == replay(g0, plays),
                game_ok(self.g@),
                self.g@.moves.len() == base + plays.len(),
                stops_selection(m, g0, root) ==> current == root,
                forall|k: int| 0 <= k < m[current].ancestors.len() ==> !stops_selection(m, g0, #[trigger] m[current].ancestors[k]),
                picked_path(*pick, m, opt_for, current),
                forall|stats: &Vec<(i64, u64)>, p: u64| stats@.len() > 0 ==> call_requires(*pick, (stats, p)),
                forall|stats: &Vec<(i64, u64)>, p: u64, k: usize|
                    stats@.len() > 0 && call_ensures(*pick, (stats, p), k) ==> k < stats@.len(),
            ensures
                stops_selection(m, g0, root) ==> current == root,
                forall|k: int| 0 <= k < m[current].ancestors.len() ==> !stops_selection(m, g0, #[trigger] m[current].ancestors[k]),
                picked_path(*pick, m, opt_for, current),
                m.contains_key(current),
                stops_selection(m, g0, current),
                valid_plays(g0, plays),
                self.g@ == replay(g0, plays),
                self.g@.moves.len() == base + plays.len(),
                self.tree == old(self).tree,
                self.sims == old(self).sims,
            decreases board_empties(self.g@.board, 9),
        {
            let cs = tree_children(&self.tree, current);
            proof { lemma_legal_lookup(self.g@); }
            let moves = self.g.legal_moves().len();
            if cs.len() < moves || tree_value(&self.tree, current).child_count == 0
                || self.g.board.check() != Value::Undecided {
                break;
            }
            proof {
                law_open_game_offers_moves(self.g@);
                assert forall|j: int| 0 <= j < cs@.len() implies m.contains_key(#[trigger] cs@[j]) by {
                    assert(m.contains_key(m[current].children[j]));
                }
            }
            let stats = self.children_stats(&cs, current, opt_for);
            let parent_playouts = tree_value(&self.tree, current).playouts;
            let k = pick(&stats, parent_playouts);
            let next = cs[k];
            proof {
                lemma_child_plays(m, root, g0, current, k as int);
                let p2 = node_plays(m, next);
                assert(p2 == plays.push(m[next].node.play));
                lemma_replay(g0, p2, plays.len() as int);
                lemma_take_push_moves(plays, m[next].node.play, plays.len() as int);
                assert(plays.take(plays.len() as int) =~= plays);
                assert(p2.take(plays.len() + 1int) =~= p2);
            }
            proof {
                lemma_picked_child(*pick, m, opt_for, current, &stats, k);
                assert(m.contains_key(m[current].children[k as int]));
                lemma_picked_path_step(*pick, m, opt_for, current, next);
            }
            proof {
                assert(!stops_selection(m, g0, current));
                let a = m[next].ancestors;
                assert(a == seq![current] + m[current].ancestors);
                assert forall|k: int| 0 <= k < a.len() implies !stops_selection(m, g0, #[trigger] a[k]) by {
                    if k > 0 {
                        assert(a[k] == m[current].ancestors[k - 1]);
                    }
                }
            }
            let res = self.g.play(tree_value(&self.tree, next).play.as_slice());
            current = next;
            proof {
                plays = node_plays(m, next);
            }
        }
        self.unwind(base, Ghost(g0), Ghost(plays));
        Some(current)
    }

    /// Runs one round of the search, as the search thread does between two looks at its
    /// messages: select a node, expand it, run a playout from the node obtained and
    /// propagate the result to its ancestors, then count the simulation. A round runs
    /// exactly when the game is still open; when it is over, the node obtained is the
    /// root, nothing is simulated and `false` is returned.
    pub fn search_step<F: Fn(&Vec<(i64, u64)>, u64) -> usize>(&mut self, pick: &F, opt_for: Turn) -> (r: bool)
        requires
            old(self).inv(),
            old(self).sims < usize::MAX,
            forall|stats: &Vec<(i64, u64)>, p: u64| stats@.len() > 0 ==> call_requires(*pick, (stats, p)),
            forall|stats: &Vec<(i64, u64)>, p: u64, k: usize|
                stats@.len() > 0 && call_ensures(*pick, (stats, p), k) ==> k < stats@.len(),
        ensures
            final(self).inv(),
            final(self).g@ == old(self).g@,
            final(self).root() == old(self).root(),
            old(self).nodes().dom().subset_of(final(self).nodes().dom()),
            r <==> board_value(old(self).g@.board) == Value::Undecided,
            r ==> final(self).sims == old(self).sims + 1,
            !r ==> final(self).sims == old(self).sims && final(self).nodes() == old(self).nodes(),
            r ==> exists|s: NodeId, e: NodeId, v: i64, m2: Map<NodeId, TreeEntry>|
                #![trigger expanded(old(self).nodes(), old(self).g@, s, e, m2), playout_result(state_at(old(self).g@, m2, e), v, opt_for)]
                {
                    &&& selected(*pick, old(self).nodes(), old(self).g@, old(self).root(), opt_for, s)
                    &&& expanded(old(self).nodes(), old(self).g@, s, e, m2)
                    &&& e != old(self).root()
                    &&& playout_result(state_at(old(self).g@, m2, e), v, opt_for)
                    &&& final(self).nodes() == with_path_result(m2, e, v)
                },
    {
        let ghost g = self.g@;
        let ghost m = self.nodes();
        let ghost root = self.root();
        proof {
            assert(node_path(m, root) =~= Seq::<NodeId>::empty());
            assert(node_plays(m, root) =~= Seq::<Seq<usize>>::empty());
            assert(state_at(g, m, root) == g);
            if board_value(g.board) == Value::Undecided {
                law_open_game_offers_moves(g);
            }
        }
        let x = self.select(pick, opt_for);
        let x = match x {
            Some(x) => x,
            None => {
                return false;
            },
        };
        let y = self.expand(x);
        proof {
            assert(self.nodes().contains_key(y));
            if board_value(g.board) != Value::Undecided {
                assert(x == root);
                assert(y == root);
            } else if x == root {
                let avail = remaining_moves(offered_moves(g), child_plays(m, root));
                assert(m[root].children.len() < offered_moves(g).len());
                if avail.len() == 0 {
                    lemma_remaining_empty(offered_moves(g), child_plays(m, root));
                    law_offered_moves_distinct(g);
                    assert(child_plays(m, root).no_duplicates());
                    lemma_covered_len(offered_moves(g), child_plays(m, root));
                }
                assert(y != root);
            } else {
                assert(y != root);
            }
        }
        if tree_ancestors(&self.tree, y).len() == 0 {
            return false;
        }
        let ghost m2 = self.nodes();
        let (z, val) = self.simulate(y, opt_for);
        let ghost m3 = self.nodes();
        self.backpropogate(z, val);
        proof {
            assert(m2.contains_key(y));
            law_simulate_then_backpropogate(m2, m3, self.nodes(), y, val);
            assert(selected(*pick, m, g, root, opt_for, x));
            assert(expanded(m, g, x, y, m2));
            assert(playout_result(state_at(g, m2, y), val, opt_for));
        }
        self.sims = self.sims + 1;
        true
    }
}

} // verus!
