//! Properties of the rules that span several operations.
use vstd::prelude::*;

use super::game::{
    completed_at, finished_on_path, legal_safe, next_legal, opponent, path_checks, starts_with,
    turn_mark, GameModel,
};
use super::model::{
    board_get, board_legal, board_of_depth, board_set, board_value, board_wf, cell_legal, cell_wf,
    cell_values, get_safe, lemma_get_prefix, lemma_get_push, lemma_get_set_ok, lemma_get_wf,
    lemma_set_get, lemma_set_same, lemma_set_set, model_value, set_ok, set_safe, CellModel,
};
use super::value::Value;

verus! {

/// Taking back a move restores the game exactly as it was before the move: the board,
/// the history, the legal region, the turn and the settings. Taking it back is always
/// possible right after the move was accepted.
pub proof fn law_unplay_undoes_play(g: GameModel, pos: Seq<usize>)
    requires
        g.wf(),
        g.play_safe(pos),
        g.play_result(pos) is Ok,
    ensures
        g.after_play(pos).moves.len() > 0,
        g.after_play(pos).unplay_safe(),
        g.after_play(pos).after_unplay() == g,
{
    let s = g.board;
    let c = turn_mark(g.turn);
    lemma_get_set_ok(s, pos);
    lemma_set_get(s, pos, c);
    let s2 = board_set(s, pos, c);
    lemma_get_set_ok(s2, pos);
    lemma_set_set(s, pos, c, CellModel::Empty);
    lemma_set_same(s, pos);
    let h = g.after_play(pos);
    assert(h.moves.last() == seq![pos, g.legal]);
    assert(h.moves.drop_last() =~= g.moves);
    assert(h.after_unplay() =~= g);
}

/// A freshly made board of any depth is well-formed and still open.
pub proof fn law_new_board_open(depth: nat)
    ensures
        board_wf(board_of_depth(depth)),
        board_value(board_of_depth(depth)) == Value::Undecided,
    decreases depth,
{
    super::model::lemma_depth_wf(depth);
    let s = board_of_depth(depth);
    if depth > 1 {
        law_new_board_open((depth - 1) as nat);
    }
    let v = cell_values(s);
    assert(v[0] == Value::Undecided);
    assert(v.contains(Value::Undecided));
}

/// The path leads to a board that is still open (and looking it up is safe).
pub open spec fn open_board_at(s: Seq<CellModel>, p: Seq<usize>) -> bool {
    &&& get_safe(s, p)
    &&& match board_get(s, p) {
        Some(CellModel::Board(b)) => board_value(b) == Value::Undecided,
        _ => false,
    }
}

/// Every proper prefix of `m` leads to an open board.
pub open spec fn open_path(s: Seq<CellModel>, m: Seq<usize>) -> bool {
    forall|k: int| 0 <= k < m.len() ==> #[trigger] open_board_at(s, m.take(k))
}

/// The legal region is sound: when the game is over it is empty, and otherwise it and
/// every board above it are open boards.
pub open spec fn legal_region_ok(s: Seq<CellModel>, l: Seq<usize>) -> bool {
    if board_value(s) != Value::Undecided {
        l.len() == 0
    } else {
        forall|k: int| 0 <= k <= l.len() ==> #[trigger] open_board_at(s, l.take(k))
    }
}

/// The moves that `legal_moves` offers in a game: the legal positions of the cell
/// named by the legal region.
pub open spec fn offered_moves(g: GameModel) -> Seq<Seq<usize>> {
    cell_legal(board_get(g.board, g.legal).unwrap(), g.legal)
}

proof fn lemma_take_push(p: Seq<usize>, j: usize, k: int)
    requires
        0 <= k <= p.len(),
    ensures
        p.push(j).take(k) == p.take(k),
{
    assert(p.push(j).take(k) =~= p.take(k));
}

/// Each legal position of a cell at an open path is an empty cell at the end of an open
/// path that goes through the cell.
proof fn lemma_cell_legal_open(s: Seq<CellModel>, p: Seq<usize>, c: CellModel, i: int)
    requires
        board_wf(s),
        get_safe(s, p),
        board_get(s, p) == Some(c),
        open_path(s, p),
        0 <= i < cell_legal(c, p).len(),
    ensures
        starts_with(cell_legal(c, p)[i], p),
        get_safe(s, cell_legal(c, p)[i]),
        board_get(s, cell_legal(c, p)[i]) == Some(CellModel::Empty),
        open_path(s, cell_legal(c, p)[i]),
    decreases c, 1nat,
{
    match c {
        CellModel::Empty => {
            assert(p.take(p.len() as int) =~= p);
        },
        CellModel::Board(t) => {
            if board_value(t) == Value::Undecided {
                assert(p.take(p.len() as int) =~= p);
                assert(open_board_at(s, p));
                lemma_board_legal_open(s, p, t, t.len(), i);
            }
        },
        _ => {},
    }
}

proof fn lemma_board_legal_open(s: Seq<CellModel>, p: Seq<usize>, t: Seq<CellModel>, n: nat, i: int)
    requires
        board_wf(s),
        get_safe(s, p),
        board_get(s, p) == Some(CellModel::Board(t)),
        open_path(s, p),
        open_board_at(s, p),
        0 <= i < board_legal(t, p, n).len(),
    ensures
        starts_with(board_legal(t, p, n)[i], p),
        get_safe(s, board_legal(t, p, n)[i]),
        board_get(s, board_legal(t, p, n)[i]) == Some(CellModel::Empty),
        open_path(s, board_legal(t, p, n)[i]),
    decreases t, n,
{
    if n > 0 && n <= t.len() {
        lemma_get_wf(s, p);
        let first = board_legal(t, p, (n - 1) as nat);
        let j = (n - 1) as usize;
        let q = p.push(j);
        if i < first.len() {
            lemma_board_legal_open(s, p, t, (n - 1) as nat, i);
        } else {
            lemma_get_push(s, p, t, j);
            assert forall|k: int| 0 <= k < q.len() implies #[trigger] open_board_at(s, q.take(k)) by {
                lemma_take_push(p, j, k);
                if k == p.len() {
                    assert(p.take(k) =~= p);
                }
            }
            assert(decreases_to!(t => t[n - 1]));
            lemma_cell_legal_open(s, q, t[n - 1], i - first.len());
            let m = board_legal(t, p, n)[i];
            assert(m == cell_legal(t[n - 1], q)[i - first.len()]);
            assert(m.take(p.len() as int) =~= q.take(q.len() as int).take(p.len() as int));
            assert(q.take(q.len() as int) =~= q);
            assert(q.take(p.len() as int) =~= p);
        }
    }
}

/// Every move that `legal_moves` offers is accepted by `play`: it lies within the legal
/// region, it names an empty cell, and every board above that cell is still open.
pub proof fn law_offered_moves_playable(g: GameModel, i: int)
    requires
        g.wf(),
        legal_region_ok(g.board, g.legal),
        0 <= i < offered_moves(g).len(),
    ensures
        g.play_safe(offered_moves(g)[i]),
        g.play_result(offered_moves(g)[i]) is Ok,
        open_path(g.board, offered_moves(g)[i]),
        board_get(g.board, offered_moves(g)[i]) == Some(CellModel::Empty),
{
    let s = g.board;
    let l = g.legal;
    if board_value(s) != Value::Undecided {
        assert(l =~= Seq::<usize>::empty());
        assert(offered_moves(g) =~= Seq::<Seq<usize>>::empty());
    } else {
        assert(l.take(l.len() as int) =~= l);
        assert(open_board_at(s, l));
        assert forall|k: int| 0 <= k < l.len() implies #[trigger] open_board_at(s, l.take(k)) by {
            assert(open_board_at(s, l.take(k)));
        }
        let c = board_get(s, l).unwrap();
        lemma_cell_legal_open(s, l, c, i);
        let m = offered_moves(g)[i];
        // The cell at `l` is a board, so the move goes at least one level below it.
        assert(m.len() > l.len()) by {
            if m.len() == l.len() {
                assert(m.take(l.len() as int) =~= m);
            }
        }
        assert forall|k: int| 0 <= k < path_checks(m) implies !#[trigger] completed_at(s, m.take(k)) by {
            assert(open_board_at(s, m.take(k)));
        }
    }
}

} // verus!

verus! {

/// The boards along a path after a write at its end: each is the old board with the
/// write applied below it.
proof fn lemma_set_prefix_board(s: Seq<CellModel>, m: Seq<usize>, c: CellModel, k: int)
    requires
        get_safe(s, m),
        board_get(s, m) is Some,
        0 <= k < m.len(),
    ensures
        board_get(s, m.take(k)) is Some,
        board_get(s, m.take(k)).unwrap() is Board,
        get_safe(board_set(s, m, c), m.take(k)),
        board_get(board_set(s, m, c), m.take(k)) == Some(CellModel::Board(
            board_set(board_get(s, m.take(k)).unwrap()->Board_0, m.skip(k), c),
        )),
    decreases k,
{
    lemma_get_prefix(s, m, k);
    if k == 0 {
        assert(m.take(0) =~= Seq::<usize>::empty());
        assert(m.skip(0) =~= m);
    } else {
        let t0 = s[m[0] as int]->Board_0;
        let rest = m.drop_first();
        assert(m.len() >= 2);
        lemma_set_prefix_board(t0, rest, c, k - 1);
        assert(rest.skip(k - 1) =~= m.skip(k));
        if k == 1 {
            assert(m.take(1) =~= seq![m[0]]);
            assert(rest.take(0) =~= Seq::<usize>::empty());
        } else {
            assert(m.take(k).drop_first() =~= rest.take(k - 1));
        }
    }
}

/// The values of the cells of a nine-cell board after one cell is replaced.
proof fn lemma_values_update(t: Seq<CellModel>, i: int, x: CellModel)
    requires
        t.len() == 9,
        0 <= i < 9,
    ensures
        cell_values(t.update(i, x)) == cell_values(t).update(i, model_value(x)),
{
    assert(cell_values(t.update(i, x)) =~= cell_values(t).update(i, model_value(x)));
}

/// If the board one level down the path keeps its value after a write at the end of the
/// path, so does every board above it.
proof fn lemma_values_kept_above(s: Seq<CellModel>, m: Seq<usize>, c: CellModel, j: int)
    requires
        board_wf(s),
        get_safe(s, m),
        board_get(s, m) is Some,
        0 <= j < m.len(),
        board_value(board_set(board_get(s, m.take(j)).unwrap()->Board_0, m.skip(j), c))
            == board_value(board_get(s, m.take(j)).unwrap()->Board_0),
    ensures
        forall|k: int| 0 <= k <= j ==> #[trigger] board_value(
            board_set(board_get(s, m.take(k)).unwrap()->Board_0, m.skip(k), c),
        ) == board_value(board_get(s, m.take(k)).unwrap()->Board_0),
    decreases j,
{
    if j > 0 {
        lemma_get_prefix(s, m, j - 1);
        lemma_get_prefix(s, m, j);
        let tp = board_get(s, m.take(j - 1)).unwrap()->Board_0;
        let tj = board_get(s, m.take(j)).unwrap()->Board_0;
        lemma_get_wf(s, m.take(j - 1));
        let i = m[j - 1];
        assert(m.take(j - 1).push(i) =~= m.take(j));
        lemma_get_push(s, m.take(j - 1), tp, i);
        assert(tp[i as int] == CellModel::Board(tj));
        let q = m.skip(j - 1);
        assert(q.len() >= 2);
        assert(q[0] == i);
        assert(q.drop_first() =~= m.skip(j));
        let newj = board_set(tj, m.skip(j), c);
        assert(board_set(tp, q, c) == tp.update(i as int, CellModel::Board(newj)));
        lemma_values_update(tp, i as int, CellModel::Board(newj));
        assert(cell_values(tp.update(i as int, CellModel::Board(newj))) =~= cell_values(tp));
        lemma_values_kept_above(s, m, c, j - 1);
    }
}

/// The legal region that follows an accepted move along an open path is sound again.
proof fn lemma_next_legal_region(s: Seq<CellModel>, m: Seq<usize>, c: CellModel, j: int)
    requires
        board_wf(s),
        m.len() >= 1,
        get_safe(s, m),
        board_get(s, m) == Some(CellModel::Empty),
        open_path(s, m),
        c == CellModel::Player1 || c == CellModel::Player2,
        1 <= j <= m.len(),
        j >= 2 || j == m.len(),
    ensures
        legal_region_ok(board_set(s, m, c), next_legal(board_set(s, m, c), m.take(j))),
    decreases j,
{
    let s2 = board_set(s, m, c);
    let pos = m.take(j);
    lemma_get_set_ok(s, m);
    lemma_set_get(s, m, c);
    super::model::lemma_set_wf(s, m, c);
    if board_value(s2) == Value::Undecided {
        let x = pos.last();
        let y = pos.drop_last();
        assert(y =~= m.take(j - 1));
        assert(x == m[j - 1]);
        assert(open_board_at(s2, Seq::<usize>::empty()));
        assert(Seq::<usize>::empty().take(0) =~= Seq::<usize>::empty());
        if j >= 3 && completed_at(s2, y) {
            lemma_next_legal_region(s, m, c, j - 1);
        } else if j == 1 {
            assert(pos =~= m);
            assert(s2[m[0] as int] == c);
            assert(pos.push(x).drop_first() =~= seq![x]);
            assert(board_get(s2, pos.push(x)) is None);
        } else {
            // The boards above the one that held the move are still open.
            lemma_set_prefix_board(s, m, c, j - 1);
            lemma_get_prefix(s, m, j - 1);
            assert(open_board_at(s, m.take(j - 1)));
            if j >= 3 {
                lemma_values_kept_above(s, m, c, j - 1);
            }
            assert forall|k: int| 0 <= k <= j - 2 implies #[trigger] open_board_at(s2, m.take(k)) by {
                lemma_set_prefix_board(s, m, c, k);
                assert(open_board_at(s, m.take(k)));
                if k == 0 {
                    assert(m.take(0) =~= Seq::<usize>::empty());
                }
            }
            let z = m.take(j - 2);
            assert(pos.take(pos.len() - 2) =~= z);
            lemma_set_prefix_board(s, m, c, j - 2);
            let tz = board_get(s2, z).unwrap()->Board_0;
            lemma_get_wf(s2, z);
            // The last index of the move is a cell index of a nine-cell board.
            lemma_get_prefix(s, m, j);
            lemma_get_prefix(s, pos, j - 1);
            assert(pos.take(j - 1) =~= y);
            let ty = board_get(s, y).unwrap()->Board_0;
            lemma_get_wf(s, y);
            assert(y.push(x) =~= pos);
            lemma_get_push(s, y, ty, x);
            lemma_get_push(s2, z, tz, x);
            let r = next_legal(s2, pos);
            assert forall|k: int| 0 <= k <= r.len() implies #[trigger] open_board_at(s2, r.take(k)) by {
                if r.len() > 0 {
                    if r =~= z {
                        assert(z.take(k) =~= m.take(k));
                    } else {
                        assert(r =~= z.push(x));
                        if k <= z.len() {
                            assert(z.push(x).take(k) =~= m.take(k));
                        } else {
                            assert(z.push(x).take(k) =~= z.push(x));
                        }
                    }
                } else {
                    assert(r.take(k) =~= Seq::<usize>::empty());
                }
            }
        }
    }
}

/// After a move along an open path (every move that `legal_moves` offers is one), the
/// legal region is sound again and the board stays well-formed.
pub proof fn law_play_keeps_legal_region(g: GameModel, pos: Seq<usize>)
    requires
        g.wf(),
        legal_region_ok(g.board, g.legal),
        open_path(g.board, pos),
        g.play_safe(pos),
        g.play_result(pos) is Ok,
    ensures
        g.after_play(pos).wf(),
        legal_region_ok(g.after_play(pos).board, g.after_play(pos).legal),
{
    let s = g.board;
    lemma_get_set_ok(s, pos);
    super::model::lemma_set_wf(s, pos, turn_mark(g.turn));
    assert(pos.take(pos.len() as int) =~= pos);
    lemma_next_legal_region(s, pos, turn_mark(g.turn), pos.len() as int);
}

} // verus!

verus! {

/// A new game's legal region (anywhere) is sound.
pub proof fn law_new_game_region(depth: nat)
    ensures
        legal_region_ok(board_of_depth(depth), Seq::empty()),
{
    law_new_board_open(depth);
    let s = board_of_depth(depth);
    assert forall|k: int| 0 <= k <= 0 implies #[trigger] open_board_at(s, Seq::<usize>::empty().take(k)) by {
        assert(Seq::<usize>::empty().take(k) =~= Seq::<usize>::empty());
    }
}

proof fn lemma_board_legal_len(t: Seq<CellModel>, p: Seq<usize>, n: nat, i: int)
    requires
        0 <= i < n <= t.len(),
        t.len() <= 9,
    ensures
        board_legal(t, p, n).len() >= cell_legal(t[i], p.push(i as usize)).len(),
    decreases n,
{
    if i < n - 1 {
        lemma_board_legal_len(t, p, (n - 1) as nat, i);
    }
}

proof fn lemma_open_cell_has_legal(c: CellModel, p: Seq<usize>)
    requires
        super::model::cell_wf(c),
        model_value(c) == Value::Undecided,
    ensures
        cell_legal(c, p).len() > 0,
    decreases c,
{
    if let CellModel::Board(t) = c {
        let v = cell_values(t);
        assert(v.contains(Value::Undecided));
        let i = choose|i: int| 0 <= i < v.len() && v[i] == Value::Undecided;
        super::model::lemma_wf_cell(t, i);
        assert(decreases_to!(c => t[i]));
        lemma_open_cell_has_legal(t[i], p.push(i as usize));
        lemma_board_legal_len(t, p, t.len(), i);
    }
}

/// While the game is open, `legal_moves` offers at least one move.
pub proof fn law_open_game_offers_moves(g: GameModel)
    requires
        g.wf(),
        legal_region_ok(g.board, g.legal),
        board_value(g.board) == Value::Undecided,
    ensures
        offered_moves(g).len() > 0,
{
    assert(g.legal.take(g.legal.len() as int) =~= g.legal);
    assert(open_board_at(g.board, g.legal));
    lemma_get_wf(g.board, g.legal);
    lemma_open_cell_has_legal(board_get(g.board, g.legal).unwrap(), g.legal);
}

/// The number of empty cells in a cell, nested boards included.
pub open spec fn cell_empties(c: CellModel) -> nat
    decreases c, 1nat,
{
    match c {
        CellModel::Empty => 1,
        CellModel::Board(s) => board_empties(s, s.len()),
        _ => 0,
    }
}

/// The number of empty cells in the first `n` cells of a board.
pub open spec fn board_empties(s: Seq<CellModel>, n: nat) -> nat
    decreases s, n,
{
    if n == 0 || n > s.len() {
        0
    } else {
        board_empties(s, (n - 1) as nat) + cell_empties(s[n - 1])
    }
}

proof fn lemma_empties_update(s: Seq<CellModel>, i: int, x: CellModel, n: nat)
    requires
        0 <= i < n <= s.len(),
    ensures
        board_empties(s.update(i, x), n) + cell_empties(s[i]) == board_empties(s, n) + cell_empties(x),
    decreases n,
{
    if i < n - 1 {
        lemma_empties_update(s, i, x, (n - 1) as nat);
        assert(s.update(i, x)[n - 1] == s[n - 1]);
    } else {
        lemma_empties_prefix(s, i, x, (n - 1) as nat);
    }
}

proof fn lemma_empties_prefix(s: Seq<CellModel>, i: int, x: CellModel, k: nat)
    requires
        0 <= i < s.len(),
        k <= i,
    ensures
        board_empties(s.update(i, x), k) == board_empties(s, k),
    decreases k,
{
    if k > 0 {
        lemma_empties_prefix(s, i, x, (k - 1) as nat);
    }
}

/// Marking an empty cell removes exactly one empty cell from the board.
proof fn lemma_empties_set(s: Seq<CellModel>, m: Seq<usize>, c: CellModel)
    requires
        get_safe(s, m),
        board_get(s, m) == Some(CellModel::Empty),
        m.len() > 0,
        c == CellModel::Player1 || c == CellModel::Player2,
    ensures
        board_empties(board_set(s, m, c), s.len()) + 1 == board_empties(s, s.len()),
        board_set(s, m, c).len() == s.len(),
    decreases m.len(),
{
    lemma_get_set_ok(s, m);
    lemma_set_get(s, m, c);
    let i = m[0] as int;
    if m.len() > 1 {
        let t = s[i]->Board_0;
        lemma_empties_set(t, m.drop_first(), c);
        lemma_empties_update(s, i, CellModel::Board(board_set(t, m.drop_first(), c)), s.len());
    } else {
        lemma_empties_update(s, i, c, s.len());
    }
}

/// Every accepted move fills exactly one empty cell, so no game lasts longer than the
/// number of cells of its board.
pub proof fn law_play_fills_one_cell(g: GameModel, pos: Seq<usize>)
    requires
        g.wf(),
        g.play_safe(pos),
        g.play_result(pos) is Ok,
    ensures
        board_empties(g.after_play(pos).board, 9) + 1 == board_empties(g.board, 9),
{
    lemma_get_set_ok(g.board, pos);
    lemma_set_get(g.board, pos, turn_mark(g.turn));
    lemma_empties_set(g.board, pos, turn_mark(g.turn));
}


/// The positions offered within a cell all lie inside it and none is offered twice.
proof fn lemma_cell_legal_distinct(c: CellModel, p: Seq<usize>)
    requires
        cell_wf(c),
    ensures
        cell_legal(c, p).no_duplicates(),
        forall|i: int| 0 <= i < cell_legal(c, p).len() ==> starts_with(#[trigger] cell_legal(c, p)[i], p),
    decreases c, 1nat,
{
    match c {
        CellModel::Board(t) => {
            if board_value(t) == Value::Undecided {
                lemma_board_legal_distinct(t, p, t.len());
            }
        },
        CellModel::Empty => {
            assert(p.take(p.len() as int) =~= p);
        },
        _ => {},
    }
}

/// The positions offered within the first `n` cells of a board lie in those cells, one
/// level below the board, and none is offered twice.
proof fn lemma_board_legal_distinct(t: Seq<CellModel>, p: Seq<usize>, n: nat)
    requires
        board_wf(t),
    ensures
        board_legal(t, p, n).no_duplicates(),
        forall|i: int| 0 <= i < board_legal(t, p, n).len() ==> {
            let x = #[trigger] board_legal(t, p, n)[i];
            &&& starts_with(x, p)
            &&& x.len() > p.len()
            &&& x[p.len() as int] < n
        },
    decreases t, n,
{
    if n > 0 && n <= t.len() {
        let first = board_legal(t, p, (n - 1) as nat);
        let q = p.push((n - 1) as usize);
        lemma_board_legal_distinct(t, p, (n - 1) as nat);
        super::model::lemma_wf_cell(t, n - 1);
        assert(decreases_to!(t => t[n - 1]));
        lemma_cell_legal_distinct(t[n - 1], q);
        let second = cell_legal(t[n - 1], q);
        let all = board_legal(t, p, n);
        assert(all == first + second);
        assert forall|i: int| 0 <= i < second.len() implies {
            let x = #[trigger] second[i];
            &&& starts_with(x, p)
            &&& x.len() > p.len()
            &&& x[p.len() as int] == n - 1
        } by {
            let x = second[i];
            assert(x.take(q.len() as int) == q);
            assert(x[p.len() as int] == x.take(q.len() as int)[p.len() as int]);
            assert(x.take(p.len() as int) =~= q.take(p.len() as int));
            assert(q.take(p.len() as int) =~= p);
        }
        assert forall|i: int| 0 <= i < all.len() implies {
            let x = #[trigger] all[i];
            &&& starts_with(x, p)
            &&& x.len() > p.len()
            &&& x[p.len() as int] < n
        } by {
            if i < first.len() {
                assert(all[i] == first[i]);
            } else {
                assert(all[i] == second[i - first.len()]);
            }
        }
        assert forall|i: int, j: int| 0 <= i < all.len() && 0 <= j < all.len() && i != j implies all[i] != all[j] by {
            if i < first.len() && j < first.len() {
                assert(all[i] == first[i] && all[j] == first[j]);
            } else if i >= first.len() && j >= first.len() {
                assert(all[i] == second[i - first.len()] && all[j] == second[j - first.len()]);
            } else if i < first.len() {
                assert(all[i] == first[i] && all[j] == second[j - first.len()]);
                assert(all[i][p.len() as int] != all[j][p.len() as int]);
            } else {
                assert(all[j] == first[j] && all[i] == second[i - first.len()]);
                assert(all[i][p.len() as int] != all[j][p.len() as int]);
            }
        }
    }
}

/// `legal_moves` offers each position at most once.
pub proof fn law_offered_moves_distinct(g: GameModel)
    requires
        g.wf(),
        legal_region_ok(g.board, g.legal),
    ensures
        offered_moves(g).no_duplicates(),
{
    assert(g.legal.take(g.legal.len() as int) =~= g.legal);
    if board_value(g.board) == Value::Undecided {
        assert(open_board_at(g.board, g.legal.take(g.legal.len() as int)));
    }
    lemma_get_wf(g.board, g.legal);
    lemma_cell_legal_distinct(board_get(g.board, g.legal).unwrap(), g.legal);
}

/// Writing at `pos` leaves every path that neither leads to `pos` nor goes through it
/// as it was: looking it up is as safe as before and finds what it found before.
pub proof fn law_set_leaves_other_paths(s: Seq<CellModel>, pos: Seq<usize>, c: CellModel, q: Seq<usize>)
    requires
        set_safe(s, pos),
        set_ok(s, pos),
        get_safe(s, q),
        !starts_with(pos, q),
        !starts_with(q, pos),
    ensures
        get_safe(board_set(s, pos, c), q),
        board_get(board_set(s, pos, c), q) == board_get(s, q),
    decreases q.len(),
{
    let s2 = board_set(s, pos, c);
    if q.len() == 0 {
        assert(pos.take(0) =~= q);
    } else if q[0] != pos[0] {
        assert(s2.len() == s.len());
        assert(s2[q[0] as int] == s[q[0] as int]);
    } else {
        if pos.len() == 1 {
            assert(q.take(1) =~= pos);
        } else if q.len() == 1 {
            assert(pos.take(1) =~= q);
        } else {
            if let CellModel::Board(t) = s[pos[0] as int] {
                let p1 = pos.drop_first();
                let q1 = q.drop_first();
                if starts_with(p1, q1) {
                    assert(pos.take(q.len() as int) =~= seq![pos[0]] + p1.take(q1.len() as int));
                    assert(q =~= seq![q[0]] + q1);
                }
                if starts_with(q1, p1) {
                    assert(q.take(pos.len() as int) =~= seq![q[0]] + q1.take(p1.len() as int));
                    assert(pos =~= seq![pos[0]] + p1);
                }
                law_set_leaves_other_paths(t, p1, c, q1);
                assert(s2[q[0] as int] == CellModel::Board(board_set(t, p1, c)));
            }
        }
    }
}

/// A path below a cell that runs through open boards only, each index within its board,
/// down to an empty cell.
pub open spec fn open_down(c: CellModel, r: Seq<usize>) -> bool
    decreases r.len(),
{
    if r.len() == 0 {
        c == CellModel::Empty
    } else {
        match c {
            CellModel::Board(t) => {
                &&& board_value(t) == Value::Undecided
                &&& r[0] < t.len()
                &&& open_down(t[r[0] as int], r.drop_first())
            },
            _ => false,
        }
    }
}

/// What a cell of a board offers, the board offers too.
proof fn lemma_board_legal_has(t: Seq<CellModel>, p: Seq<usize>, n: nat, i: int, x: Seq<usize>)
    requires
        0 <= i < n <= t.len(),
        cell_legal(t[i], p.push(i as usize)).contains(x),
    ensures
        board_legal(t, p, n).contains(x),
    decreases n,
{
    let first = board_legal(t, p, (n - 1) as nat);
    let second = cell_legal(t[n - 1], p.push((n - 1) as usize));
    assert(board_legal(t, p, n) == first + second);
    if i == n - 1 {
        let j = choose|j: int| 0 <= j < second.len() && second[j] == x;
        assert((first + second)[first.len() + j] == x);
    } else {
        lemma_board_legal_has(t, p, (n - 1) as nat, i, x);
        let j = choose|j: int| 0 <= j < first.len() && first[j] == x;
        assert((first + second)[j] == x);
    }
}

/// A cell offers every position reached from it through open boards down to an empty
/// cell.
proof fn lemma_open_down_offered(c: CellModel, p: Seq<usize>, r: Seq<usize>)
    requires
        open_down(c, r),
    ensures
        cell_legal(c, p).contains(p + r),
    decreases r.len(),
{
    if r.len() == 0 {
        assert(p + r =~= p);
        assert(cell_legal(c, p)[0] == p);
    } else if let CellModel::Board(t) = c {
        let i = r[0];
        lemma_open_down_offered(t[i as int], p.push(i), r.drop_first());
        assert(p.push(i) + r.drop_first() =~= p + r);
        lemma_board_legal_has(t, p, t.len(), i as int, p + r);
    }
}

/// The path from its `k`-th prefix down to a move whose boards on the way are all open,
/// ending at an empty cell, runs through open boards only.
proof fn lemma_open_down_from(s: Seq<CellModel>, pos: Seq<usize>, k: int)
    requires
        get_safe(s, pos),
        board_get(s, pos) == Some(CellModel::Empty),
        0 <= k <= pos.len(),
        forall|j: int| k <= j < pos.len() ==> !#[trigger] completed_at(s, pos.take(j)),
    ensures
        open_down(board_get(s, pos.take(k)).unwrap(), pos.skip(k)),
    decreases pos.len() - k,
{
    if k == pos.len() {
        assert(pos.take(k) =~= pos);
        assert(pos.skip(k) =~= Seq::<usize>::empty());
    } else {
        lemma_get_prefix(s, pos, k);
        lemma_get_prefix(s, pos, k + 1);
        let t = board_get(s, pos.take(k)).unwrap()->Board_0;
        assert(!completed_at(s, pos.take(k)));
        assert(pos.take(k + 1) =~= pos.take(k).push(pos[k]));
        lemma_get_push(s, pos.take(k), t, pos[k]);
        lemma_open_down_from(s, pos, k + 1);
        assert(pos.skip(k).drop_first() =~= pos.skip(k + 1));
        assert(pos.skip(k)[0] == pos[k]);
    }
}

/// In a sound game, `play` accepts a move exactly when `legal_moves` offers it.
pub proof fn law_play_accepts_offered_moves(g: GameModel, pos: Seq<usize>)
    requires
        g.wf(),
        legal_region_ok(g.board, g.legal),
        g.play_safe(pos),
    ensures
        g.play_result(pos) is Ok <==> offered_moves(g).contains(pos),
{
    if offered_moves(g).contains(pos) {
        let i = choose|i: int| 0 <= i < offered_moves(g).len() && offered_moves(g)[i] == pos;
        law_offered_moves_playable(g, i);
    }
    if g.play_result(pos) is Ok {
        let s = g.board;
        let l = g.legal;
        assert forall|j: int| l.len() <= j < pos.len() implies !#[trigger] completed_at(s, pos.take(j)) by {
            assert(0 <= j < path_checks(pos));
        }
        lemma_open_down_from(s, pos, l.len() as int);
        assert(pos.take(l.len() as int) == l);
        lemma_open_down_offered(board_get(s, l).unwrap(), l, pos.skip(l.len() as int));
        assert(l + pos.skip(l.len() as int) =~= pos);
    }
}

/// The board a move sends the opponent to. After an accepted move at a position at least
/// two levels deep in an open game (when the move is three or more levels deep, one that
/// leaves the board holding its cell open), the opponent must play in the board that the
/// cell's index names within the board two levels up: in that board itself when it is
/// still open, and anywhere in the board two levels up when it is finished. In a
/// two-level game this is the small board named by the cell just marked, whatever became
/// of the small board the move was made in.
pub proof fn law_move_names_next_board(g: GameModel, pos: Seq<usize>)
    requires
        g.wf(),
        g.play_safe(pos),
        g.play_result(pos) is Ok,
        pos.len() >= 2,
        board_value(g.after_play(pos).board) == Value::Undecided,
        pos.len() >= 3 ==> !(board_get(g.after_play(pos).board, pos.drop_last()) matches Some(CellModel::Board(h))
            && board_value(h) != Value::Undecided),
    ensures
        ({
            let s2 = g.after_play(pos).board;
            let up = pos.take(pos.len() - 2);
            let target = up.push(pos.last());
            board_get(s2, target) matches Some(CellModel::Board(b)) ==> g.after_play(pos).legal == if board_value(
                b,
            ) == Value::Undecided {
                target
            } else {
                up
            }
        }),
{
}

} // verus!
