//! The mathematical picture of a (recursive) noughts-and-crosses board, and the rules of
//! the game stated over it.
use vstd::prelude::*;

use super::value::Value;

verus! {

/// A cell seen as a mathematical value: a mark, or a nested board given by the
/// sequence of its cells.
pub enum CellModel {
    Empty,
    Player1,
    Player2,
    Board(Seq<CellModel>),
}

/// A line of three cells is won when the three values agree on one of the players.
pub open spec fn line_won(a: Value, b: Value, c: Value) -> bool {
    a == b && b == c && (a == Value::Player1 || a == Value::Player2)
}

/// The outcome of a board from the values of its nine cells, in reading order:
/// the first winning line (rows, then columns, then the two diagonals) decides;
/// otherwise a board with no open cell is drawn, and any other board is still open.
pub open spec fn outcome(v: Seq<Value>) -> Value {
    if line_won(v[0], v[1], v[2]) {
        v[0]
    } else if line_won(v[3], v[4], v[5]) {
        v[3]
    } else if line_won(v[6], v[7], v[8]) {
        v[6]
    } else if line_won(v[0], v[3], v[6]) {
        v[0]
    } else if line_won(v[1], v[4], v[7]) {
        v[1]
    } else if line_won(v[2], v[5], v[8]) {
        v[2]
    } else if line_won(v[0], v[4], v[8]) {
        v[0]
    } else if line_won(v[2], v[4], v[6]) {
        v[2]
    } else if !v.contains(Value::Undecided) {
        Value::Draw
    } else {
        Value::Undecided
    }
}

/// The value of a cell: its mark, or the outcome of the nested board.
pub open spec fn model_value(c: CellModel) -> Value
    decreases c, 1nat,
{
    match c {
        CellModel::Empty => Value::Undecided,
        CellModel::Player1 => Value::Player1,
        CellModel::Player2 => Value::Player2,
        CellModel::Board(s) => board_value(s),
    }
}

/// The values of the nine cells of a board.
pub open spec fn cell_values(s: Seq<CellModel>) -> Seq<Value>
    recommends
        s.len() == 9,
    decreases s, 0nat,
{
    if s.len() != 9 {
        Seq::empty()
    } else {
        seq![
            model_value(s[0]),
            model_value(s[1]),
            model_value(s[2]),
            model_value(s[3]),
            model_value(s[4]),
            model_value(s[5]),
            model_value(s[6]),
            model_value(s[7]),
            model_value(s[8]),
        ]
    }
}

/// The outcome of a board given by its cells.
pub open spec fn board_value(s: Seq<CellModel>) -> Value
    decreases s, 1nat,
{
    if s.len() != 9 {
        Value::Undecided
    } else {
        outcome(cell_values(s))
    }
}

/// Every board in the cell, at every depth, has exactly nine cells.
pub open spec fn cell_wf(c: CellModel) -> bool
    decreases c, 1nat,
{
    match c {
        CellModel::Board(s) => board_wf(s),
        _ => true,
    }
}

/// The board has nine cells, and so has every board nested in it.
pub open spec fn board_wf(s: Seq<CellModel>) -> bool
    decreases s, 0nat,
{
    &&& s.len() == 9
    &&& cell_wf(s[0])
    &&& cell_wf(s[1])
    &&& cell_wf(s[2])
    &&& cell_wf(s[3])
    &&& cell_wf(s[4])
    &&& cell_wf(s[5])
    &&& cell_wf(s[6])
    &&& cell_wf(s[7])
    &&& cell_wf(s[8])
}

/// A board of nine empty cells.
pub open spec fn empty_board() -> Seq<CellModel> {
    Seq::new(9, |i: int| CellModel::Empty)
}

/// The board of the given depth: nine empty cells at depth one (or less), and nine
/// copies of the board one level shallower above that.
pub open spec fn board_of_depth(depth: nat) -> Seq<CellModel>
    decreases depth,
{
    if depth > 1 {
        Seq::new(9, |i: int| CellModel::Board(board_of_depth((depth - 1) as nat)))
    } else {
        empty_board()
    }
}

/// The cell that a path of cell indices leads to, one index per level: the empty path
/// names the board itself; a path that goes through a cell that is not a board names
/// nothing.
pub open spec fn board_get(s: Seq<CellModel>, pos: Seq<usize>) -> Option<CellModel>
    decreases pos.len(),
{
    if pos.len() == 0 {
        Some(CellModel::Board(s))
    } else if pos.len() > 1 {
        match s[pos[0] as int] {
            CellModel::Board(t) => board_get(t, pos.drop_first()),
            _ => None,
        }
    } else {
        Some(s[pos[0] as int])
    }
}

/// Every index that looking up `pos` reads is within its board.
pub open spec fn get_safe(s: Seq<CellModel>, pos: Seq<usize>) -> bool
    decreases pos.len(),
{
    pos.len() == 0 || {
        &&& pos[0] < s.len()
        &&& pos.len() > 1 ==> match s[pos[0] as int] {
            CellModel::Board(t) => get_safe(t, pos.drop_first()),
            _ => true,
        }
    }
}

/// Every index that writing at `pos` reads is within its board (the path is not empty).
pub open spec fn set_safe(s: Seq<CellModel>, pos: Seq<usize>) -> bool
    decreases pos.len(),
{
    &&& pos.len() > 0
    &&& pos[0] < s.len()
    &&& pos.len() > 1 ==> match s[pos[0] as int] {
        CellModel::Board(t) => set_safe(t, pos.drop_first()),
        _ => true,
    }
}

/// Writing at `pos` succeeds: every cell above the last index is a board.
pub open spec fn set_ok(s: Seq<CellModel>, pos: Seq<usize>) -> bool
    decreases pos.len(),
{
    pos.len() <= 1 || match s[pos[0] as int] {
        CellModel::Board(t) => set_ok(t, pos.drop_first()),
        _ => false,
    }
}

/// The board after the cell at `pos` has been replaced by `c` (unchanged where the
/// path goes through a cell that is not a board).
pub open spec fn board_set(s: Seq<CellModel>, pos: Seq<usize>, c: CellModel) -> Seq<CellModel>
    decreases pos.len(),
{
    if pos.len() > 1 {
        match s[pos[0] as int] {
            CellModel::Board(t) => s.update(pos[0] as int, CellModel::Board(board_set(t, pos.drop_first(), c))),
            _ => s,
        }
    } else if pos.len() == 1 {
        s.update(pos[0] as int, c)
    } else {
        s
    }
}

/// Every position inside the cell, marked or not: the position of the cell itself for a
/// mark or an empty cell, and the positions of every cell of a nested board, in order.
pub open spec fn cell_moves(c: CellModel, pos: Seq<usize>) -> Seq<Seq<usize>>
    decreases c, 0nat,
{
    match c {
        CellModel::Board(s) => board_moves(s, pos, s.len()),
        _ => seq![pos],
    }
}

/// The positions inside the first `n` cells of a board whose own position is `pos`.
pub open spec fn board_moves(s: Seq<CellModel>, pos: Seq<usize>, n: nat) -> Seq<Seq<usize>>
    decreases s, n,
{
    if n == 0 || n > s.len() {
        Seq::empty()
    } else {
        board_moves(s, pos, (n - 1) as nat) + cell_moves(s[n - 1], pos.push((n - 1) as usize))
    }
}

/// The positions inside the cell where a mark may be placed: the cell itself when it is
/// empty, nothing when it is marked or a finished board, and the legal positions of
/// every cell of an open board, in order.
pub open spec fn cell_legal(c: CellModel, pos: Seq<usize>) -> Seq<Seq<usize>>
    decreases c, 1nat,
{
    match c {
        CellModel::Empty => seq![pos],
        CellModel::Player1 => Seq::empty(),
        CellModel::Player2 => Seq::empty(),
        CellModel::Board(s) => if board_value(s) != Value::Undecided {
            Seq::empty()
        } else {
            board_legal(s, pos, s.len())
        },
    }
}

/// The legal positions inside the first `n` cells of a board whose own position is `pos`.
pub open spec fn board_legal(s: Seq<CellModel>, pos: Seq<usize>, n: nat) -> Seq<Seq<usize>>
    decreases s, n,
{
    if n == 0 || n > s.len() {
        Seq::empty()
    } else {
        board_legal(s, pos, (n - 1) as nat) + cell_legal(s[n - 1], pos.push((n - 1) as usize))
    }
}

} // verus!

verus! {

/// Every cell of a well-formed board is well-formed.
pub proof fn lemma_wf_cell(s: Seq<CellModel>, i: int)
    requires
        board_wf(s),
        0 <= i < 9,
    ensures
        cell_wf(s[i]),
{
    if i == 0 {
    } else if i == 1 {
    } else if i == 2 {
    } else if i == 3 {
    } else if i == 4 {
    } else if i == 5 {
    } else if i == 6 {
    } else if i == 7 {
    } else {
    }
}

/// A board whose nine cells are all well-formed is well-formed.
pub proof fn lemma_wf_from_cells(s: Seq<CellModel>)
    requires
        s.len() == 9,
        forall|i: int| 0 <= i < 9 ==> cell_wf(#[trigger] s[i]),
    ensures
        board_wf(s),
{
    assert(cell_wf(s[0]) && cell_wf(s[1]) && cell_wf(s[2]) && cell_wf(s[3]) && cell_wf(s[4]));
    assert(cell_wf(s[5]) && cell_wf(s[6]) && cell_wf(s[7]) && cell_wf(s[8]));
}

/// The board of any depth is well-formed.
pub proof fn lemma_depth_wf(depth: nat)
    ensures
        board_wf(board_of_depth(depth)),
    decreases depth,
{
    if depth > 1 {
        lemma_depth_wf((depth - 1) as nat);
    }
    lemma_wf_from_cells(board_of_depth(depth));
}

/// A board reached by a path inside a well-formed board is well-formed.
pub proof fn lemma_get_wf(s: Seq<CellModel>, pos: Seq<usize>)
    requires
        board_wf(s),
        get_safe(s, pos),
        board_get(s, pos) is Some,
    ensures
        cell_wf(board_get(s, pos).unwrap()),
    decreases pos.len(),
{
    if pos.len() > 0 {
        lemma_wf_cell(s, pos[0] as int);
        if pos.len() > 1 {
            if let CellModel::Board(t) = s[pos[0] as int] {
                lemma_get_wf(t, pos.drop_first());
            }
        }
    }
}

/// Every index of a path read only within its boards is also so for its prefixes.
pub proof fn lemma_safe_take(s: Seq<CellModel>, pos: Seq<usize>, k: int)
    requires
        get_safe(s, pos),
        0 <= k <= pos.len(),
    ensures
        get_safe(s, pos.take(k)),
    decreases pos.len(),
{
    if k > 0 && k < pos.len() {
        assert(pos.take(k)[0] == pos[0]);
        if k > 1 {
            if let CellModel::Board(t) = s[pos[0] as int] {
                lemma_safe_take(t, pos.drop_first(), k - 1);
                assert(pos.take(k).drop_first() =~= pos.drop_first().take(k - 1));
            }
        }
    } else if k == pos.len() {
        assert(pos.take(k) =~= pos);
    }
}

/// Looking up a path one index longer than a path to a board reads that board's cell.
pub proof fn lemma_get_push(s: Seq<CellModel>, q: Seq<usize>, t: Seq<CellModel>, i: usize)
    requires
        get_safe(s, q),
        board_get(s, q) == Some(CellModel::Board(t)),
    ensures
        get_safe(s, q.push(i)) <==> i < t.len(),
        i < t.len() ==> board_get(s, q.push(i)) == Some(t[i as int]),
    decreases q.len(),
{
    if q.len() == 0 {
        assert(q.push(i) =~= seq![i]);
        assert(s == t);
    } else {
        assert(q.push(i).drop_first() =~= q.drop_first().push(i));
        assert(q.push(i)[0] == q[0]);
        if let CellModel::Board(u) = s[q[0] as int] {
            if q.len() > 1 {
                lemma_get_push(u, q.drop_first(), t, i);
            } else {
                assert(q.drop_first() =~= Seq::<usize>::empty());
                assert(u == t);
                assert(q.push(i).drop_first() =~= seq![i]);
                assert(get_safe(t, seq![i]) <==> i < t.len());
                assert(board_get(t, seq![i]) == Some(t[i as int]));
            }
        }
    }
}

/// Every proper prefix of a path to a cell leads to a board, and looking it up is safe.
pub proof fn lemma_get_prefix(s: Seq<CellModel>, pos: Seq<usize>, k: int)
    requires
        get_safe(s, pos),
        board_get(s, pos) is Some,
        0 <= k <= pos.len(),
    ensures
        get_safe(s, pos.take(k)),
        board_get(s, pos.take(k)) is Some,
        k < pos.len() ==> board_get(s, pos.take(k)) is Some && board_get(s, pos.take(k)).unwrap() is Board,
    decreases pos.len(),
{
    if k == pos.len() {
        assert(pos.take(k) =~= pos);
    } else if k == 0 {
        assert(pos.take(k) =~= Seq::<usize>::empty());
    } else {
        if let CellModel::Board(t) = s[pos[0] as int] {
            lemma_get_prefix(t, pos.drop_first(), k - 1);
            assert(pos.take(k).drop_first() =~= pos.drop_first().take(k - 1));
        }
    }
}

/// A path to an open cell can be written into.
pub proof fn lemma_get_set_ok(s: Seq<CellModel>, pos: Seq<usize>)
    requires
        get_safe(s, pos),
        board_get(s, pos) is Some,
        pos.len() > 0,
    ensures
        set_safe(s, pos),
        set_ok(s, pos),
    decreases pos.len(),
{
    if pos.len() > 1 {
        if let CellModel::Board(t) = s[pos[0] as int] {
            lemma_get_set_ok(t, pos.drop_first());
        }
    }
}

/// After writing `c` at a path, the path leads to `c`; what lies off the path is untouched.
pub proof fn lemma_set_get(s: Seq<CellModel>, pos: Seq<usize>, c: CellModel)
    requires
        set_safe(s, pos),
        set_ok(s, pos),
    ensures
        get_safe(board_set(s, pos, c), pos),
        board_get(board_set(s, pos, c), pos) == Some(c),
        board_set(s, pos, c).len() == s.len(),
    decreases pos.len(),
{
    if pos.len() > 1 {
        if let CellModel::Board(t) = s[pos[0] as int] {
            lemma_set_get(t, pos.drop_first(), c);
        }
    }
}

/// Writing back what a path led to leaves the board as it was.
pub proof fn lemma_set_same(s: Seq<CellModel>, pos: Seq<usize>)
    requires
        set_safe(s, pos),
        set_ok(s, pos),
        board_get(s, pos) is Some,
    ensures
        board_set(s, pos, board_get(s, pos).unwrap()) == s,
    decreases pos.len(),
{
    if pos.len() > 1 {
        if let CellModel::Board(t) = s[pos[0] as int] {
            lemma_set_same(t, pos.drop_first());
            assert(board_set(s, pos, board_get(s, pos).unwrap()) =~= s);
        }
    } else {
        assert(board_set(s, pos, board_get(s, pos).unwrap()) =~= s);
    }
}

/// Writing twice at one path keeps only the second write.
pub proof fn lemma_set_set(s: Seq<CellModel>, pos: Seq<usize>, c: CellModel, d: CellModel)
    requires
        set_safe(s, pos),
        set_ok(s, pos),
    ensures
        board_set(board_set(s, pos, c), pos, d) == board_set(s, pos, d),
    decreases pos.len(),
{
    if pos.len() > 1 {
        if let CellModel::Board(t) = s[pos[0] as int] {
            lemma_set_set(t, pos.drop_first(), c, d);
            assert(board_set(board_set(s, pos, c), pos, d) =~= board_set(s, pos, d));
        }
    } else {
        assert(board_set(board_set(s, pos, c), pos, d) =~= board_set(s, pos, d));
    }
}

/// Writing a mark (not a board) into a well-formed board keeps it well-formed.
pub proof fn lemma_set_wf(s: Seq<CellModel>, pos: Seq<usize>, c: CellModel)
    requires
        board_wf(s),
        set_safe(s, pos),
        set_ok(s, pos),
        cell_wf(c),
    ensures
        board_wf(board_set(s, pos, c)),
    decreases pos.len(),
{
    let r = board_set(s, pos, c);
    if pos.len() > 1 {
        if let CellModel::Board(t) = s[pos[0] as int] {
            lemma_wf_cell(s, pos[0] as int);
            lemma_set_wf(t, pos.drop_first(), c);
        }
    }
    assert forall|i: int| 0 <= i < 9 implies cell_wf(#[trigger] r[i]) by {
        lemma_wf_cell(s, i);
    }
    lemma_wf_from_cells(r);
}

} // verus!
