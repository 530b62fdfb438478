use vstd::prelude::*;
use vstd::slice::slice_to_vec;

use super::cell::{cell_model, Cell};
use super::error::GameError;
use super::model::{board_get, board_of_depth, board_set, empty_board, get_safe, set_ok, set_safe, line_won, board_legal, board_moves, board_value, board_wf, cell_legal, cell_moves, cell_values, cell_wf, model_value, CellModel};
use super::value::Value;

verus! {

broadcast use vstd::std_specs::vec::group_vec_axioms;

/// A noughts-and-crosses board; a cell may itself hold a board.
#[derive(Debug, PartialEq)]
pub struct Board {
    pub cells: Vec<Cell>,
}

/// The models of the first `n` cells of a board.
pub open spec fn cells_model(b: Board, n: nat) -> Seq<CellModel>
    decreases b, n,
{
    if n == 0 || n > b.cells@.len() {
        Seq::empty()
    } else {
        proof {
            assert(decreases_to!(b => b.cells));
            assert(decreases_to!(b.cells => b.cells[n - 1]));
        }
        cells_model(b, (n - 1) as nat).push(cell_model(b.cells@[n - 1]))
    }
}

impl View for Board {
    type V = Seq<CellModel>;

    open spec fn view(&self) -> Seq<CellModel> {
        cells_model(*self, self.cells@.len())
    }
}

proof fn lemma_cells_model(b: Board, n: nat)
    requires
        n <= b.cells@.len(),
    ensures
        cells_model(b, n).len() == n,
        forall|i: int| 0 <= i < n ==> #[trigger] cells_model(b, n)[i] == b.cells@[i]@,
    decreases n,
{
    if n > 0 {
        lemma_cells_model(b, (n - 1) as nat);
    }
}

/// The model of a board lists the models of its cells.
pub broadcast proof fn lemma_board_view(b: Board)
    ensures
        (#[trigger] b@).len() == b.cells@.len(),
        forall|i: int| 0 <= i < b.cells@.len() ==> #[trigger] b@[i] == b.cells@[i]@,
{
    lemma_cells_model(b, b.cells@.len());
}

impl Clone for Board {
    /// Copies the board, nested boards included.
    fn clone(&self) -> (r: Self)
        ensures
            r@ == self@,
        decreases self,
    {
        let mut cells: Vec<Cell> = Vec::new();
        let n = self.cells.len();
        for i in 0..n
            invariant
                n == self.cells@.len(),
                cells@.len() == i,
                forall|j: int| 0 <= j < i ==> #[trigger] cells@[j]@ == self.cells@[j]@,
        {
            cells.push(self.cells[i].clone());
        }
        let r = Board { cells };
        proof {
            lemma_board_view(r);
            lemma_board_view(*self);
            assert(r@ =~= self@);
        }
        r
    }
}

/// Whether the three given cells form a line won by one player.
fn line_holds(vals: &Vec<Value>, a: usize, b: usize, c: usize) -> (r: bool)
    requires
        a < vals@.len(),
        b < vals@.len(),
        c < vals@.len(),
    ensures
        r == line_won(vals@[a as int], vals@[b as int], vals@[c as int]),
{
    vals[a] == vals[b] && vals[b] == vals[c] && (vals[a] == Value::Player1 || vals[a] == Value::Player2)
}

/// Whether some value in the list is still open.
fn contains_undecided(vals: &Vec<Value>) -> (r: bool)
    ensures
        r == vals@.contains(Value::Undecided),
{
    let n = vals.len();
    for i in 0..n
        invariant
            n == vals@.len(),
            forall|j: int| 0 <= j < i ==> vals@[j] != Value::Undecided,
    {
        if vals[i] == Value::Undecided {
            assert(vals@[i as int] == Value::Undecided);
            return true;
        }
    }
    false
}

/// The model of an optional cell.
pub open spec fn opt_cell_model(c: Option<Cell>) -> Option<CellModel> {
    match c {
        Some(c) => Some(c@),
        None => None,
    }
}

/// The symbol of a value in the text picture of a board.
pub open spec fn value_symbol(v: Value) -> char {
    match v {
        Value::Undecided => '.',
        Value::Draw => '=',
        Value::Player1 => 'X',
        Value::Player2 => 'O',
    }
}

/// The text picture of the first `n` values of a board: one symbol per cell, and a
/// line break after every third cell.
pub open spec fn repr_of(vals: Seq<Value>, n: nat) -> Seq<char>
    decreases n,
{
    if n == 0 || n > vals.len() {
        Seq::empty()
    } else {
        let s = repr_of(vals, (n - 1) as nat).push(value_symbol(vals[n - 1]));
        if (n - 1) % 3 == 2 {
            s.push('\n')
        } else {
            s
        }
    }
}

impl Board {
    /// Creates a new board filled with `Cell::Empty`
    pub fn new() -> (r: Board)
        ensures
            r@ == empty_board(),
    {
        let r = Board { cells: vec![Cell::Empty; 9] };
        proof {
            lemma_board_view(r);
            assert(r@ =~= empty_board());
        }
        r
    }

    /// Creates a new board with its cells as the input array
    pub fn new_cells(cells: [Cell; 9]) -> (r: Board)
        ensures
            r@ == cells@.map_values(|c: Cell| c@),
    {
        let mut v: Vec<Cell> = Vec::new();
        for i in 0..9
            invariant
                v@.len() == i,
                forall|j: int| 0 <= j < i ==> #[trigger] v@[j]@ == cells@[j]@,
        {
            v.push(cells[i].clone());
        }
        let r = Board { cells: v };
        proof {
            lemma_board_view(r);
            assert(r@ =~= cells@.map_values(|c: Cell| c@));
        }
        r
    }

    /// Recursively creates a new board, containing levels equal to the specified `depth`
    pub fn new_depth(depth: usize) -> (r: Board)
        ensures
            r@ == board_of_depth(depth as nat),
        decreases depth,
    {
        if depth > 1 {
            let inner = Board::new_depth(depth - 1);
            let r = Board { cells: vec![Cell::Board(inner); 9] };
            proof {
                lemma_board_view(r);
                assert(r@ =~= board_of_depth(depth as nat));
            }
            r
        } else {
            Board::new()
        }
    }

    /// Returns the `Cell` at a specified position, taking a slice as input.
    ///
    /// The slice should contain the position of the target cell at each level of recursion - I.e.
    /// `[0]` is the top-left cell of a tic-tac-toe board;
    /// `[0, 1]` is the upper-middle cell in the top-left board of a depth 2 game
    pub fn get(&self, pos: &[usize]) -> (r: Option<Cell>)
        requires
            get_safe(self@, pos@),
        ensures
            opt_cell_model(r) == board_get(self@, pos@),
        decreases pos@.len(),
    {
        proof { lemma_board_view(*self); }
        if pos.len() == 0 {
            Some(Cell::Board(self.clone()))
        } else if pos.len() > 1 {
            if let Cell::Board(board) = &self.cells[pos[0]] {
                let rest = &pos[1..pos.len()];
                assert(rest@ =~= pos@.drop_first());
                board.get(rest)
            } else {
                None
            }
        } else {
            Some(self.cells[pos[0]].clone())
        }
    }

    /// Whether looking up `pos` reads only cells that exist.
    pub fn is_safe_path(&self, pos: &[usize]) -> (r: bool)
        ensures
            r == get_safe(self@, pos@),
        decreases pos@.len(),
    {
        proof { lemma_board_view(*self); }
        if pos.len() == 0 {
            return true;
        }
        if pos[0] >= self.cells.len() {
            return false;
        }
        if pos.len() == 1 {
            return true;
        }
        match &self.cells[pos[0]] {
            Cell::Board(b) => {
                let rest = &pos[1..pos.len()];
                assert(rest@ =~= pos@.drop_first());
                b.is_safe_path(rest)
            },
            _ => true,
        }
    }

    /// Whether writing at `pos` reads only cells that exist (the path is not empty).
    pub fn is_settable_path(&self, pos: &[usize]) -> (r: bool)
        ensures
            r == set_safe(self@, pos@),
        decreases pos@.len(),
    {
        proof { lemma_board_view(*self); }
        if pos.len() == 0 || pos[0] >= self.cells.len() {
            return false;
        }
        if pos.len() == 1 {
            return true;
        }
        match &self.cells[pos[0]] {
            Cell::Board(b) => {
                let rest = &pos[1..pos.len()];
                assert(rest@ =~= pos@.drop_first());
                b.is_settable_path(rest)
            },
            _ => true,
        }
    }

    /// Changes the `Cell` at a given position to the given `Cell`
    pub fn set(&mut self, pos: &[usize], value: Cell) -> (r: Result<(), GameError>)
        requires
            set_safe(old(self)@, pos@),
        ensures
            r is Ok <==> set_ok(old(self)@, pos@),
            r is Ok ==> final(self)@ == board_set(old(self)@, pos@, value@),
            r is Err ==> r == Err::<(), GameError>(GameError::NoCellAtDepth) && final(self)@ == old(self)@,
        decreases pos@.len(),
    {
        proof { lemma_board_view(*self); }
        let ghost old_self = *self;
        if pos.len() > 1 {
            let k = pos[0];
            let rest = &pos[1..pos.len()];
            assert(rest@ =~= pos@.drop_first());
            if let Cell::Board(x) = &mut self.cells[k] {
                let r = x.set(rest, value);
                proof {
                    lemma_board_view(*self);
                    assert(self@ =~= if r is Ok { board_set(old_self@, pos@, value@) } else { old_self@ });
                }
                r
            } else {
                proof {
                    lemma_board_view(*self);
                    assert(self@ =~= old_self@);
                }
                Err(GameError::NoCellAtDepth)
            }
        } else {
            self.cells.set(pos[0], value);
            proof {
                lemma_board_view(*self);
                assert(self@ =~= board_set(old_self@, pos@, value@));
            }
            Ok(())
        }
    }

    /// Recursively checks the board to see if it has been won or drawn, and returns the corresponding `Value`
    pub fn check(&self) -> (r: Value)
        requires
            board_wf(self@),
        ensures
            r == board_value(self@),
        decreases self,
    {
        proof { lemma_board_view(*self); }
        let mut vals: Vec<Value> = Vec::new();
        for i in 0..9
            invariant
                board_wf(self@),
                self@.len() == self.cells@.len(),
                forall|j: int| 0 <= j < self.cells@.len() ==> #[trigger] self@[j] == self.cells@[j]@,
                vals@ == cell_values(self@).take(i as int),
        {
            assert(cell_wf(self@[i as int]));
            let v = self.cells[i].value();
            vals.push(v);
            assert(vals@ =~= cell_values(self@).take(i + 1));
        }
        assert(vals@ =~= cell_values(self@));
        if line_holds(&vals, 0, 1, 2) {
            return vals[0];
        }
        if line_holds(&vals, 3, 4, 5) {
            return vals[3];
        }
        if line_holds(&vals, 6, 7, 8) {
            return vals[6];
        }
        if line_holds(&vals, 0, 3, 6) {
            return vals[0];
        }
        if line_holds(&vals, 1, 4, 7) {
            return vals[1];
        }
        if line_holds(&vals, 2, 5, 8) {
            return vals[2];
        }
        if line_holds(&vals, 0, 4, 8) {
            return vals[0];
        }
        if line_holds(&vals, 2, 4, 6) {
            return vals[2];
        }
        if !contains_undecided(&vals) {
            return Value::Draw;
        }
        Value::Undecided
    }

    /// Whether the board and every board nested in it have nine cells
    pub fn is_well_formed(&self) -> (r: bool)
        ensures
            r == board_wf(self@),
        decreases self,
    {
        proof { lemma_board_view(*self); }
        if self.cells.len() != 9 {
            return false;
        }
        for i in 0..9
            invariant
                self.cells@.len() == 9,
                self@.len() == 9,
                forall|j: int| 0 <= j < 9 ==> #[trigger] self@[j] == self.cells@[j]@,
                forall|j: int| 0 <= j < i ==> cell_wf(#[trigger] self@[j]),
        {
            if !self.cells[i].is_well_formed() {
                return false;
            }
        }
        proof { super::model::lemma_wf_from_cells(self@); }
        true
    }

    /// A text picture of the board, one symbol per cell and a line per row
    pub fn dbg_repr(&self) -> (r: String)
        requires
            board_wf(self@),
        ensures
            r@ == repr_of(cell_values(self@), 9),
    {
        proof { lemma_board_view(*self); }
        let mut out = String::new();
        for i in 0..9
            invariant
                board_wf(self@),
                self@.len() == self.cells@.len(),
                forall|j: int| 0 <= j < self.cells@.len() ==> #[trigger] self@[j] == self.cells@[j]@,
                out@ == repr_of(cell_values(self@), i as nat),
        {
            assert(cell_wf(self@[i as int]));
            let v = self.cells[i].value();
            assert(v == cell_values(self@)[i as int]);
            let ghost before = out@;
            proof {
                reveal_strlit(".");
                reveal_strlit("=");
                reveal_strlit("X");
                reveal_strlit("O");
                reveal_strlit("\n");
            }
            match v {
                Value::Undecided => out.append("."),
                Value::Draw => out.append("="),
                Value::Player1 => out.append("X"),
                Value::Player2 => out.append("O"),
            }
            assert(out@ == before.push(value_symbol(v)));
            if i % 3 == 2 {
                out.append("\n");
            }
            assert(out@ =~= repr_of(cell_values(self@), (i + 1) as nat));
        }
        out
    }

    /// Returns a Vec of all possible moves in the board
    pub fn moves(&self, pos: &[usize]) -> (r: Vec<Vec<usize>>)
        ensures
            r.deep_view() == board_moves(self@, pos@, self@.len()),
        decreases self,
    {
        proof { lemma_board_view(*self); }
        let mut l: Vec<Vec<usize>> = Vec::new();
        let n = self.cells.len();
        for i in 0..n
            invariant
                n == self.cells@.len(),
                self@.len() == n,
                forall|j: int| 0 <= j < n ==> #[trigger] self@[j] == self.cells@[j]@,
                l.deep_view() == board_moves(self@, pos@, i as nat),
        {
            let mut v = slice_to_vec(pos);
            v.push(i);
            let mut m = self.cells[i].moves(v.as_slice());
            let ghost before = l.deep_view();
            l.append(&mut m);
            assert(l.deep_view() =~= before + cell_moves(self@[i as int], pos@.push(i)));
        }
        l
    }

    /// Returns a Vec of all possible legal moves in the board
    pub fn legal_moves(&self, pos: &[usize]) -> (r: Vec<Vec<usize>>)
        requires
            board_wf(self@),
        ensures
            r.deep_view() == board_legal(self@, pos@, self@.len()),
        decreases self,
    {
        proof { lemma_board_view(*self); }
        let mut l: Vec<Vec<usize>> = Vec::new();
        let n = self.cells.len();
        for i in 0..n
            invariant
                n == self.cells@.len(),
                self@.len() == n,
                board_wf(self@),
                forall|j: int| 0 <= j < n ==> #[trigger] self@[j] == self.cells@[j]@,
                l.deep_view() == board_legal(self@, pos@, i as nat),
        {
            let mut v = slice_to_vec(pos);
            v.push(i);
            assert(cell_wf(self@[i as int]));
            let mut m = self.cells[i].legal_moves(v.as_slice());
            let ghost before = l.deep_view();
            l.append(&mut m);
            assert(l.deep_view() =~= before + cell_legal(self@[i as int], pos@.push(i)));
        }
        l
    }
}

} // verus!
