use vstd::prelude::*;
use vstd::slice::slice_to_vec;

use super::board::{cells_model, Board};
use super::model::{board_legal, board_moves, board_value, board_wf, cell_legal, cell_moves, cell_values, cell_wf, model_value, CellModel};
use super::value::Value;

verus! {

broadcast use vstd::std_specs::vec::group_vec_axioms;

/// The states of a cell.
#[derive(Debug, PartialEq)]
pub enum Cell {
    /// An empty cell
    Empty,
    /// The first player
    Player1,
    /// The second player
    Player2,
    /// Another board
    Board(Board),
}

/// The model of a cell; a nested board is given by the models of its cells.
pub open spec fn cell_model(c: Cell) -> CellModel
    decreases c, 0nat,
{
    match c {
        Cell::Empty => CellModel::Empty,
        Cell::Player1 => CellModel::Player1,
        Cell::Player2 => CellModel::Player2,
        Cell::Board(b) => CellModel::Board(cells_model(b, b.cells@.len())),
    }
}

/// The deep view of a list of indices is its view.
pub proof fn lemma_deep_view_positions(v: Vec<usize>)
    ensures
        v.deep_view() == v@,
{
    assert(v.deep_view() =~= v@);
}

impl View for Cell {
    type V = CellModel;

    open spec fn view(&self) -> CellModel {
        cell_model(*self)
    }
}

impl Clone for Cell {
    /// Copies the cell, nested boards included.
    fn clone(&self) -> (r: Self)
        ensures
            r@ == self@,
        decreases self,
    {
        match self {
            Cell::Empty => Cell::Empty,
            Cell::Player1 => Cell::Player1,
            Cell::Player2 => Cell::Player2,
            Cell::Board(b) => Cell::Board(b.clone()),
        }
    }
}

impl Cell {
    /// Returns the `Value` corresponding to a cell
    pub fn value(&self) -> (r: Value)
        requires
            cell_wf(self@),
        ensures
            r == model_value(self@),
        decreases self,
    {
        match self {
            Cell::Empty => Value::Undecided,
            Cell::Player1 => Value::Player1,
            Cell::Player2 => Value::Player2,
            Cell::Board(b) => b.check(),
        }
    }

    /// Whether every board in the cell has nine cells
    pub fn is_well_formed(&self) -> (r: bool)
        ensures
            r == cell_wf(self@),
        decreases self,
    {
        match self {
            Cell::Board(b) => b.is_well_formed(),
            _ => true,
        }
    }

    /// Returns the possible moves within a cell
    pub fn moves(&self, pos: &[usize]) -> (r: Vec<Vec<usize>>)
        ensures
            r.deep_view() == cell_moves(self@, pos@),
        decreases self,
    {
        match self {
            Cell::Board(b) => b.moves(pos),
            _ => {
                let mut r: Vec<Vec<usize>> = Vec::new();
                r.push(slice_to_vec(pos));
                proof { lemma_deep_view_positions(r@[0]); }
                assert(r.deep_view() =~= seq![pos@]);
                r
            },
        }
    }

    /// Returns the possible legal moves within a cell
    pub fn legal_moves(&self, pos: &[usize]) -> (r: Vec<Vec<usize>>)
        requires
            cell_wf(self@),
        ensures
            r.deep_view() == cell_legal(self@, pos@),
        decreases self,
    {
        match self {
            Cell::Empty => {
                let mut r: Vec<Vec<usize>> = Vec::new();
                r.push(slice_to_vec(pos));
                proof { lemma_deep_view_positions(r@[0]); }
                assert(r.deep_view() =~= seq![pos@]);
                r
            },
            Cell::Player1 => {
                let r: Vec<Vec<usize>> = Vec::new();
                assert(r.deep_view() =~= Seq::<Seq<usize>>::empty());
                r
            },
            Cell::Player2 => {
                let r: Vec<Vec<usize>> = Vec::new();
                assert(r.deep_view() =~= Seq::<Seq<usize>>::empty());
                r
            },
            Cell::Board(b) => {
                if b.check() != Value::Undecided {
                    let r: Vec<Vec<usize>> = Vec::new();
                    assert(r.deep_view() =~= Seq::<Seq<usize>>::empty());
                    r
                } else {
                    b.legal_moves(pos)
                }
            },
        }
    }
}

} // verus!
