use vstd::prelude::*;
use vstd::slice::slice_to_vec;

use super::board::{opt_cell_model, Board};
use super::cell::Cell;
use super::error::GameError;
use super::model::{
    board_get, board_of_depth, board_set, board_value, board_wf, cell_legal, get_safe,
    lemma_depth_wf, lemma_get_prefix, lemma_get_push, lemma_get_set_ok, lemma_get_wf, lemma_safe_take,
    lemma_set_get, lemma_set_wf, set_ok, set_safe, CellModel,
};
use super::value::Value;
use super::cell::lemma_deep_view_positions;
use crate::styles::BOARD_DEFAULT_DEPTH;
use super::laws::{legal_region_ok, open_board_at};

verus! {

broadcast use vstd::std_specs::vec::group_vec_axioms;

/// The player whose turn it is.
#[derive(Debug, Clone, Copy, PartialEq, Eq, Structural)]
pub enum Turn {
    Player1,
    Player2,
}

/// The value that stands for a win of the player.
pub open spec fn turn_value(t: Turn) -> Value {
    match t {
        Turn::Player1 => Value::Player1,
        Turn::Player2 => Value::Player2,
    }
}

/// The other player.
pub open spec fn opponent(t: Turn) -> Turn {
    match t {
        Turn::Player1 => Turn::Player2,
        Turn::Player2 => Turn::Player1,
    }
}

/// The mark that the player places.
pub open spec fn turn_mark(t: Turn) -> CellModel {
    match t {
        Turn::Player1 => CellModel::Player1,
        Turn::Player2 => CellModel::Player2,
    }
}

impl Turn {
    /// The value that stands for a win of this player.
    pub fn val(&self) -> (r: Value)
        ensures
            r == turn_value(*self),
    {
        match self {
            Turn::Player1 => Value::Player1,
            Turn::Player2 => Value::Player2,
        }
    }

    /// The other player.
    pub fn not(self) -> (r: Turn)
        ensures
            r == opponent(self),
    {
        match self {
            Turn::Player1 => Turn::Player2,
            Turn::Player2 => Turn::Player1,
        }
    }
}

/// A position: one cell index per level of the board.
#[derive(Debug, PartialEq)]
pub struct Move(pub Vec<usize>);

impl core::ops::Deref for Move {
    type Target = Vec<usize>;

    fn deref(&self) -> (r: &Vec<usize>)
        ensures
            r == &self.0,
    {
        &self.0
    }
}

/// The state of a game.
#[derive(Debug, PartialEq)]
pub struct Game {
    /// The top level board
    pub board: Board,
    /// The depth of the game
    pub depth: usize,
    /// The current turn
    pub turn: Turn,
    /// The number of human players
    pub players: usize,
    /// Every move played so far, each with the legal position that held before it:
    /// `[move, legal]`
    pub moves: Vec<Vec<Vec<usize>>>,
    /// The position of the board in which the next move must be played (empty: anywhere)
    pub legal: Vec<usize>,
}

/// The mathematical picture of a game.
pub struct GameModel {
    pub board: Seq<CellModel>,
    pub depth: usize,
    pub turn: Turn,
    pub players: usize,
    pub moves: Seq<Seq<Seq<usize>>>,
    pub legal: Seq<usize>,
}

impl View for Game {
    type V = GameModel;

    open spec fn view(&self) -> GameModel {
        GameModel {
            board: self.board@,
            depth: self.depth,
            turn: self.turn,
            players: self.players,
            moves: self.moves.deep_view(),
            legal: self.legal@,
        }
    }
}

/// The path leads to a board that is won or drawn.
pub open spec fn completed_at(s: Seq<CellModel>, pos: Seq<usize>) -> bool {
    match board_get(s, pos) {
        Some(CellModel::Board(b)) => board_value(b) != Value::Undecided,
        _ => false,
    }
}

/// The number of boards that the check of a move at `pos` looks at: those at the proper
/// prefixes of `pos`, from the whole board down to the board that holds the cell (the
/// whole board alone for an empty `pos`).
pub open spec fn path_checks(pos: Seq<usize>) -> int {
    if pos.len() == 0 {
        1
    } else {
        pos.len() as int
    }
}

/// Some board on the way to `pos`, from the whole board down to the board that holds the
/// cell, is won or drawn.
pub open spec fn finished_on_path(s: Seq<CellModel>, pos: Seq<usize>) -> bool {
    exists|k: int| 0 <= k < path_checks(pos) && #[trigger] completed_at(s, pos.take(k))
}

/// `p` is a prefix of `pos`.
pub open spec fn starts_with(pos: Seq<usize>, p: Seq<usize>) -> bool {
    p.len() <= pos.len() && pos.take(p.len() as int) == p
}

/// The board in which the next move must be played, after a move at `pos`: the board
/// in the position that `pos` names within the board that holds the cell played;
/// when the move finished its board (three levels deep or more), the rule is applied
/// again as if the move had been made one level up; when the target board is finished,
/// anywhere in the board that holds it; and anywhere at all when the game is over or no
/// such board exists.
pub open spec fn next_legal(s: Seq<CellModel>, pos: Seq<usize>) -> Seq<usize>
    decreases pos.len(),
{
    if board_value(s) != Value::Undecided || pos.len() == 0 {
        Seq::empty()
    } else {
        let x = pos.last();
        let y = pos.drop_last();
        let z = if pos.len() >= 2 { pos.take(pos.len() - 2) } else { pos };
        if pos.len() >= 3 && completed_at(s, y) {
            next_legal(s, y)
        } else {
            match board_get(s, z.push(x)) {
                Some(CellModel::Board(b)) => if board_value(b) != Value::Undecided {
                    z
                } else {
                    z.push(x)
                },
                _ => Seq::empty(),
            }
        }
    }
}

/// Computing `next_legal(s, pos)` reads only cells within their boards.
pub open spec fn legal_safe(s: Seq<CellModel>, pos: Seq<usize>) -> bool
    decreases pos.len(),
{
    board_value(s) != Value::Undecided || {
        &&& pos.len() > 0
        &&& get_safe(s, pos.drop_last())
        &&& if pos.len() >= 3 && completed_at(s, pos.drop_last()) {
            legal_safe(s, pos.drop_last())
        } else {
            let z = if pos.len() >= 2 { pos.take(pos.len() - 2) } else { pos };
            get_safe(s, z.push(pos.last()))
        }
    }
}

impl GameModel {
    /// Every board of the game has nine cells.
    pub open spec fn wf(self) -> bool {
        board_wf(self.board)
    }

    /// Playing at `pos` reads only cells that exist: when it lies within the legal
    /// region, every index of it lies within its board, and unless a board on the way is
    /// finished, the path leads to a cell.
    pub open spec fn play_safe(self, pos: Seq<usize>) -> bool {
        starts_with(pos, self.legal) ==> {
            &&& get_safe(self.board, pos)
            &&& (finished_on_path(self.board, pos) || board_get(self.board, pos) is Some)
        }
    }

    /// Whether a move at `pos` is accepted, and if not, why: it must lie within the legal
    /// region, no board on the way to it (the whole board included) may be won or drawn,
    /// and it must name an empty cell.
    pub open spec fn play_result(self, pos: Seq<usize>) -> Result<(), GameError> {
        if !starts_with(pos, self.legal) {
            Err(GameError::NotInPlay)
        } else if finished_on_path(self.board, pos) {
            Err(GameError::BoardCompleted)
        } else {
            match board_get(self.board, pos) {
                Some(CellModel::Empty) => Ok(()),
                Some(CellModel::Board(_)) => Err(GameError::IsBoard),
                _ => Err(GameError::Filled),
            }
        }
    }

    /// The game after an accepted move at `pos`.
    pub open spec fn after_play(self, pos: Seq<usize>) -> GameModel {
        let board = board_set(self.board, pos, turn_mark(self.turn));
        GameModel {
            board,
            moves: self.moves.push(seq![pos, self.legal]),
            legal: next_legal(board, pos),
            turn: opponent(self.turn),
            ..self
        }
    }

    /// Taking back the last move reads only cells that exist.
    pub open spec fn unplay_safe(self) -> bool {
        self.moves.len() > 0 ==> {
            &&& self.moves.last().len() >= 2
            &&& set_safe(self.board, self.moves.last()[0])
        }
    }

    /// The game after the last move has been taken back: its cell is emptied (when the
    /// path to it is valid), and the legal position and the turn are restored.
    pub open spec fn after_unplay(self) -> GameModel {
        let mv = self.moves.last();
        GameModel {
            board: if set_ok(self.board, mv[0]) {
                board_set(self.board, mv[0], CellModel::Empty)
            } else {
                self.board
            },
            moves: self.moves.drop_last(),
            legal: mv[1],
            turn: opponent(self.turn),
            ..self
        }
    }
}

/// Whether `p` is a prefix of `pos`.
fn slice_starts_with(pos: &[usize], p: &[usize]) -> (r: bool)
    ensures
        r == starts_with(pos@, p@),
{
    if p.len() > pos.len() {
        return false;
    }
    let n = p.len();
    for i in 0..n
        invariant
            n == p@.len(),
            n <= pos@.len(),
            forall|j: int| 0 <= j < i ==> pos@[j] == p@[j],
    {
        if pos[i] != p[i] {
            assert(pos@.take(n as int)[i as int] != p@[i as int]);
            return false;
        }
    }
    assert(pos@.take(n as int) =~= p@);
    true
}

/// A path to a cell of a well-formed board can be followed by the rule for the next board.
proof fn lemma_legal_safe(s: Seq<CellModel>, pos: Seq<usize>)
    requires
        board_wf(s),
        pos.len() > 0,
        get_safe(s, pos),
        board_get(s, pos) is Some,
    ensures
        legal_safe(s, pos),
    decreases pos.len(),
{
    if board_value(s) == Value::Undecided {
        let x = pos.last();
        let y = pos.drop_last();
        lemma_get_prefix(s, pos, pos.len() - 1);
        assert(pos.take(pos.len() - 1) =~= y);
        if pos.len() >= 3 && completed_at(s, y) {
            lemma_legal_safe(s, y);
        } else {
            assert(y.push(x) =~= pos);
            let u = board_get(s, y).unwrap()->Board_0;
            lemma_get_wf(s, y);
            lemma_get_push(s, y, u, x);
            if pos.len() >= 2 {
                let z = pos.take(pos.len() - 2);
                lemma_get_prefix(s, pos, pos.len() - 2);
                let t = board_get(s, z).unwrap()->Board_0;
                lemma_get_wf(s, z);
                lemma_get_push(s, z, t, x);
            } else {
                assert(y =~= Seq::<usize>::empty());
                let t = s;
                lemma_get_push(s, y, s, x);
                if let CellModel::Board(w) = s[x as int] {
                    lemma_get_wf(s, pos);
                    lemma_get_push(s, pos, w, x);
                } else {
                    assert(get_safe(s, pos.push(x)));
                }
            }
        }
    }
}

/// The deep view of a list of index lists lists the views of its elements.
proof fn lemma_deep_view_positions_list(v: Vec<Vec<usize>>)
    ensures
        forall|i: int| 0 <= i < v@.len() ==> #[trigger] v@[i]@ == v.deep_view()[i],
{
    assert forall|i: int| 0 <= i < v@.len() implies #[trigger] v@[i]@ == v.deep_view()[i] by {
        assert(v@[i].deep_view() =~= v@[i]@);
    }
}

impl Game {
    /// Whether the game is sound: every board has nine cells, and the legal region is
    /// empty once the game is over, while before that it and every board above it are
    /// open boards.
    pub fn is_sound(&self) -> (r: bool)
        ensures
            r == (self@.wf() && legal_region_ok(self.board@, self.legal@)),
    {
        if !self.board.is_well_formed() {
            return false;
        }
        if self.board.check() != Value::Undecided {
            return self.legal.len() == 0;
        }
        let ghost s = self.board@;
        let ghost l = self.legal@;
        proof {
            assert(l.take(0) =~= Seq::<usize>::empty());
            assert(open_board_at(s, l.take(0)));
        }
        let n = self.legal.len();
        for k in 0..n
            invariant
                n == l.len(),
                s == self.board@,
                l == self.legal@,
                board_wf(s),
                forall|j: int| 0 <= j <= k ==> #[trigger] open_board_at(s, l.take(j)),
        {
            let prefix = &self.legal[0..k];
            assert(prefix@ =~= l.take(k as int));
            assert(open_board_at(s, l.take(k as int)));
            let c = self.board.get(prefix);
            let ghost t = board_get(s, l.take(k as int)).unwrap()->Board_0;
            proof {
                lemma_get_wf(s, l.take(k as int));
                assert(l.take(k as int).push(l[k as int]) =~= l.take(k + 1));
                lemma_get_push(s, l.take(k as int), t, l[k as int]);
            }
            let i = self.legal[k];
            match c {
                Some(Cell::Board(b)) => {
                    if i >= b.cells.len() {
                        proof { super::board::lemma_board_view(b); }
                        assert(!open_board_at(s, l.take(k + 1)));
                        return false;
                    }
                    proof { super::board::lemma_board_view(b); }
                    match &b.cells[i] {
                        Cell::Board(inner) => {
                            proof {
                                lemma_get_wf(s, l.take(k + 1));
                            }
                            if inner.check() != Value::Undecided {
                                assert(board_get(s, l.take(k + 1)) == Some(b.cells@[i as int]@));
                                assert(!open_board_at(s, l.take(k + 1)));
                                return false;
                            }
                        },
                        _ => {
                            assert(board_get(s, l.take(k + 1)) == Some(b.cells@[i as int]@));
                            assert(!open_board_at(s, l.take(k + 1)));
                            return false;
                        },
                    }
                },
                _ => {
                    return false;
                },
            }
        }
        proof {
            assert(l.take(n as int) =~= l);
        }
        true
    }

    /// Constructs a new game
    pub fn new_depth(depth: usize, players: usize) -> (r: Game)
        ensures
            r@ == (GameModel {
                board: board_of_depth(depth as nat),
                depth,
                turn: Turn::Player1,
                players,
                moves: Seq::empty(),
                legal: Seq::empty(),
            }),
            r@.wf(),
    {
        proof { lemma_depth_wf(depth as nat); }
        let r = Game {
            board: Board::new_depth(depth),
            depth,
            turn: Turn::Player1,
            players,
            moves: Vec::new(),
            legal: Vec::new(),
        };
        assert(r.moves.deep_view() =~= Seq::<Seq<Seq<usize>>>::empty());
        r
    }

    /// Gets the coordinate of the next legal move board
    pub fn get_legal(&self, pos: &[usize]) -> (r: Vec<usize>)
        requires
            board_wf(self.board@),
            legal_safe(self.board@, pos@),
        ensures
            r@ == next_legal(self.board@, pos@),
        decreases pos@.len(),
    {
        if self.board.check() != Value::Undecided {
            return Vec::new();
        }
        let x = pos[pos.len() - 1];
        let y = &pos[0..pos.len() - 1];
        assert(y@ =~= pos@.drop_last());
        let z: &[usize] = if pos.len() >= 2 {
            &pos[0..pos.len() - 2]
        } else {
            pos
        };
        let ghost zs = if pos@.len() >= 2 { pos@.take(pos@.len() - 2) } else { pos@ };
        assert(z@ =~= zs);
        if let Some(Cell::Board(b)) = self.board.get(y) {
            proof { lemma_get_wf(self.board@, y@); }
            if b.check() != Value::Undecided {
                if pos.len() >= 3 {
                    return self.get_legal(y);
                }
            }
        }
        let mut target = slice_to_vec(z);
        target.push(x);
        assert(target@ =~= zs.push(x));
        if let Some(Cell::Board(b)) = self.board.get(target.as_slice()) {
            proof { lemma_get_wf(self.board@, target@); }
            if b.check() != Value::Undecided {
                slice_to_vec(z)
            } else {
                target
            }
        } else {
            Vec::new()
        }
    }

    /// Makes a move
    pub fn play(&mut self, pos: &[usize]) -> (r: Result<(), GameError>)
        requires
            old(self)@.wf(),
            old(self)@.play_safe(pos@),
        ensures
            r == old(self)@.play_result(pos@),
            r is Ok ==> final(self)@ == old(self)@.after_play(pos@),
            r is Err ==> final(self)@ == old(self)@,
            final(self)@.wf(),
    {
        if !slice_starts_with(pos, self.legal.as_slice()) {
            return Err(GameError::NotInPlay);
        }
        if self.path_finished(pos) {
            return Err(GameError::BoardCompleted);
        }
        match self.board.get(pos).unwrap() {
            Cell::Empty => {
                let ghost old_game = self@;
                let val = if self.turn == Turn::Player1 {
                    Cell::Player1
                } else {
                    Cell::Player2
                };
                assert(val@ == turn_mark(self.turn));
                proof {
                    lemma_get_set_ok(self.board@, pos@);
                    lemma_set_get(self.board@, pos@, val@);
                    lemma_set_wf(self.board@, pos@, val@);
                    lemma_legal_safe(board_set(self.board@, pos@, val@), pos@);
                }
                match self.board.set(pos, val) {
                    Ok(()) => {},
                    Err(e) => {
                        return Err(e);
                    },
                }
                let mut entry: Vec<Vec<usize>> = Vec::new();
                entry.push(slice_to_vec(pos));
                entry.push(slice_to_vec(self.legal.as_slice()));
                proof { lemma_deep_view_positions_list(entry); }
                assert(entry.deep_view() =~= seq![pos@, old_game.legal]);
                let ghost old_moves = self.moves.deep_view();
                self.moves.push(entry);
                assert(self.moves.deep_view() =~= old_moves.push(seq![pos@, old_game.legal]));
                self.legal = self.get_legal(pos);
                self.turn = self.turn.not();
                Ok(())
            },
            Cell::Board(_) => Err(GameError::IsBoard),
            _ => Err(GameError::Filled),
        }
    }

    /// Whether some board on the way to `pos` (the whole board included) is won or drawn.
    fn path_finished(&self, pos: &[usize]) -> (r: bool)
        requires
            self@.wf(),
            get_safe(self.board@, pos@),
        ensures
            r == finished_on_path(self.board@, pos@),
    {
        let n: usize = if pos.len() == 0 { 1 } else { pos.len() };
        for k in 0..n
            invariant
                n == path_checks(pos@),
                board_wf(self.board@),
                get_safe(self.board@, pos@),
                forall|j: int| 0 <= j < k ==> !#[trigger] completed_at(self.board@, pos@.take(j)),
        {
            let prefix = &pos[0..k];
            assert(prefix@ =~= pos@.take(k as int));
            proof { lemma_safe_take(self.board@, pos@, k as int); }
            match self.board.get(prefix) {
                Some(Cell::Board(b)) => {
                    proof { lemma_get_wf(self.board@, prefix@); }
                    if b.check() != Value::Undecided {
                        assert(completed_at(self.board@, pos@.take(k as int)));
                        return true;
                    }
                },
                _ => {},
            }
        }
        false
    }

    /// Whether a move at `pos` reads only cells that exist, as `play` needs: when it
    /// lies within the legal region, every index of it lies within its board, and unless
    /// a board on the way is finished, the path leads to a cell.
    pub fn can_play(&self, pos: &[usize]) -> (r: bool)
        requires
            self@.wf(),
        ensures
            r == self@.play_safe(pos@),
    {
        if !slice_starts_with(pos, self.legal.as_slice()) {
            return true;
        }
        if !self.board.is_safe_path(pos) {
            return false;
        }
        self.path_finished(pos) || self.board.get(pos).is_some()
    }

    /// Whether taking back the last move reads only cells that exist, as `unplay` needs.
    pub fn can_unplay(&self) -> (r: bool)
        ensures
            r == self@.unplay_safe(),
    {
        let n = self.moves.len();
        if n == 0 {
            return true;
        }
        let last = &self.moves[n - 1];
        assert(self@.moves.last() == last.deep_view());
        if last.len() < 2 {
            return false;
        }
        proof { lemma_deep_view_positions(last@[0]); }
        self.board.is_settable_path(last[0].as_slice())
    }

    /// Removes the last played move
    pub fn unplay(&mut self) -> (r: Result<(), GameError>)
        requires
            old(self)@.unplay_safe(),
        ensures
            r is Ok <==> old(self)@.moves.len() > 0,
            r is Ok ==> final(self)@ == old(self)@.after_unplay(),
            r is Err ==> r == Err::<(), GameError>(GameError::NoMoveToUnplay) && final(self)@ == old(self)@,
    {
        if self.moves.len() == 0 {
            return Err(GameError::NoMoveToUnplay);
        }
        let ghost old_game = self@;
        let mv = self.moves.pop().unwrap();
        assert(mv.deep_view() == old_game.moves.last());
        assert(self.moves.deep_view() =~= old_game.moves.drop_last());
        proof { lemma_deep_view_positions_list(mv); }
        let _ = self.board.set(mv[0].as_slice(), Cell::Empty);
        self.legal = slice_to_vec(mv[1].as_slice());
        self.turn = self.turn.not();
        Ok(())
    }

    /// Returns a list of the legal moves
    pub fn legal_moves(&self) -> (r: Vec<Vec<usize>>)
        requires
            board_wf(self.board@),
            get_safe(self.board@, self.legal@),
            board_get(self.board@, self.legal@) is Some,
        ensures
            r.deep_view() == cell_legal(board_get(self.board@, self.legal@).unwrap(), self.legal@),
    {
        proof { lemma_get_wf(self.board@, self.legal@); }
        let c = self.board.get(self.legal.as_slice()).unwrap();
        c.legal_moves(self.legal.as_slice())
    }
}

/// A copy of a list of moves.
fn copy_moves(v: &Vec<Vec<usize>>) -> (r: Vec<Vec<usize>>)
    ensures
        r.deep_view() == v.deep_view(),
{
    let mut r: Vec<Vec<usize>> = Vec::new();
    let n = v.len();
    for i in 0..n
        invariant
            n == v@.len(),
            r.deep_view() == v.deep_view().take(i as int),
    {
        let c = slice_to_vec(v[i].as_slice());
        let ghost before = r.deep_view();
        r.push(c);
        proof {
            lemma_deep_view_positions(c);
            lemma_deep_view_positions(v@[i as int]);
            assert(r.deep_view() =~= before.push(c.deep_view()));
            assert(v.deep_view()[i as int] == v@[i as int].deep_view());
            assert(v.deep_view().take(i + 1) =~= v.deep_view().take(i as int).push(v.deep_view()[i as int]));
            assert(r.deep_view() =~= v.deep_view().take(i + 1));
        }
    }
    assert(r.deep_view() =~= v.deep_view());
    r
}

impl Clone for Game {
    /// A copy of the game.
    fn clone(&self) -> (r: Self)
        ensures
            r@ == self@,
    {
        let mut moves: Vec<Vec<Vec<usize>>> = Vec::new();
        let n = self.moves.len();
        for i in 0..n
            invariant
                n == self.moves@.len(),
                moves.deep_view() == self.moves.deep_view().take(i as int),
        {
            let c = copy_moves(&self.moves[i]);
            let ghost before = moves.deep_view();
            moves.push(c);
            assert(moves.deep_view() =~= before.push(c.deep_view()));
            assert(self.moves.deep_view()[i as int] == self.moves@[i as int].deep_view());
            assert(self.moves.deep_view().take(i + 1) =~= self.moves.deep_view().take(i as int).push(
                self.moves.deep_view()[i as int],
            ));
            assert(moves.deep_view() =~= self.moves.deep_view().take(i + 1));
        }
        assert(moves.deep_view() =~= self.moves.deep_view());
        Game {
            board: self.board.clone(),
            depth: self.depth,
            turn: self.turn,
            players: self.players,
            moves,
            legal: slice_to_vec(self.legal.as_slice()),
        }
    }
}

impl Default for Game {
    /// A two-player game on a board of the default depth.
    fn default() -> (r: Self)
        ensures
            r@ == (GameModel {
                board: board_of_depth(BOARD_DEFAULT_DEPTH as nat),
                depth: BOARD_DEFAULT_DEPTH,
                turn: Turn::Player1,
                players: 2,
                moves: Seq::empty(),
                legal: Seq::empty(),
            }),
    {
        Game::new_depth(BOARD_DEFAULT_DEPTH, 2)
    }
}

} // verus!
