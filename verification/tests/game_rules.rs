use noughts::game::board::Board;
use noughts::game::cell::Cell;
use noughts::game::error::GameError;
use noughts::game::game::{Game, Turn};
use noughts::game::value::Value;

fn board_from(marks: &str) -> Board {
    let mut cells = Vec::new();
    for ch in marks.chars() {
        cells.push(match ch {
            'X' => Cell::Player1,
            'O' => Cell::Player2,
            _ => Cell::Empty,
        });
    }
    Board { cells }
}

#[test]
fn new_board_is_empty_and_open() {
    let b = Board::new();
    assert_eq!(b.cells.len(), 9);
    assert!(b.cells.iter().all(|c| *c == Cell::Empty));
    assert_eq!(b.check(), Value::Undecided);
}

#[test]
fn new_depth_nests_boards() {
    let b = Board::new_depth(2);
    assert_eq!(b.cells.len(), 9);
    for c in &b.cells {
        assert_eq!(*c, Cell::Board(Board::new()));
    }
    let b3 = Board::new_depth(3);
    assert_eq!(b3.moves(&[]).len(), 729);
    assert_eq!(Board::new_depth(1), Board::new());
    assert_eq!(Board::new_depth(0), Board::new());
}

#[test]
fn new_cells_keeps_the_cells() {
    let b = Board::new_cells([
        Cell::Player1,
        Cell::Empty,
        Cell::Player2,
        Cell::Empty,
        Cell::Empty,
        Cell::Empty,
        Cell::Empty,
        Cell::Empty,
        Cell::Board(Board::new()),
    ]);
    assert_eq!(b.cells[0], Cell::Player1);
    assert_eq!(b.cells[2], Cell::Player2);
    assert_eq!(b.cells[8], Cell::Board(Board::new()));
}

#[test]
fn check_rows_columns_diagonals() {
    assert_eq!(board_from("XXX......").check(), Value::Player1);
    assert_eq!(board_from("...OOO...").check(), Value::Player2);
    assert_eq!(board_from("......XXX").check(), Value::Player1);
    assert_eq!(board_from("O..O..O..").check(), Value::Player2);
    assert_eq!(board_from(".X..X..X.").check(), Value::Player1);
    assert_eq!(board_from("..O..O..O").check(), Value::Player2);
    assert_eq!(board_from("X...X...X").check(), Value::Player1);
    assert_eq!(board_from("..O.O.O..").check(), Value::Player2);
    assert_eq!(board_from("XX.......").check(), Value::Undecided);
}

#[test]
fn check_draw_and_first_line_wins() {
    assert_eq!(board_from("XOXXOOOXX").check(), Value::Draw);
    // Both players have a line; the first row comes first.
    assert_eq!(board_from("OOO...XXX").check(), Value::Player2);
    // A full board with a line is won, not drawn.
    assert_eq!(board_from("XXXOOXOXO").check(), Value::Player1);
}

#[test]
fn check_of_nested_boards_uses_their_values() {
    let won = board_from("XXX......");
    let mut top = Board::new_depth(2);
    top.cells[0] = Cell::Board(won.clone());
    top.cells[4] = Cell::Board(won.clone());
    top.cells[8] = Cell::Board(won);
    assert_eq!(top.check(), Value::Player1);
    // Three drawn boards in a row do not make a line.
    let drawn = board_from("XOXXOOOXX");
    let mut top2 = Board::new_depth(2);
    top2.cells[0] = Cell::Board(drawn.clone());
    top2.cells[1] = Cell::Board(drawn.clone());
    top2.cells[2] = Cell::Board(drawn);
    assert_eq!(top2.check(), Value::Undecided);
}

#[test]
fn get_follows_paths() {
    let mut b = Board::new_depth(2);
    b.cells[3] = Cell::Board(board_from("....X...."));
    assert_eq!(b.get(&[]), Some(Cell::Board(b.clone())));
    assert_eq!(b.get(&[3]), Some(Cell::Board(board_from("....X...."))));
    assert_eq!(b.get(&[3, 4]), Some(Cell::Player1));
    assert_eq!(b.get(&[3, 5]), Some(Cell::Empty));
    // A path through a mark names nothing.
    assert_eq!(b.get(&[3, 4, 0]), None);
}

#[test]
fn set_writes_and_refuses_paths_through_marks() {
    let mut b = Board::new_depth(2);
    assert_eq!(b.set(&[2, 7], Cell::Player2), Ok(()));
    assert_eq!(b.get(&[2, 7]), Some(Cell::Player2));
    let before = b.clone();
    assert_eq!(b.set(&[2, 7, 1], Cell::Player1), Err(GameError::NoCellAtDepth));
    assert_eq!(b, before);
    assert_eq!(b.set(&[5], Cell::Player1), Ok(()));
    assert_eq!(b.cells[5], Cell::Player1);
}

#[test]
fn moves_and_legal_moves() {
    let b = board_from("XO.......");
    let all = b.moves(&[]);
    assert_eq!(all.len(), 9);
    assert_eq!(all[0], vec![0]);
    let legal = b.legal_moves(&[]);
    assert_eq!(legal, vec![vec![2], vec![3], vec![4], vec![5], vec![6], vec![7], vec![8]]);
    let prefixed = b.legal_moves(&[6]);
    assert_eq!(prefixed[0], vec![6, 2]);
    // A finished board offers nothing, even with empty cells.
    assert!(Cell::Board(board_from("XXX......")).legal_moves(&[]).is_empty());
    assert!(Cell::Player1.legal_moves(&[1]).is_empty());
    assert_eq!(Cell::Empty.legal_moves(&[1]), vec![vec![1]]);
    assert_eq!(Cell::Player2.moves(&[1]), vec![vec![1]]);
}

#[test]
fn dbg_repr_draws_rows() {
    let b = board_from("XO.......");
    assert_eq!(b.dbg_repr(), "XO.\n...\n...\n");
    let mut top = Board::new_depth(2);
    top.cells[4] = Cell::Board(board_from("XOXXOOOXX"));
    assert_eq!(top.dbg_repr(), "...\n.=.\n...\n");
}

#[test]
fn play_places_marks_and_sets_next_board() {
    let mut g = Game::new_depth(2, 2);
    assert_eq!(g.play(&[0, 4]), Ok(()));
    assert_eq!(g.board.get(&[0, 4]), Some(Cell::Player1));
    assert_eq!(g.turn, Turn::Player2);
    assert_eq!(g.legal, vec![4]);
    assert_eq!(g.moves, vec![vec![vec![0, 4], vec![]]]);
    assert_eq!(g.play(&[4, 0]), Ok(()));
    assert_eq!(g.board.get(&[4, 0]), Some(Cell::Player2));
    assert_eq!(g.legal, vec![0]);
    assert_eq!(g.turn, Turn::Player1);
}

#[test]
fn play_errors() {
    let mut g = Game::new_depth(2, 2);
    g.play(&[0, 4]).unwrap();
    let before = g.clone();
    assert_eq!(g.play(&[3, 3]), Err(GameError::NotInPlay));
    assert_eq!(g.play(&[4]), Err(GameError::IsBoard));
    assert_eq!(g, before);
    g.play(&[4, 4]).unwrap();
    assert_eq!(g.play(&[4, 4]), Err(GameError::Filled));
    let mut one = Game::new_depth(1, 2);
    one.play(&[0]).unwrap();
    assert_eq!(one.play(&[0]), Err(GameError::Filled));
    assert_eq!(one.play(&[]), Err(GameError::IsBoard));
}

#[test]
fn play_into_finished_board_is_refused() {
    let mut g = Game::new_depth(3, 2);
    g.board.cells[0] = Cell::Board(board_from("XXX......"));
    assert_eq!(g.play(&[0, 0, 5]), Err(GameError::BoardCompleted));
    // Every board on the way to the cell is checked, the one that holds it included.
    let mut d2 = Game::new_depth(2, 2);
    d2.board.cells[0] = Cell::Board(board_from("XXX......"));
    assert_eq!(d2.play(&[0, 5]), Err(GameError::BoardCompleted));
    // A finished top board refuses every move.
    let mut h = Game::new_depth(1, 2);
    h.board = board_from("XXX......");
    assert_eq!(h.play(&[5]), Err(GameError::BoardCompleted));
}

#[test]
fn unplay_undoes_play() {
    let mut g = Game::new_depth(2, 2);
    g.play(&[0, 4]).unwrap();
    let snapshot = g.clone();
    g.play(&[4, 8]).unwrap();
    assert_ne!(g, snapshot);
    assert_eq!(g.unplay(), Ok(()));
    assert_eq!(g, snapshot);
    assert_eq!(g.unplay(), Ok(()));
    assert_eq!(g, Game::new_depth(2, 2));
    assert_eq!(g.unplay(), Err(GameError::NoMoveToUnplay));
    assert_eq!(g, Game::new_depth(2, 2));
}

#[test]
fn next_board_is_anywhere_when_target_is_finished() {
    let mut g = Game::new_depth(2, 2);
    g.board.cells[4] = Cell::Board(board_from("OOO......"));
    g.play(&[0, 4]).unwrap();
    assert_eq!(g.legal, Vec::<usize>::new());
    assert_eq!(g.get_legal(&[0, 4]), Vec::<usize>::new());
    assert_eq!(g.get_legal(&[1, 2]), vec![2]);
}

#[test]
fn next_board_rises_after_a_finished_board_at_depth_three() {
    let mut g = Game::new_depth(3, 2);
    // Board [0, 0] is one mark short of a win for crosses.
    g.board.set(&[0, 0, 0], Cell::Player1).unwrap();
    g.board.set(&[0, 0, 1], Cell::Player1).unwrap();
    g.play(&[0, 0, 2]).unwrap();
    // The move won board [0, 0], so it counts as a move at [0, 0]: next is board [0].
    assert_eq!(g.legal, vec![0]);
    let mut h = Game::new_depth(3, 2);
    h.play(&[0, 0, 2]).unwrap();
    assert_eq!(h.legal, vec![0, 2]);
}

#[test]
fn legal_moves_of_a_game() {
    let g = Game::new_depth(2, 2);
    assert_eq!(g.legal_moves().len(), 81);
    let mut h = Game::new_depth(2, 2);
    h.play(&[0, 4]).unwrap();
    let m = h.legal_moves();
    assert_eq!(m.len(), 9);
    assert!(m.iter().all(|p| p[0] == 4));
    let mut one = Game::new_depth(1, 2);
    for p in [[0], [3], [1], [4], [2]] {
        one.play(&p).unwrap();
    }
    assert_eq!(one.board.check(), Value::Player1);
    assert!(one.legal_moves().is_empty());
}

#[test]
fn every_offered_move_is_accepted() {
    let mut g = Game::new_depth(2, 2);
    g.play(&[0, 4]).unwrap();
    for m in g.legal_moves() {
        let mut h = g.clone();
        assert_eq!(h.play(&m), Ok(()));
        assert!(h.is_sound());
        assert_eq!(h.unplay(), Ok(()));
        assert_eq!(h, g);
    }
}

#[test]
fn a_random_game_ends() {
    let mut g = Game::new_depth(2, 2);
    let mut plays = 0;
    while g.board.check() == Value::Undecided {
        let moves = g.legal_moves();
        assert!(!moves.is_empty());
        let m = moves[plays * 7 % moves.len()].clone();
        g.play(&m).unwrap();
        plays += 1;
        assert!(plays <= 81);
    }
    for _ in 0..plays {
        g.unplay().unwrap();
    }
    assert_eq!(g, Game::new_depth(2, 2));
}

#[test]
fn soundness_check() {
    assert!(Game::new_depth(2, 2).is_sound());
    assert!(Game::default().is_sound());
    let mut g = Game::new_depth(2, 2);
    g.board.cells.pop();
    assert!(!g.is_sound());
    let mut h = Game::new_depth(2, 2);
    h.board.cells[3] = Cell::Board(board_from("XXX......"));
    h.legal = vec![3];
    assert!(!h.is_sound());
    assert!(!Board { cells: vec![Cell::Empty; 8] }.is_well_formed());
    assert!(Board::new_depth(3).is_well_formed());
}

#[test]
fn turn_values_and_opponents() {
    assert_eq!(Turn::Player1.val(), Value::Player1);
    assert_eq!(Turn::Player2.val(), Value::Player2);
    assert_eq!(Turn::Player1.not(), Turn::Player2);
    assert_eq!(Turn::Player2.not().not(), Turn::Player2);
}

#[test]
fn cell_values() {
    assert_eq!(Cell::Empty.value(), Value::Undecided);
    assert_eq!(Cell::Player1.value(), Value::Player1);
    assert_eq!(Cell::Player2.value(), Value::Player2);
    assert_eq!(Cell::Board(board_from("XOXXOOOXX")).value(), Value::Draw);
}

#[test]
fn error_messages() {
    assert_eq!(GameError::NotInPlay.message(), "Illegal move: Move is not within bounds of current play");
    assert_eq!(GameError::BoardCompleted.message(), "Illegal move: Board already completed");
    assert_eq!(GameError::IsBoard.message(), "Illegal move: That's a board");
    assert_eq!(GameError::Filled.message(), "Illegal move: Cell already filled");
    assert_eq!(GameError::NoCellAtDepth.message(), "No cell at specified depth");
    assert_eq!(GameError::NoMoveToUnplay.message(), "No move to unplay");
}

#[test]
fn default_game() {
    let g = Game::default();
    assert_eq!(g.depth, 2);
    assert_eq!(g.players, 2);
    assert_eq!(g.turn, Turn::Player1);
    assert_eq!(g.board, Board::new_depth(2));
}

#[test]
fn move_derefs_to_its_positions() {
    let m = noughts::game::game::Move(vec![1, 2]);
    assert_eq!(m.len(), 2);
    assert_eq!(m[1], 2);
}

#[test]
fn safe_paths() {
    let b = Board::new_depth(2);
    assert!(b.is_safe_path(&[]));
    assert!(b.is_safe_path(&[8]));
    assert!(b.is_safe_path(&[8, 8]));
    assert!(!b.is_safe_path(&[9]));
    assert!(!b.is_safe_path(&[0, 9]));
    // Below a plain cell nothing more is read.
    assert!(b.is_safe_path(&[0, 0, 12]));
    assert!(!b.is_settable_path(&[]));
    assert!(b.is_settable_path(&[4, 4]));
    assert!(!b.is_settable_path(&[4, 10]));
    assert!(!b.is_settable_path(&[10]));
}

#[test]
fn playing_and_unplaying_need_existing_cells() {
    let mut g = Game::new_depth(2, 2);
    assert!(g.can_play(&[0, 4]));
    assert!(g.can_play(&[9, 9]) == false);
    assert!(g.can_play(&[0, 9]) == false);
    assert!(g.can_unplay());
    g.play(&[0, 4]).unwrap();
    // Outside the legal region (the board at 4) nothing is read.
    assert!(g.can_play(&[9, 9]));
    assert!(!g.can_play(&[4, 9]));
    assert!(g.can_unplay());
    g.moves.push(vec![vec![4, 12], vec![]]);
    assert!(!g.can_unplay());
    g.moves.pop();
    g.moves.push(vec![vec![4, 1]]);
    assert!(!g.can_unplay());
}

fn empties(b: &Board) -> usize {
    b.cells
        .iter()
        .map(|c| match c {
            Cell::Empty => 1,
            Cell::Board(inner) => empties(inner),
            _ => 0,
        })
        .sum()
}

#[test]
fn offered_moves_are_distinct_and_each_fills_one_cell() {
    let mut g = Game::new_depth(2, 2);
    for step in 0..12 {
        let moves = g.legal_moves();
        for (i, a) in moves.iter().enumerate() {
            for b in &moves[i + 1..] {
                assert_ne!(a, b);
            }
        }
        if moves.is_empty() {
            break;
        }
        let before = empties(&g.board);
        g.play(&moves[(step * 5) % moves.len()]).unwrap();
        assert_eq!(empties(&g.board) + 1, before);
    }
}

#[test]
fn writing_leaves_other_paths_alone() {
    let mut b = Board::new_depth(2);
    b.set(&[1, 4], Cell::Player2).unwrap();
    let before = b.clone();
    b.set(&[0, 4], Cell::Player1).unwrap();
    assert_eq!(b.get(&[0, 4]), Some(Cell::Player1));
    assert_eq!(b.get(&[1, 4]), before.get(&[1, 4]));
    assert_eq!(b.get(&[0, 3]), before.get(&[0, 3]));
    assert_eq!(b.get(&[8]), before.get(&[8]));
}

#[test]
fn a_won_small_board_takes_no_more_moves() {
    let mut g = Game::new_depth(2, 2);
    for m in [[0, 1], [1, 0], [0, 2], [2, 0], [0, 0]] {
        g.play(&m).unwrap();
    }
    assert!(g.legal.is_empty());
    assert!(!g.legal_moves().contains(&vec![0, 5]));
    assert!(g.can_play(&[0, 5]));
    let before = g.clone();
    assert_eq!(g.play(&[0, 5]), Err(GameError::BoardCompleted));
    assert_eq!(g, before);
    assert_eq!(g.play(&[1, 5]), Ok(()));
}

#[test]
fn play_accepts_exactly_the_offered_moves() {
    let mut g = Game::new_depth(2, 2);
    for step in 0..15 {
        let offered = g.legal_moves();
        if offered.is_empty() {
            break;
        }
        for a in 0..9 {
            for b in 0..9 {
                let pos = vec![a, b];
                let mut h = g.clone();
                assert_eq!(h.play(&pos).is_ok(), offered.contains(&pos));
            }
        }
        g.play(&offered[(step * 7) % offered.len()]).unwrap();
    }
}
