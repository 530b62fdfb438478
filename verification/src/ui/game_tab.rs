//! The texts of the game tab: the labels of the moves played and the line that says whose
//! turn it is or how the game ended.
use vstd::prelude::*;

use crate::game::game::{Game, Turn};
use crate::game::model::board_value;
use crate::game::value::Value;

verus! {

/// The decimal digits.
pub open spec fn decimal_digits() -> Seq<char> {
    seq!['0', '1', '2', '3', '4', '5', '6', '7', '8', '9']
}

/// The decimal text of a number.
pub open spec fn decimal(n: nat) -> Seq<char>
    decreases n,
{
    if n < 10 {
        seq![decimal_digits()[n as int]]
    } else {
        decimal(n / 10) + seq![decimal_digits()[(n % 10) as int]]
    }
}

/// The label of a move: its indices counted from one, joined by ", ".
pub open spec fn label_of(pos: Seq<usize>) -> Seq<char>
    decreases pos.len(),
{
    if pos.len() == 0 {
        Seq::empty()
    } else if pos.len() == 1 {
        decimal((pos[0] + 1) as nat)
    } else {
        label_of(pos.drop_last()) + ", "@ + decimal((pos.last() + 1) as nat)
    }
}

/// The line of the game tab: how the game ended, or whose turn it is.
pub open spec fn status_of(value: Value, turn: Turn) -> Seq<char> {
    match value {
        Value::Draw => "Draw"@,
        Value::Player1 => "Crosses Win"@,
        Value::Player2 => "Noughts Win"@,
        Value::Undecided => if turn == Turn::Player1 {
            "Crosses' Turn"@
        } else {
            "Noughts' Turn"@
        },
    }
}

/// One decimal digit.
fn digit(n: usize) -> (r: &'static str)
    requires
        n < 10,
    ensures
        r@ == seq![decimal_digits()[n as int]],
{
    match n {
        0 => { proof { reveal_strlit("0"); } "0" },
        1 => { proof { reveal_strlit("1"); } "1" },
        2 => { proof { reveal_strlit("2"); } "2" },
        3 => { proof { reveal_strlit("3"); } "3" },
        4 => { proof { reveal_strlit("4"); } "4" },
        5 => { proof { reveal_strlit("5"); } "5" },
        6 => { proof { reveal_strlit("6"); } "6" },
        7 => { proof { reveal_strlit("7"); } "7" },
        8 => { proof { reveal_strlit("8"); } "8" },
        _ => { proof { reveal_strlit("9"); } "9" },
    }
}

/// Appends the decimal text of `n`.
fn append_decimal(out: &mut String, n: usize)
    ensures
        final(out)@ == old(out)@ + decimal(n as nat),
    decreases n,
{
    if n >= 10 {
        append_decimal(out, n / 10);
    }
    out.append(digit(n % 10));
    proof {
        if n >= 10 {
            assert(old(out)@ + decimal((n / 10) as nat) + seq![decimal_digits()[(n % 10) as int]]
                =~= old(out)@ + decimal(n as nat));
        } else {
            assert(n % 10 == n);
        }
    }
}

/// The label of a move in the list of moves: its indices counted from one, joined by
/// ", ".
pub fn move_label(pos: &[usize]) -> (r: String)
    requires
        forall|i: int| 0 <= i < pos@.len() ==> pos@[i] < usize::MAX,
    ensures
        r@ == label_of(pos@),
{
    let mut out = String::new();
    let n = pos.len();
    for i in 0..n
        invariant
            n == pos@.len(),
            forall|j: int| 0 <= j < pos@.len() ==> pos@[j] < usize::MAX,
            out@ == label_of(pos@.take(i as int)),
    {
        let ghost before = out@;
        if i > 0 {
            out.append(", ");
        }
        append_decimal(&mut out, pos[i] + 1);
        proof {
            let t = pos@.take(i + 1);
            assert(t.drop_last() =~= pos@.take(i as int));
            assert(t.last() == pos@[i as int]);
            if i == 0 {
                assert(before =~= Seq::<char>::empty());
                assert(out@ =~= decimal((pos@[0] + 1) as nat));
            } else {
                assert(out@ =~= label_of(pos@.take(i as int)) + ", "@ + decimal((pos@[i as int] + 1) as nat));
            }
        }
    }
    proof {
        assert(pos@.take(n as int) =~= pos@);
    }
    out
}

/// The line of the game tab for a game: how it ended, or whose turn it is.
pub fn status_text(g: &Game) -> (r: &'static str)
    requires
        g@.wf(),
    ensures
        r@ == status_of(board_value(g@.board), g.turn),
{
    match g.board.check() {
        Value::Draw => "Draw",
        Value::Player1 => "Crosses Win",
        Value::Player2 => "Noughts Win",
        Value::Undecided => {
            if g.turn == Turn::Player1 {
                "Crosses' Turn"
            } else {
                "Noughts' Turn"
            }
        },
    }
}

} // verus!
