//! The decisions of the search thread: which requests start a search, what each round
//! of a running search does, and why a search ended. The thread itself (waiting for
//! messages, reading the clock, sending replies) runs them in turn.
use vstd::prelude::*;

use crate::game::game::{Game, Turn};
use crate::game::model::board_value;
use crate::game::value::Value;
use crate::ui::ui_state::UIState;

use super::monte_carlo_policy::MonteCarloPolicy;

verus! {

/// The settings of one search for a computer move.
#[derive(Debug)]
pub struct SearchSettings {
    /// The game that is being evaluated
    pub game: Game,
    /// The longest the search may run, in milliseconds
    pub timeout_ms: u64,
    /// The largest number of simulations the search may run
    pub max_sims: usize,
    /// The number of threads the search may use
    pub threads: usize,
    /// The player for which the move should be optimised
    pub opt_for: Turn,
    /// Whether the tree should carry forward (unused)
    pub carry_forward: bool,
    /// The policy with which the move should be selected
    pub policy: MonteCarloPolicy,
}

/// How a running search judges the position so far.
#[derive(Debug, Clone, Copy, PartialEq, Eq, Structural)]
pub struct Thoughts {
    /// The number of simulations run
    pub sims: usize,
    /// The sum of the results of those simulations, seen from the player asked about
    pub score: i64,
}

/// The messages passed between the game and the search thread.
#[derive(Debug)]
pub enum SearchMessage {
    /// Requests that the thread begin a search
    Start(SearchSettings),
    /// Stops the running search without a move
    Interrupt,
    /// Asks for the search's judgement, seen from the given player
    GetThoughts(Turn),
    /// The search's judgement
    Thoughts(Thoughts),
    /// The move the search chose (none where the game offered none)
    Move(Option<Vec<usize>>),
    /// Asks the running search to return its move now
    Return,
}

/// What a running search does next.
#[derive(Debug, Clone, Copy, PartialEq, Eq, Structural)]
pub enum SearchAction {
    /// Run one more round of the search
    Step,
    /// Reply with the search's judgement seen from the given player, then run one more
    /// round
    ReplyThoughts(Turn),
    /// Stop without a move
    Abandon,
    /// Stop and send the chosen move
    Finish,
}

/// Why a search ended, as the search thread reports it.
#[derive(Debug, Clone, Copy, PartialEq, Eq, Structural)]
pub enum ExitReason {
    Interrupt,
    Return,
    SimulationCap,
    Timeout,
    CompleteTree,
}

/// The action of a round: with time left and simulations to spare the incoming message
/// decides, else the search finishes.
pub open spec fn round_action_of(within_time: bool, sims: usize, max_sims: usize, incoming: Option<SearchMessage>) -> SearchAction {
    if !within_time || sims >= max_sims {
        SearchAction::Finish
    } else {
        match incoming {
            Some(SearchMessage::Interrupt) => SearchAction::Abandon,
            Some(SearchMessage::GetThoughts(t)) => SearchAction::ReplyThoughts(t),
            Some(SearchMessage::Return) => SearchAction::Finish,
            _ => SearchAction::Step,
        }
    }
}

/// The settings carried by a request to start a search; every other message leaves an
/// idle search thread waiting.
pub fn start_settings(msg: SearchMessage) -> (r: Option<SearchSettings>)
    ensures
        r is Some <==> msg is Start,
        msg matches SearchMessage::Start(s) ==> r == Some(s),
{
    match msg {
        SearchMessage::Start(s) => Some(s),
        _ => None,
    }
}

/// What the next round of a running search does, given whether its time is not yet up,
/// the simulations run so far and allowed, and the message that came in, if any.
pub fn round_action(within_time: bool, sims: usize, max_sims: usize, incoming: Option<SearchMessage>) -> (r: SearchAction)
    ensures
        r == round_action_of(within_time, sims, max_sims, incoming),
{
    if !within_time || sims >= max_sims {
        return SearchAction::Finish;
    }
    match incoming {
        Some(SearchMessage::Interrupt) => SearchAction::Abandon,
        Some(SearchMessage::GetThoughts(t)) => SearchAction::ReplyThoughts(t),
        Some(SearchMessage::Return) => SearchAction::Finish,
        _ => SearchAction::Step,
    }
}

/// Why the search ended. A search that was not interrupted counts as returned on
/// request, since the thread starts each search ready to return; the other reasons come
/// after it, in order.
pub fn exit_reason(interrupted: bool, returned: bool, sims: usize, max_sims: usize, timed_out: bool) -> (r: ExitReason)
    ensures
        r == if interrupted {
            ExitReason::Interrupt
        } else if returned {
            ExitReason::Return
        } else if sims >= max_sims {
            ExitReason::SimulationCap
        } else if timed_out {
            ExitReason::Timeout
        } else {
            ExitReason::CompleteTree
        },
{
    if interrupted {
        ExitReason::Interrupt
    } else if returned {
        ExitReason::Return
    } else if sims >= max_sims {
        ExitReason::SimulationCap
    } else if timed_out {
        ExitReason::Timeout
    } else {
        ExitReason::CompleteTree
    }
}

/// Whether the computer is to move: no human plays, or one human plays the first
/// player and it is the second player's turn.
pub open spec fn computers_turn(players: usize, turn: Turn) -> bool {
    players == 0 || (players == 1 && turn == Turn::Player2)
}

/// A time limit in seconds, in milliseconds, held at `u64::MAX`.
pub open spec fn timeout_ms_of(secs: usize) -> u64 {
    if secs * 1000 > u64::MAX {
        u64::MAX
    } else {
        (secs * 1000) as u64
    }
}

/// The request for a computer move, if one is due: none while a move is awaited or once
/// the game is over; else one when `asked` (the player pressed the key for it) or when
/// it is the computer's turn. The search is of the current game, for the player to
/// move, within the limits of the settings, picking the move with the most simulations.
pub fn computer_move_request(g: &Game, ui: &UIState, waiting: bool, asked: bool) -> (r: Option<SearchSettings>)
    requires
        g@.wf(),
    ensures
        r is Some <==> (!waiting && board_value(g@.board) == Value::Undecided && (asked || computers_turn(
            g.players,
            g.turn,
        ))),
        r matches Some(s) ==> {
            &&& s.game@ == g@
            &&& s.timeout_ms == timeout_ms_of(ui.max_time)
            &&& s.max_sims == ui.max_sims
            &&& s.threads == ui.ai_threads
            &&& s.opt_for == g.turn
            &&& !s.carry_forward
            &&& s.policy == MonteCarloPolicy::Robust
        },
{
    if waiting || g.board.check() != Value::Undecided {
        return None;
    }
    let computer = g.players == 0 || (g.players == 1 && g.turn == Turn::Player2);
    if !asked && !computer {
        return None;
    }
    let timeout_ms = match (ui.max_time as u64).checked_mul(1000) {
        Some(t) => t,
        None => u64::MAX,
    };
    Some(
        SearchSettings {
            game: g.clone(),
            timeout_ms,
            max_sims: ui.max_sims,
            threads: ui.ai_threads,
            opt_for: g.turn,
            carry_forward: false,
            policy: MonteCarloPolicy::Robust,
        },
    )
}

/// The action lets the run go on (it runs one more round of the search).
pub open spec fn continues(a: SearchAction) -> bool {
    a is Step || a is ReplyThoughts
}

/// The action of round `i` of a run that started with `sims` simulations, where round
/// `i` sees whether time is left by `within[i]` and the message `incoming[i]`: every
/// earlier round went on and ran one simulation.
pub open spec fn run_action(
    within: Seq<bool>,
    incoming: Seq<Option<SearchMessage>>,
    sims: nat,
    max_sims: usize,
    i: int,
) -> SearchAction {
    round_action_of(within[i], (sims + i) as usize, max_sims, incoming[i])
}

/// The run ends at round `n`: every earlier round went on and round `n` stopped it.
pub open spec fn run_ends_at(
    within: Seq<bool>,
    incoming: Seq<Option<SearchMessage>>,
    sims: nat,
    max_sims: usize,
    n: int,
) -> bool {
    &&& 0 <= n < within.len()
    &&& n < incoming.len()
    &&& forall|i: int| 0 <= i < n ==> continues(#[trigger] run_action(within, incoming, sims, max_sims, i))
    &&& !continues(run_action(within, incoming, sims, max_sims, n))
}

/// The first round from `i` on that stops the run, or `bound` if none before it does.
pub open spec fn first_stop(
    within: Seq<bool>,
    incoming: Seq<Option<SearchMessage>>,
    sims: nat,
    max_sims: usize,
    i: int,
    bound: int,
) -> int
    decreases bound - i,
{
    if i >= bound || !continues(run_action(within, incoming, sims, max_sims, i)) {
        i
    } else {
        first_stop(within, incoming, sims, max_sims, i + 1, bound)
    }
}

proof fn lemma_first_stop(
    within: Seq<bool>,
    incoming: Seq<Option<SearchMessage>>,
    sims: nat,
    max_sims: usize,
    i: int,
    bound: int,
)
    requires
        0 <= i <= bound,
        forall|j: int| 0 <= j < i ==> continues(#[trigger] run_action(within, incoming, sims, max_sims, j)),
    ensures
        i <= first_stop(within, incoming, sims, max_sims, i, bound) <= bound,
        forall|j: int|
            0 <= j < first_stop(within, incoming, sims, max_sims, i, bound) ==> continues(
                #[trigger] run_action(within, incoming, sims, max_sims, j),
            ),
        first_stop(within, incoming, sims, max_sims, i, bound) < bound ==> !continues(
            run_action(within, incoming, sims, max_sims, first_stop(within, incoming, sims, max_sims, i, bound)),
        ),
    decreases bound - i,
{
    if i < bound && continues(run_action(within, incoming, sims, max_sims, i)) {
        lemma_first_stop(within, incoming, sims, max_sims, i + 1, bound);
    }
}

/// A run that starts within its limit of simulations, and receives no request to stop
/// early, finishes (and so sends its one move) after at most as many rounds as
/// simulations are left, whatever the clock and the other messages do.
pub proof fn law_run_finishes(within: Seq<bool>, incoming: Seq<Option<SearchMessage>>, sims: nat, max_sims: usize)
    requires
        sims <= max_sims,
        within.len() > max_sims - sims,
        incoming.len() > max_sims - sims,
        forall|i: int| 0 <= i < incoming.len() ==> !(#[trigger] incoming[i] matches Some(SearchMessage::Interrupt)),
    ensures
        exists|n: int|
            0 <= n <= max_sims - sims && #[trigger] run_ends_at(within, incoming, sims, max_sims, n) && run_action(
                within,
                incoming,
                sims,
                max_sims,
                n,
            ) == SearchAction::Finish,
{
    let bound = max_sims - sims;
    let last = bound as int;
    lemma_first_stop(within, incoming, sims, max_sims, 0, last + 1);
    let n = first_stop(within, incoming, sims, max_sims, 0, last + 1);
    if n == last + 1 {
        assert(continues(run_action(within, incoming, sims, max_sims, last)));
        assert(false);
    }
    assert(run_ends_at(within, incoming, sims, max_sims, n));
    assert(!(incoming[n] matches Some(SearchMessage::Interrupt)));
}

/// How a run that ends at round `n` went: each earlier round ran a round of the search,
/// answering a request for thoughts with the simulations run so far when it held one;
/// round `n` abandons the run without a move exactly when it held a request to stop
/// while time and simulations were left, and else finishes it with the move. A run
/// that starts within its limit ends within it.
pub proof fn law_run_rounds(
    within: Seq<bool>,
    incoming: Seq<Option<SearchMessage>>,
    sims: nat,
    max_sims: usize,
    n: int,
)
    requires
        sims <= max_sims,
        run_ends_at(within, incoming, sims, max_sims, n),
    ensures
        n <= max_sims - sims,
        forall|i: int|
            0 <= i < n ==> match #[trigger] incoming[i] {
                Some(SearchMessage::GetThoughts(t)) => run_action(within, incoming, sims, max_sims, i)
                    == SearchAction::ReplyThoughts(t),
                _ => run_action(within, incoming, sims, max_sims, i) == SearchAction::Step,
            },
        (run_action(within, incoming, sims, max_sims, n) == SearchAction::Abandon) <==> (within[n] && sims + n
            < max_sims && incoming[n] matches Some(SearchMessage::Interrupt)),
        run_action(within, incoming, sims, max_sims, n) != SearchAction::Abandon ==> run_action(
            within,
            incoming,
            sims,
            max_sims,
            n,
        ) == SearchAction::Finish,
{
    if n > max_sims - sims {
        let j = (max_sims - sims) as int;
        assert(continues(run_action(within, incoming, sims, max_sims, j)));
    }
    assert forall|i: int| 0 <= i < n implies match #[trigger] incoming[i] {
        Some(SearchMessage::GetThoughts(t)) => run_action(within, incoming, sims, max_sims, i)
            == SearchAction::ReplyThoughts(t),
        _ => run_action(within, incoming, sims, max_sims, i) == SearchAction::Step,
    } by {
        assert(continues(run_action(within, incoming, sims, max_sims, i)));
    }
}

} // verus!
