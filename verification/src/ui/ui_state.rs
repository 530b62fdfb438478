use vstd::prelude::*;

use crate::game::symbol::Symbol;
use crate::styles::{
    BOARD_DEFAULT_DEPTH, BOARD_DEFAULT_PLAYERS, COMPUTER_DEFAULT_STRENGTH, COMPUTER_LEVEL_1_SIMS,
    COMPUTER_LEVEL_2_SIMS, COMPUTER_LEVEL_3_SIMS, COMPUTER_SIM_SCALING, DEFAULT_MAX_TIME,
};

use super::textbox::Textbox;

verus! {

/// The settings chosen in the side panel.
#[derive(Debug, Clone, Copy, PartialEq, Eq)]
pub struct UIState {
    pub depth: usize,
    pub players: usize,
    pub ai_strength: usize,
    pub max_sims: usize,
    pub max_time: usize,
    pub ai_threads: usize,
    pub is_ai_modified: bool,
    pub player_1: Symbol,
    pub player_2: Symbol,
}

/// The simulations per move of a computer strength before depth scaling.
pub open spec fn level_sims(strength: usize) -> nat {
    if strength == 1 {
        COMPUTER_LEVEL_1_SIMS as nat
    } else if strength == 2 {
        COMPUTER_LEVEL_2_SIMS as nat
    } else if strength == 3 {
        COMPUTER_LEVEL_3_SIMS as nat
    } else {
        0
    }
}

/// `base` to the power `exp`.
pub open spec fn power(base: nat, exp: nat) -> nat
    decreases exp,
{
    if exp == 0 {
        1
    } else {
        base * power(base, (exp - 1) as nat)
    }
}

/// `x * 10 + d`, held at `usize::MAX` where it would not fit, as typing a digit does.
pub open spec fn append_digit(x: usize, d: usize) -> usize {
    let m = if x * 10 > usize::MAX { usize::MAX as int } else { x * 10 };
    if m + d > usize::MAX {
        usize::MAX
    } else {
        (m + d) as usize
    }
}

/// Removing the last digit of a number that a digit was just typed into gives the number
/// back, unless typing it went past `usize::MAX` and was held there.
pub proof fn law_backspace_undoes_digit(x: usize, d: usize)
    requires
        d < 10,
        x * 10 + d <= usize::MAX,
    ensures
        append_digit(x, d) / 10 == x,
{
}

/// The buttons of the settings tab.
#[derive(Debug, Clone, Copy, PartialEq, Eq, Structural)]
pub enum SettingsButton {
    DepthPlus,
    DepthMinus,
    Players0,
    Players1,
    Players2,
    NewGame,
    Ai1,
    Ai2,
    Ai3,
    AiMaxSims,
    AiMaxTime,
}

/// What a click in the settings tab asks of the rest of the program.
#[derive(Debug, Clone, Copy, PartialEq, Eq, Structural)]
pub enum SettingsAction {
    /// Nothing beyond the change of settings
    Nothing,
    /// Start a new game with the chosen depth and players
    NewGame,
    /// Send typed digits to this text box
    Focus(Textbox),
}

fn saturating_append(x: usize, d: usize) -> (r: usize)
    requires
        d < 10,
    ensures
        r == append_digit(x, d),
{
    let m = match x.checked_mul(10) {
        Some(m) => m,
        None => usize::MAX,
    };
    match m.checked_add(d) {
        Some(r) => r,
        None => usize::MAX,
    }
}

impl UIState {
    pub fn new() -> (r: UIState)
        ensures
            r.depth == BOARD_DEFAULT_DEPTH,
            r.players == BOARD_DEFAULT_PLAYERS,
            r.ai_strength == COMPUTER_DEFAULT_STRENGTH,
            r.max_sims == level_sims(COMPUTER_DEFAULT_STRENGTH) * power(
                COMPUTER_SIM_SCALING as nat,
                (BOARD_DEFAULT_DEPTH - 1) as nat,
            ),
            r.max_time == DEFAULT_MAX_TIME,
            r.ai_threads == 1,
            !r.is_ai_modified,
            r.player_1 == Symbol::Cross,
            r.player_2 == Symbol::Nought,
    {
        let l = match COMPUTER_DEFAULT_STRENGTH {
            1 => COMPUTER_LEVEL_1_SIMS,
            2 => COMPUTER_LEVEL_2_SIMS,
            3 => COMPUTER_LEVEL_3_SIMS,
            _ => 0,
        };
        let mut scale: usize = 1;
        let mut i: usize = 0;
        while i < BOARD_DEFAULT_DEPTH - 1
            invariant
                i <= BOARD_DEFAULT_DEPTH - 1,
                scale == power(COMPUTER_SIM_SCALING as nat, i as nat),
            decreases BOARD_DEFAULT_DEPTH - 1 - i,
        {
            scale = scale * COMPUTER_SIM_SCALING;
            i = i + 1;
        }
        assert(scale == 6) by {
            reveal_with_fuel(power, 2);
        }
        UIState {
            depth: BOARD_DEFAULT_DEPTH,
            players: BOARD_DEFAULT_PLAYERS,
            ai_strength: COMPUTER_DEFAULT_STRENGTH,
            max_sims: l * scale,
            max_time: DEFAULT_MAX_TIME,
            ai_threads: 1,
            is_ai_modified: false,
            player_1: Symbol::Cross,
            player_2: Symbol::Nought,
        }
    }

    /// Types a digit into the focused text box: the value gains the digit on the right,
    /// held at `usize::MAX`.
    pub fn type_digit(&mut self, typing: Textbox, digit: usize)
        requires
            digit < 10,
        ensures
            typing == Textbox::MaxSims ==> final(self).max_sims == append_digit(old(self).max_sims, digit)
                && final(self).is_ai_modified && final(self).max_time == old(self).max_time,
            typing == Textbox::MaxTime ==> final(self).max_time == append_digit(old(self).max_time, digit)
                && final(self).max_sims == old(self).max_sims
                && final(self).is_ai_modified == old(self).is_ai_modified,
            typing == Textbox::Unfocused ==> *final(self) == *old(self),
            final(self).depth == old(self).depth,
            final(self).players == old(self).players,
            final(self).ai_strength == old(self).ai_strength,
            final(self).ai_threads == old(self).ai_threads,
            final(self).player_1 == old(self).player_1,
            final(self).player_2 == old(self).player_2,
    {
        match typing {
            Textbox::MaxSims => {
                self.max_sims = saturating_append(self.max_sims, digit);
                self.is_ai_modified = true;
            },
            Textbox::MaxTime => {
                self.max_time = saturating_append(self.max_time, digit);
            },
            Textbox::Unfocused => {},
        }
    }

    /// Handles the backspace key: removes the last digit of the focused text box, or,
    /// when no box is focused, asks for the last move to be taken back (returns `true`).
    pub fn backspace(&mut self, typing: Textbox) -> (unplay: bool)
        ensures
            unplay == (typing == Textbox::Unfocused),
            typing == Textbox::MaxSims ==> final(self).max_sims == old(self).max_sims / 10
                && final(self).max_time == old(self).max_time,
            typing == Textbox::MaxTime ==> final(self).max_time == old(self).max_time / 10
                && final(self).max_sims == old(self).max_sims,
            typing == Textbox::Unfocused ==> final(self).max_sims == old(self).max_sims
                && final(self).max_time == old(self).max_time,
            final(self).is_ai_modified == (old(self).is_ai_modified || typing != Textbox::MaxTime),
            final(self).depth == old(self).depth,
            final(self).players == old(self).players,
            final(self).ai_strength == old(self).ai_strength,
            final(self).ai_threads == old(self).ai_threads,
            final(self).player_1 == old(self).player_1,
            final(self).player_2 == old(self).player_2,
    {
        match typing {
            Textbox::MaxSims => {
                self.max_sims = self.max_sims / 10;
                self.is_ai_modified = true;
                false
            },
            Textbox::MaxTime => {
                self.max_time = self.max_time / 10;
                false
            },
            Textbox::Unfocused => {
                self.is_ai_modified = true;
                true
            },
        }
    }

    /// Applies a click on a button of the settings tab.
    pub fn click_setting(&mut self, button: SettingsButton) -> (r: SettingsAction)
        requires
            button == SettingsButton::DepthPlus ==> old(self).depth < usize::MAX,
            button == SettingsButton::DepthMinus ==> old(self).depth >= 1,
        ensures
            r == match button {
                SettingsButton::NewGame => SettingsAction::NewGame,
                SettingsButton::AiMaxSims => SettingsAction::Focus(Textbox::MaxSims),
                SettingsButton::AiMaxTime => SettingsAction::Focus(Textbox::MaxTime),
                _ => SettingsAction::Nothing,
            },
            final(self).depth == match button {
                SettingsButton::DepthPlus => (old(self).depth + 1) as usize,
                SettingsButton::DepthMinus => if old(self).depth <= 1 { 1 } else { (old(self).depth - 1) as usize },
                _ => old(self).depth,
            },
            final(self).players == match button {
                SettingsButton::Players0 => 0,
                SettingsButton::Players1 => 1,
                SettingsButton::Players2 => 2,
                _ => old(self).players,
            },
            final(self).ai_strength == match button {
                SettingsButton::Ai1 => 1,
                SettingsButton::Ai2 => 2,
                SettingsButton::Ai3 => 3,
                _ => old(self).ai_strength,
            },
            final(self).max_sims == old(self).max_sims,
            final(self).max_time == old(self).max_time,
            final(self).ai_threads == old(self).ai_threads,
            final(self).is_ai_modified == old(self).is_ai_modified,
            final(self).player_1 == old(self).player_1,
            final(self).player_2 == old(self).player_2,
    {
        match button {
            SettingsButton::DepthPlus => {
                self.depth = self.depth + 1;
                SettingsAction::Nothing
            },
            SettingsButton::DepthMinus => {
                self.depth = self.depth - 1;
                if self.depth < 1 {
                    self.depth = 1;
                }
                SettingsAction::Nothing
            },
            SettingsButton::Players0 => {
                self.players = 0;
                SettingsAction::Nothing
            },
            SettingsButton::Players1 => {
                self.players = 1;
                SettingsAction::Nothing
            },
            SettingsButton::Players2 => {
                self.players = 2;
                SettingsAction::Nothing
            },
            SettingsButton::NewGame => SettingsAction::NewGame,
            SettingsButton::Ai1 => {
                self.ai_strength = 1;
                SettingsAction::Nothing
            },
            SettingsButton::Ai2 => {
                self.ai_strength = 2;
                SettingsAction::Nothing
            },
            SettingsButton::Ai3 => {
                self.ai_strength = 3;
                SettingsAction::Nothing
            },
            SettingsButton::AiMaxSims => SettingsAction::Focus(Textbox::MaxSims),
            SettingsButton::AiMaxTime => SettingsAction::Focus(Textbox::MaxTime),
        }
    }
}

} // verus!
