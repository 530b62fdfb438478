use std::sync::mpsc;

use noughts::ai::comms::Comms;
use noughts::common::window_title;
use noughts::game::game::Game;
use noughts::ui::game_tab::{move_label, status_text};
use noughts::game::symbol::Symbol;
use noughts::ui::textbox::Textbox;
use noughts::ui::ui_state::{SettingsAction, SettingsButton, UIState};

#[test]
fn default_settings() {
    let s = UIState::new();
    assert_eq!(s.depth, 2);
    assert_eq!(s.players, 2);
    assert_eq!(s.ai_strength, 2);
    assert_eq!(s.max_sims, 180);
    assert_eq!(s.max_time, 10);
    assert_eq!(s.ai_threads, 1);
    assert!(!s.is_ai_modified);
    assert_eq!(s.player_1, Symbol::Cross);
    assert_eq!(s.player_2, Symbol::Nought);
}

#[test]
fn typing_digits_appends_them() {
    let mut s = UIState::new();
    s.type_digit(Textbox::MaxSims, 7);
    assert_eq!(s.max_sims, 1807);
    assert!(s.is_ai_modified);
    assert_eq!(s.max_time, 10);

    let mut t = UIState::new();
    t.type_digit(Textbox::MaxTime, 5);
    assert_eq!(t.max_time, 105);
    assert_eq!(t.max_sims, 180);
    assert!(!t.is_ai_modified);

    let mut u = UIState::new();
    u.type_digit(Textbox::Unfocused, 3);
    assert_eq!(u, UIState::new());
}

#[test]
fn typing_digits_holds_at_the_largest_number() {
    let mut s = UIState::new();
    s.max_sims = usize::MAX;
    s.type_digit(Textbox::MaxSims, 9);
    assert_eq!(s.max_sims, usize::MAX);
    s.max_time = usize::MAX / 10;
    s.type_digit(Textbox::MaxTime, 9);
    assert_eq!(s.max_time, usize::MAX);
}

#[test]
fn backspace_removes_a_digit_or_asks_for_an_unplay() {
    let mut s = UIState::new();
    assert!(!s.backspace(Textbox::MaxSims));
    assert_eq!(s.max_sims, 18);
    assert!(s.is_ai_modified);

    let mut t = UIState::new();
    assert!(!t.backspace(Textbox::MaxTime));
    assert_eq!(t.max_time, 1);
    assert!(!t.is_ai_modified);
    assert!(!t.backspace(Textbox::MaxTime));
    assert!(!t.backspace(Textbox::MaxTime));
    assert_eq!(t.max_time, 0);

    let mut u = UIState::new();
    assert!(u.backspace(Textbox::Unfocused));
    assert_eq!(u.max_sims, 180);
    assert_eq!(u.max_time, 10);
    assert!(u.is_ai_modified);
}

#[test]
fn settings_buttons() {
    let mut s = UIState::new();
    assert_eq!(s.click_setting(SettingsButton::DepthPlus), SettingsAction::Nothing);
    assert_eq!(s.depth, 3);
    s.click_setting(SettingsButton::DepthMinus);
    s.click_setting(SettingsButton::DepthMinus);
    assert_eq!(s.depth, 1);
    s.click_setting(SettingsButton::DepthMinus);
    assert_eq!(s.depth, 1);

    s.click_setting(SettingsButton::Players0);
    assert_eq!(s.players, 0);
    s.click_setting(SettingsButton::Players1);
    assert_eq!(s.players, 1);
    s.click_setting(SettingsButton::Players2);
    assert_eq!(s.players, 2);

    s.click_setting(SettingsButton::Ai1);
    assert_eq!(s.ai_strength, 1);
    s.click_setting(SettingsButton::Ai3);
    assert_eq!(s.ai_strength, 3);
    s.click_setting(SettingsButton::Ai2);
    assert_eq!(s.ai_strength, 2);

    assert_eq!(s.click_setting(SettingsButton::NewGame), SettingsAction::NewGame);
    assert_eq!(
        s.click_setting(SettingsButton::AiMaxSims),
        SettingsAction::Focus(Textbox::MaxSims)
    );
    assert_eq!(
        s.click_setting(SettingsButton::AiMaxTime),
        SettingsAction::Focus(Textbox::MaxTime)
    );
    assert_eq!(s.max_sims, 180);
    assert_eq!(s.max_time, 10);
}

#[test]
fn symbol_names() {
    assert_eq!(Symbol::Cross.name(), "Crosses");
    assert_eq!(Symbol::Nought.name(), "Noughts");
    assert_eq!(Symbol::Thorn.name(), "Thorns");
    assert_eq!(Symbol::Barbeque.name(), "Barbeques");
    assert_eq!(Symbol::Cross.name_apostrophe(), "Crosses'");
    assert_eq!(Symbol::Barbeque.name_apostrophe(), "Barbeques'");
}

#[test]
fn symbols_cycle() {
    assert_eq!(Symbol::Cross.next(), Symbol::Nought);
    assert_eq!(Symbol::Nought.next(), Symbol::Thorn);
    assert_eq!(Symbol::Thorn.next(), Symbol::Barbeque);
    assert_eq!(Symbol::Barbeque.next(), Symbol::Cross);
    assert_eq!(Symbol::Cross.prev(), Symbol::Barbeque);
    for s in [Symbol::Cross, Symbol::Nought, Symbol::Thorn, Symbol::Barbeque] {
        assert_eq!(s.next().prev(), s);
        assert_eq!(s.prev().next(), s);
        assert_eq!(s.next().next().next().next(), s);
    }
}

#[test]
fn window_titles() {
    assert_eq!(
        window_title(2, Symbol::Cross, Symbol::Nought),
        "Super Noughts and Crosses"
    );
    assert_eq!(window_title(1, Symbol::Cross, Symbol::Nought), "Noughts and Crosses");
    assert_eq!(
        window_title(3, Symbol::Thorn, Symbol::Barbeque),
        "Super Super Barbeques and Thorns"
    );
}

#[test]
fn comms_carry_messages_both_ways() {
    let (to_b, from_a) = mpsc::sync_channel::<u32>(4);
    let (to_a, from_b) = mpsc::sync_channel::<u32>(4);
    let a = Comms::new(from_b, to_b);
    let b = Comms::new(from_a, to_a);
    assert!(a.try_recv().is_err());
    a.send(7).unwrap();
    assert_eq!(b.recv().unwrap(), 7);
    b.send(9).unwrap();
    assert_eq!(a.try_recv().unwrap(), 9);
    drop(b);
    assert!(a.recv().is_err());
    assert!(a.send(1).is_err());
}

#[test]
fn backspace_undoes_a_typed_digit() {
    for d in 0..10 {
        let mut s = UIState::new();
        s.type_digit(Textbox::MaxSims, d);
        s.backspace(Textbox::MaxSims);
        assert_eq!(s.max_sims, 180);
        s.type_digit(Textbox::MaxTime, d);
        s.backspace(Textbox::MaxTime);
        assert_eq!(s.max_time, 10);
    }
    // Held at the largest number, the digit is not given back.
    let mut t = UIState::new();
    t.max_sims = usize::MAX;
    t.type_digit(Textbox::MaxSims, 5);
    t.backspace(Textbox::MaxSims);
    assert_eq!(t.max_sims, usize::MAX / 10);
}

#[test]
fn move_labels_and_status_lines() {
    assert_eq!(move_label(&[0, 4]), "1, 5");
    assert_eq!(move_label(&[8]), "9");
    assert_eq!(move_label(&[]), "");
    assert_eq!(move_label(&[9, 99, 0]), "10, 100, 1");
    let mut g = Game::new_depth(1, 2);
    assert_eq!(status_text(&g), "Crosses' Turn");
    g.play(&[0]).unwrap();
    assert_eq!(status_text(&g), "Noughts' Turn");
    for m in [[3], [1], [4], [2]] {
        g.play(&m).unwrap();
    }
    assert_eq!(status_text(&g), "Crosses Win");
    let mut h = Game::new_depth(1, 2);
    for m in [[0], [3], [1], [4], [8], [5]] {
        h.play(&m).unwrap();
    }
    assert_eq!(status_text(&h), "Noughts Win");
    let mut d = Game::new_depth(1, 2);
    for m in [[0], [1], [2], [4], [3], [5], [7], [6], [8]] {
        d.play(&m).unwrap();
    }
    assert_eq!(status_text(&d), "Draw");
}
