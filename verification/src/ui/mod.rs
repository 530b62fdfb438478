pub mod textbox;
pub mod ui_tab;
pub mod ui_state;
pub mod game_tab;
