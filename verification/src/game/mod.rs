pub mod value;
pub mod error;
pub mod model;
pub mod cell;
pub mod board;
pub mod game;
pub mod legal;
pub mod symbol;
pub mod laws;
