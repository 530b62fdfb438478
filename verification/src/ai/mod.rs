pub mod comms;
pub mod monte_carlo_policy;
pub mod node;
pub mod random;
pub mod tree;
pub mod monte_carlo;
pub mod search_control;
