pub mod chain;
pub mod genesis;
pub mod state;
