//! Lottery simulation and analysis: draws, prize rules, system tickets,
//! bankroll simulation steps and hot/cold number statistics.
pub mod binomial;
pub mod format;
pub mod config;
pub mod prize;
pub mod random;
pub mod draw;
pub mod simulation;
pub mod summary;
pub mod app_state;
pub mod hot;
