//! Game rules, lobby decisions and request checks of a minesweeper server.
use vstd::prelude::*;

pub mod auth;
pub mod board;
pub mod config;
pub mod credentials;
pub mod errors;
pub mod flood;
pub mod game;
pub mod game_laws;
pub mod mines;
pub mod online;
pub mod public_url;
pub mod rate_limit;
pub mod text;

verus! {

} // verus!
