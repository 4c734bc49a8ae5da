//! BogChamp: a 4x4 word-search game. The library holds the board, the
//! dictionary trie and its solver, and the rules of single- and multi-player
//! sessions; the web front end lives in the application crate.
use vstd::prelude::*;

pub mod board;
pub mod entries;
pub mod game_state;
pub mod layout;
pub mod ode_check;
pub mod responses;
pub mod text;
pub mod tokens;
pub mod trie;
pub mod web_server;

verus! {

} // verus!
