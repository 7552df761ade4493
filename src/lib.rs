//! Server-side core of the "poker-durak" card game: cards, poker
//! combinations, the per-table game state machine, and the request/reply
//! protocol between a table's worker and its players.

pub mod card;
pub mod cardset;
pub mod comb;
pub mod game;
pub mod laws;
pub mod worker;
pub mod client;
pub mod session;
