//! A solitaire engine: deals and verifies solitaire-style card games,
//! guaranteeing at deal time and after every player move that a layout
//! is still winnable.
//!
//! - [`card`] — the byte codec for card identities and faces;
//! - [`names`] — translation between card bytes and board card names;
//! - [`solver`] — the pile/move model: moves applied destructively and
//!   reversed exactly;
//! - [`games`] — the per-game plugin contract as a closed tagged union,
//!   with hooks, priorities and win predicates;
//! - [`klondike`] — the Klondike move generator and dealer;
//! - [`dedup`] — deduplication of canonical states over an
//!   insertion-ordered set;
//! - [`search`] — the bounded best-first search driver and its
//!   `try_move` protocol;
//! - [`session`] — the move history with undo/redo, hints, and the
//!   re-solve bookkeeping.

pub mod card;
pub mod solver;
pub mod dedup;
pub mod games;
pub mod search;
pub mod klondike;
pub mod names;
pub mod session;
