//! A fully deterministic two-player card game ("penalty war").
//!
//! Players alternately play the top card of their private deck onto a shared
//! pile. Face cards and aces trigger a penalty-payment phase that can chain
//! and escalate; the initiator of the last unanswered penalty collects the
//! pile. The game ends when a player cannot pay a required penalty or when a
//! deck empties during ordinary play.

pub mod card;
pub mod deck;
pub mod event;
pub mod game;
pub mod phase;
