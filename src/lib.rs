//! A falling-block puzzle engine with reversible commands and a placement search.
pub mod piece;
pub mod board;
pub mod queue;
pub mod game;
pub mod control;
pub mod reversal;
pub mod bot;
pub mod analyzer;
pub mod positions;
