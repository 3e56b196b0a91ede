//! Rules engine for Go and its variants: boards, groups, scoring, clocks,
//! the game states (free placement, play, scoring) and the game controller.

pub mod phase_access;
pub mod display;
pub mod rooms;
pub mod lobby;
pub mod game;
pub mod message;
pub mod states;
