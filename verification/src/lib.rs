//! A turn-based, multi-agent rover puzzle engine.
//!
//! A level is an immutable grid of tiles plus a symmetric wire-link graph.
//! Each rover follows a pre-authored command list; the engine advances all
//! rovers one command per round in lock-step, enforcing grid-boundary,
//! battery and collision constraints, then evaluates the round: battery
//! transfer across wire links, ambient drain/charge from tile shadow,
//! collectible pickup, and the round outcome (in progress, solved, failed).
#![allow(non_snake_case)]
#![allow(non_camel_case_types)]

pub mod actions;
pub mod level;
pub mod level_loader;
pub mod puzzle_evaluation;
pub mod rover;
pub mod sane_level;
