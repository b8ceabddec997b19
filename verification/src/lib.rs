//! A sliding-tile merge game engine (2048-style).
//!
//! The heart of the crate is the move resolver: the deterministic rule that,
//! given a board and a direction, slides every tile toward the chosen edge and
//! merges equal neighbours at most once per move. Around it sit a random
//! piece-placement policy backed by a seedable generator, and the session
//! operation that composes the two into "apply a move".

pub mod game_structs;
pub mod game_traits;
pub mod grid;
pub mod laws;
pub mod line;
pub mod model_support;
pub mod rng;
