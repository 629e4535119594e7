//! Helpers that stand beside the engine.

pub mod grid;
