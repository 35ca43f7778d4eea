//! Reflexion-model engine: compares a declared architecture graph with an
//! extracted implementation graph through an explicit node mapping and
//! classifies every relationship as conforming, missing or unexpected.

pub mod types;
pub mod state;
pub mod model;
pub mod graph;
pub mod util;
pub mod mapping;
pub mod propagate;
pub mod lifting;
pub mod classification;
pub mod steps;
pub mod classify;
pub mod delta;
pub mod laws;
