//! Preparing automaton states for their blob layout, and serialization
//! strategies.

pub mod bdd;
pub mod ser;
pub mod state;
pub mod traits;
pub mod vec;
pub mod vecmap;
