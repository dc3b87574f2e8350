//! Blob layouts of the automaton's own structures.

pub mod automaton;
pub mod keyval_state;
pub mod state;
