//! Configmaton: configuration automata stored in relocatable blobs.
//!
//! The blob layer (`ancha`) lays structures out in a byte buffer, at
//! positions measured from an anchor (the blob's base), and reads them back.
//! `my_ancha` lays out the automaton's states; `blob` prepares them.
//! `char_runner`, `keyval_runner` and `keyval_simulator` run a laid-out
//! automaton over key-value updates; `readback` shows that what they read is
//! what was laid out. `server` holds the decisions of the configuration
//! server.

pub mod ancha;
pub mod blob;
pub mod char_nfa;
pub mod char_runner;
pub mod guards;
pub mod my_ancha;
pub mod keyval_nfa;
pub mod keyval_runner;
pub mod keyval_simulator;
pub mod readback;
pub mod server;
