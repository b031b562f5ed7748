//! Conversion of nondeterministic finite automata into minimal deterministic
//! ones: validation, the subset construction, and the merging of the states
//! that accept the same words.

pub mod determinise;
pub mod dfa;
mod distinguish;
pub mod minimise;
pub mod names;
pub mod nfa;
mod numbering;
pub mod service;

pub use crate::dfa::{Dfa, DfaView};
pub use crate::names::hash_states;
pub use crate::nfa::{Marker, Nfa, NfaError, NfaErrorView, NfaView, Sanitary, Unsanitary};
