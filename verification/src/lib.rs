//! Statistical attack on monoalphabetic substitution ciphers: a transition
//! frequency model of text, a substitution key with a swap neighbourhood, and
//! the accept/reject rule of the greedy search that ties them together.

pub mod laws;
mod lemmas;
pub mod message;
pub mod model;
pub mod random;
pub mod search;
pub mod stats;
pub mod text;
pub mod utils;
