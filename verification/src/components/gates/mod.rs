//! Logic gates, the building blocks of the integrated circuits.

pub mod one_input;
pub mod two_inputs;
