//! A discrete-time simulator for digital logic circuits.
//!
//! A circuit is a set of named components wired together pin to pin. Time
//! advances one tick at a time; during a tick every component evaluates at
//! most once, pulling three-valued logic levels across its links on demand.
//! Feedback loops are allowed: re-entering a pin that is already being
//! evaluated yields the value it held before the tick.
//!
//! - [`components`] holds the three-valued logic and the catalog: inputs,
//!   outputs, clocks, constants and the integrated circuits made of gates.
//! - [`pin`] holds the pins, the pin container that every component has,
//!   the walk that evaluates a tick, and the proof that it ends and that a
//!   circuit without feedback settles.
//! - [`circuit`] holds the board on which the components stand, the
//!   builder, the circuit with its tick counter, its textual description
//!   and its display.
//! - [`text`] holds the scanning and number helpers of the description.

pub mod circuit;
pub mod components;
pub mod pin;
pub mod text;

pub use circuit::parser::{BuildErrorKind, ParseCircuitError, Parser, SyntaxErrorKind};
pub use circuit::{Circuit, CircuitBuildError, CircuitBuilder, SetInputError};
pub use components::tristate::Tristate;
