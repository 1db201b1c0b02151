//! Pins and the per-component pin container.

pub mod container;
pub mod pin;
pub mod settling;
pub mod simulation;

pub use container::{InputPinError, PinContainer, PinSpecification, SwitchPinModeError};
pub use pin::PinMode;
