//! Components with a single pin.

pub mod clock_component;
pub mod const_component;
pub mod input_component;
pub mod output_component;
