//! Components made of sub-components behind one pin surface.

pub mod parallel_gates;
