//! The supported physical puzzle boards: each supplies its shape, its tile
//! catalogue, and its date-to-blocked-cells mapping.

pub mod gt;
pub mod nova_scotia;
