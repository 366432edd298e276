//! A node-graph container: positioned nodes that carry a payload, and directed
//! wires from output pins to input pins.

pub mod laws;
pub mod pins;
pub mod slots;
pub mod snarl;
pub mod wires;

pub use pins::{wire_pins, InPinId, OutPinId, Wire};
pub use slots::Node;
pub use snarl::{MalformedGraph, Snarl, SnarlParts};
