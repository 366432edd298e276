//! Pin identifiers and the wires that join them.

use vstd::prelude::*;

verus! {

/// Output pin identifier: a node index and an output index on that node.
#[derive(Clone, Copy, Debug, PartialEq, Eq, Hash, Structural)]
pub struct OutPinId {
    /// Node index.
    pub node: usize,
    /// Output pin index.
    pub output: usize,
}

/// Input pin identifier: a node index and an input index on that node.
#[derive(Clone, Copy, Debug, PartialEq, Eq, Hash, Structural)]
pub struct InPinId {
    /// Node index.
    pub node: usize,
    /// Input pin index.
    pub input: usize,
}

/// A directed connection from an output pin to an input pin.
///
/// Two wires are the same wire when both of their pins are equal.
#[derive(Clone, Copy, Debug, PartialEq, Eq, Hash, Structural)]
pub struct Wire {
    pub out_pin: OutPinId,
    pub in_pin: InPinId,
}

impl Wire {
    /// Whether either end of the wire sits on `node`.
    pub open spec fn touches(self, node: usize) -> bool {
        self.out_pin.node == node || self.in_pin.node == node
    }
}

/// The wire from `out_pin` to `in_pin`.
pub fn wire_pins(out_pin: OutPinId, in_pin: InPinId) -> (w: Wire)
    ensures
        w == (Wire { out_pin, in_pin }),
{
    Wire { out_pin, in_pin }
}

} // verus!
