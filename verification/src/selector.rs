//! Which part a selector aggregate returns: the value, the timestamp, or a
//! struct of both. The aggregates themselves run inside the columnar
//! execution engine; this library only names the output shape.

use vstd::prelude::*;

verus! {

/// Describes which part of a selector aggregate to return.
#[derive(Clone, Copy, Debug, PartialEq, Eq, Structural)]
pub enum SelectorOutput {
    /// Return the selected value.
    Value,
    /// Return the selected value's timestamp.
    Time,
    /// Return value and timestamp together as a struct.
    Struct,
}

impl SelectorOutput {
    /// Whether the output carries the selected value itself.
    pub fn includes_value(&self) -> (r: bool)
        ensures
            r == !(*self is Time),
    {
        match self {
            SelectorOutput::Value => true,
            SelectorOutput::Time => false,
            SelectorOutput::Struct => true,
        }
    }
}

} // verus!
