//! The colour table that the demonstration program reads.

use vstd::prelude::*;

verus! {

/// Valid colour types.
#[derive(Debug, PartialEq, Eq, Structural, Clone, Copy)]
pub enum Type {
    /// Primary colour.
    Primary,
    /// Secondary colour.
    Secondary,
}

impl Default for Type {
    /// A colour is primary unless it is said to be secondary.
    fn default() -> (r: Self)
        ensures
            r == Type::Primary,
    {
        Type::Primary
    }
}

/// A colour code in its two notations.
#[derive(Debug, PartialEq)]
pub struct Code {
    /// The code as an rgba array.
    pub rgba: Vec<u8>,
    /// The code as a hexadecimal value.
    pub hex: String,
}

/// One named colour.
#[derive(Debug, PartialEq)]
pub struct Colour {
    /// The colour's name.
    pub colour_name: String,
    /// The family that the colour is counted among.
    pub category: String,
    /// Whether the colour is primary or secondary.
    pub colour_type: Type,
    /// The colour's code.
    pub code: Code,
}

/// The whole colour table.
#[derive(Debug, PartialEq)]
pub struct Colours {
    /// The colours, in the order of the table.
    pub colour: Vec<Colour>,
}

} // verus!
