//! The framing vocabulary: byte values that mark the structure of a frame
//! when they travel with the control flag set.

use vstd::prelude::*;

verus! {

/// Start of transmission.
pub const SOT: u8 = 0b111;

/// End of transmission.
pub const EOT: u8 = 0b100;

/// Start of a packet header.
pub const SOH: u8 = 0b1;

/// Start of a packet body.
pub const SOTX: u8 = 0b10;

/// Whether `byte` belongs to the framing vocabulary.
pub open spec fn is_marker(byte: u8) -> bool {
    byte == SOT || byte == EOT || byte == SOH || byte == SOTX
}

/// Tells whether `byte` is one of the four framing markers.
pub fn is_control_value(byte: u8) -> (r: bool)
    ensures
        r == is_marker(byte),
{
    byte == SOT || byte == EOT || byte == SOH || byte == SOTX
}

} // verus!
