//! Byte classes used when trimming and cleaning input.
use vstd::prelude::*;

verus! {

/// Space, tab, line feed, carriage return, vertical tab or form feed.
pub open spec fn spec_is_whitespace(b: u8) -> bool {
    b == 0x20 || b == 0x09 || b == 0x0A || b == 0x0D || b == 0x0B || b == 0x0C
}

/// A control byte other than tab (below 0x20), or DEL (0x7F).
pub open spec fn spec_is_control(b: u8) -> bool {
    (b < 0x20 && b != 0x09) || b == 0x7F
}

/// Whether `b` is any kind of whitespace.
pub fn is_whitespace(b: u8) -> (r: bool)
    ensures
        r == spec_is_whitespace(b),
{
    b == 0x20 || b == 0x09 || b == 0x0A || b == 0x0D || b == 0x0B || b == 0x0C
}

/// Whether `b` is a control character that cleaning removes.
pub fn is_control_or_ansi(b: u8) -> (r: bool)
    ensures
        r == spec_is_control(b),
{
    b < 0x20 && b != 0x09 || b == 0x7F
}

} // verus!
