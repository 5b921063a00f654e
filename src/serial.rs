//! The interface of a memory-mapped serial port.
use vstd::prelude::*;

verus! {

/// A serial port driven through its registers: a byte is handed over and
/// the port says when it has gone out.
pub trait SerialMMIO {
    /// Starts sending `ch`.
    fn write_byte_async(&mut self, ch: u8);

    /// Whether the last byte has gone out.
    fn is_done(&self) -> bool;
}

} // verus!
