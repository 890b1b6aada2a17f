//! The byte channel that generated state handles send and receive through.
use vstd::prelude::*;

verus! {

/// A reliable, ordered byte stream between the two roles of a protocol.
/// Generated code writes tags and payloads with `send`/`send_u8` and reads
/// them back with `recv`/`recv_u8`/`recv_u32` (a big-endian count).
pub trait Channel {
    type Error;

    /// Fills `data` with the next bytes of the stream.
    fn recv(&mut self, data: &mut [u8]) -> Result<(), Self::Error>;

    /// Writes `data` to the stream.
    fn send(&mut self, data: &[u8]) -> Result<(), Self::Error>;

    /// Reads one byte.
    fn recv_u8(&mut self) -> Result<u8, Self::Error>;

    /// Writes one byte.
    fn send_u8(&mut self, data: u8) -> Result<(), Self::Error>;

    /// Reads a big-endian 32-bit count.
    fn recv_u32(&mut self) -> Result<u32, Self::Error>;
}

} // verus!
