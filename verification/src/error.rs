use vstd::prelude::*;

verus! {

/// Errors raised by the wire codec and the fragmentation engine.
///
/// `MalformedHeader` marks bytes that cannot be decoded: truncated input, an
/// unknown address tag, or a length field that overruns the buffer. It is
/// fatal for that one message only. `PacketTooLarge` marks a payload that
/// cannot be split within the byte budget and the 255-fragment ceiling; it is
/// reported before any bytes are emitted.
#[derive(Clone, Copy, Debug, PartialEq, Eq, Structural)]
pub enum ProtocolError {
    MalformedHeader,
    PacketTooLarge,
}

} // verus!
