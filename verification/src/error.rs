use vstd::prelude::*;

verus! {

/// Everything that can go wrong in the engine, the multiplexer and the
/// stream adapter.
#[derive(Clone, Copy, Debug, PartialEq, Eq, Structural)]
pub enum KcpError {
    /// A datagram is too short, names an unknown command, or announces more
    /// payload than it carries.
    InvalidSegment,
    /// No stream with this conversation id exists.
    UnknownConv,
    /// A stream with this conversation id already exists.
    ConvExists,
    /// The send queue cannot take the message.
    SendQueueFull,
    /// The stream, or its write half, has been closed.
    StreamClosed,
    /// The packet transport failed; every stream of the multiplexer is closed.
    TransportClosed,
    /// A byte-level I/O error of the packet transport.
    IoError,
    /// A segment was transmitted more often than the dead-link limit allows.
    DeadLink,
    /// A datagram could not be sealed or opened.
    CryptoFailure,
    /// Nothing is ready yet; try again after more input.
    WouldBlock,
}

} // verus!
