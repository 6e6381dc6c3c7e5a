//! The errors of the protocol.
use vstd::prelude::*;
use crate::byte_repr::ByteReprError;
use vstd::std_specs::cmp::PartialEqSpecImpl;

verus! {

#[verifier::external_type_specification]
#[verifier::external_body]
pub struct ExIoError(std::io::Error);

/// What can go wrong when sending or receiving packets.
#[derive(Debug)]
pub enum Error {
    /// A message could not be written to or read from bytes.
    ByteRepr(ByteReprError),
    /// The CRC failed.
    CrcFailed,
    /// The received packet is shorter than the 4 bytes of its CRC.
    PacketLengthLessThanCrcBytes,
    /// The message is larger than the maximum size.
    MessageTooBig,
    /// The received packet is too old: the newest received packet is too far ahead of it.
    PacketTooOld { sequence_id: u16, newest_id: u16 },
    /// Sending or receiving failed.
    Io(std::io::Error),
    /// The communicator is not connected.
    NotConnected,
    /// An incoming connection request was refused: already connected.
    AlreadyConnected,
    /// Received a message that does not fit the current connection state.
    UnexpectedMessage,
    /// A received packet does not belong to the current connection.
    PacketSessionMismatch,
    /// A new packet could not be written because the send buffer is full.
    PacketSendBufferFull,
    /// The provided address resolved to no address at all.
    NoSocketAddrYield,
}

/// Two errors are equal when they are the same variant with equal fields; two `Io` errors never
/// compare as equal.
pub open spec fn error_eq(a: &Error, b: &Error) -> bool {
    match (a, b) {
        (Error::ByteRepr(x), Error::ByteRepr(y)) => x == y,
        (Error::CrcFailed, Error::CrcFailed) => true,
        (Error::PacketLengthLessThanCrcBytes, Error::PacketLengthLessThanCrcBytes) => true,
        (Error::MessageTooBig, Error::MessageTooBig) => true,
        (
            Error::PacketTooOld { sequence_id: s1, newest_id: n1 },
            Error::PacketTooOld { sequence_id: s2, newest_id: n2 },
        ) => s1 == s2 && n1 == n2,
        (Error::NotConnected, Error::NotConnected) => true,
        (Error::AlreadyConnected, Error::AlreadyConnected) => true,
        (Error::UnexpectedMessage, Error::UnexpectedMessage) => true,
        (Error::PacketSessionMismatch, Error::PacketSessionMismatch) => true,
        (Error::PacketSendBufferFull, Error::PacketSendBufferFull) => true,
        (Error::NoSocketAddrYield, Error::NoSocketAddrYield) => true,
        _ => false,
    }
}

impl PartialEq for Error {
    fn eq(&self, other: &Self) -> (r: bool) {
        match (self, other) {
            (Error::ByteRepr(x), Error::ByteRepr(y)) => *x == *y,
            (Error::CrcFailed, Error::CrcFailed) => true,
            (Error::PacketLengthLessThanCrcBytes, Error::PacketLengthLessThanCrcBytes) => true,
            (Error::MessageTooBig, Error::MessageTooBig) => true,
            (
                Error::PacketTooOld { sequence_id: s1, newest_id: n1 },
                Error::PacketTooOld { sequence_id: s2, newest_id: n2 },
            ) => *s1 == *s2 && *n1 == *n2,
            (Error::NotConnected, Error::NotConnected) => true,
            (Error::AlreadyConnected, Error::AlreadyConnected) => true,
            (Error::UnexpectedMessage, Error::UnexpectedMessage) => true,
            (Error::PacketSessionMismatch, Error::PacketSessionMismatch) => true,
            (Error::PacketSendBufferFull, Error::PacketSendBufferFull) => true,
            (Error::NoSocketAddrYield, Error::NoSocketAddrYield) => true,
            _ => false,
        }
    }
}

impl PartialEqSpecImpl for Error {
    open spec fn obeys_eq_spec() -> bool {
        true
    }

    open spec fn eq_spec(&self, other: &Error) -> bool {
        error_eq(self, other)
    }
}

} // verus!
