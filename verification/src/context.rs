//! How a communicator is configured: the message types it sends and receives, its protocol
//! version, and what it does with the errors that receiving runs into.
use vstd::prelude::*;
use std::marker::PhantomData;
use crate::byte_repr::ByteRepr;
use crate::error::Error;

verus! {

/// What to do with the errors that receiving runs into.
pub trait ErrorHandlingStrategy {
    /// What the strategy keeps between errors.
    type Handler;

    /// Deal with `error`.
    fn handle_error(handler: &mut Self::Handler, error: Error);
}

/// Store errors in a [`Vec`] that can be drained to handle errors manually.
///
/// When the cache is never cleared, it grows without bound. For a limited cache, use
/// [`LimitedErrorCache`].
pub struct ErrorCache;

impl ErrorHandlingStrategy for ErrorCache {
    type Handler = Vec<Error>;

    fn handle_error(handler: &mut Vec<Error>, error: Error)
        ensures
            final(handler)@ == old(handler)@.push(error),
    {
        handler.push(error);
    }
}

/// Store errors in a [`Vec`] that can be drained to handle errors manually, but at most
/// `MAX_CACHED_ERRORS` of them: an error that finds the cache full is dropped.
pub struct LimitedErrorCache<const MAX_CACHED_ERRORS: usize>;

impl<const MAX_CACHED_ERRORS: usize> ErrorHandlingStrategy for LimitedErrorCache<
    MAX_CACHED_ERRORS,
> {
    type Handler = Vec<Error>;

    fn handle_error(handler: &mut Vec<Error>, error: Error)
        ensures
            old(handler)@.len() < MAX_CACHED_ERRORS ==> final(handler)@ == old(handler)@.push(
                error,
            ),
            old(handler)@.len() >= MAX_CACHED_ERRORS ==> final(handler)@ == old(handler)@,
    {
        if handler.len() < MAX_CACHED_ERRORS {
            handler.push(error);
        }
    }
}

/// A helper trait that bundles the types of a communicator: what it sends and receives, its
/// protocol version and its error handling.
pub trait MiniUdpContext {
    /// The messages sent.
    type Send: ByteRepr;
    /// The messages received.
    type Recv: ByteRepr;
    /// The protocol version, which seeds the CRC of every frame.
    const PROTOCOL_VERSION: u32;
    /// What to do with the errors of receiving.
    type ErrorHandling: ErrorHandlingStrategy;
}

/// A [`MiniUdpContext`] given by its parameters.
pub struct UdpContext<SEND, RECV, const PROTOCOL_VERSION: u32, ErrorHandling> {
    _send: PhantomData<SEND>,
    _recv: PhantomData<RECV>,
    _error_handling: PhantomData<ErrorHandling>,
}

impl<
    SEND: ByteRepr,
    RECV: ByteRepr,
    const PROTOCOL_VERSION: u32,
    ErrorHandling: ErrorHandlingStrategy,
> MiniUdpContext for UdpContext<SEND, RECV, PROTOCOL_VERSION, ErrorHandling> {
    type Send = SEND;

    type Recv = RECV;

    const PROTOCOL_VERSION: u32 = PROTOCOL_VERSION;

    type ErrorHandling = ErrorHandling;
}

/// The priority of a message.
#[derive(Debug, Clone, Copy, PartialEq, Eq, Structural, Default)]
pub enum Priority {
    Low,
    #[default]
    Default,
    High,
}

/// The states an unreliable packet goes through.
#[derive(Debug, Clone, Copy, PartialEq, Eq, Structural)]
pub enum UnreliablePacketState {
    /// The packet was made and not sent yet.
    Constructed,
    /// The packet was sent at `send_at`.
    Send { send_at: u64 },
}

/// Something that may have work to do: messages to send or packets to get acknowledged.
pub trait MightHaveWork {
    /// Whether `self` is in a state in which it can answer.
    spec fn ready(&self) -> bool;

    /// Whether there is work to do.
    fn has_work(&self) -> (r: bool)
        requires
            self.ready(),
    ;
}

/// Something that received messages can be read from.
pub trait MessageSource<R> {
    /// The next message, if any.
    fn next(&mut self) -> Option<R>;
}

} // verus!
