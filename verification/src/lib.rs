//! A minimal, fully synchronous reliability protocol on top of UDP: the verified core.
pub mod bit_repr;
pub mod byte_repr;
pub mod communicator;
pub mod connection;
pub mod context;
pub mod delivery;
pub mod error;
pub mod fragmentation;
pub mod frame;
pub mod layout;
pub mod packet;
pub mod reliable_ordered;
pub mod ring_buffer;
pub mod session;
pub mod session_inner;
pub mod unreliable;

pub use byte_repr::{ByteRepr, ByteReprError, StaticByteRepr};
pub use error::Error;
