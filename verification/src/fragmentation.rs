//! How messages larger than one packet are split, chosen per communicator. Only the choice not
//! to split them, `()`, is implemented so far: such messages cannot be sent.
use vstd::prelude::*;

verus! {

/// How reliable messages larger than [`crate::packet::MAX_PACKET_DATA_LEN`] are split.
pub trait ReliableFragmentationHandler {

}

/// Reliable messages are not split.
impl ReliableFragmentationHandler for () {

}

/// Reliable messages are split into up to `MAX_FRAGMENTS` fragments. As fragment ids are
/// [`u8`], `MAX_FRAGMENTS` lies in `1..=256`.
pub struct ReliableFragmentation<const MAX_FRAGMENTS: usize>;

impl<const MAX_FRAGMENTS: usize> ReliableFragmentationHandler for ReliableFragmentation<
    MAX_FRAGMENTS,
> {

}

/// How unreliable messages larger than [`crate::packet::MAX_PACKET_DATA_LEN`] are split and
/// put together again.
pub trait UnreliableFragmentationHandler {
    /// Take in fragment `fragment_id` of `num_fragments` of the chunk `chunk_id`.
    fn read_fragment(chunk_id: u16, fragment_id: u8, num_fragments: u8, data: &mut [u8; 1024]);
}

/// Unreliable messages are not split: a fragment is ignored.
impl UnreliableFragmentationHandler for () {
    fn read_fragment(chunk_id: u16, fragment_id: u8, num_fragments: u8, data: &mut [u8; 1024])
        ensures
            *final(data) == *old(data),
    {
    }
}

/// The handling of large messages a communicator uses.
pub trait PacketHandler {
    /// How unreliable messages are split; `()` to not split them.
    type UnreliableFragmentationHandler: UnreliableFragmentationHandler;

    /// How reliable messages are split; `()` to not split them.
    type ReliableFragmentationHandler: ReliableFragmentationHandler;
}

/// No message is split.
pub struct DefaultPacketHandler;

impl PacketHandler for DefaultPacketHandler {
    type UnreliableFragmentationHandler = ();

    type ReliableFragmentationHandler = ();
}

} // verus!
