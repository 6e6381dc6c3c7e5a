//! The packets exchanged between communicators and their byte layout.
//!
//! A packet on the wire is a CRC (4 bytes, little-endian) over the rest, then the
//! [`PacketAck`], then the [`PacketData`]: a one-byte type tag followed by the messages or the
//! fragment it carries.
use vstd::prelude::*;
use vstd::bytes::*;
use crate::byte_repr::{ByteRepr, ByteReprError, StaticByteRepr, read_matches};
use crate::ring_buffer::{RingBuffer, wsub};

verus! {

/// The maximum allowed length of the data part of a UDP packet.
pub const MAX_PACKET_DATA_LEN: usize = 1024;

/// The number of bytes a [`PacketAck`] takes.
pub const PACKET_ACK_LEN: usize = 14;

/// 4 bytes for the CRC, then the [`PacketAck`], then 1 byte for the packet type, finally 4 bytes
/// for the number of messages in the packet.
pub const PACKET_HEADER_LEN: usize = 4 + PACKET_ACK_LEN + 1 + 4;

/// The maximum allowed length of a UDP packet.
pub const MAX_PACKET_LEN: usize = PACKET_HEADER_LEN + MAX_PACKET_DATA_LEN;

/// The number of packets a ring buffer of the communicator holds, and the number of
/// acknowledgement bits a [`PacketAck`] carries per kind of packet.
pub const MAX_CONCURRENT_PACKETS: usize = 32;

/// The acknowledgements a packet carries for the reliable packets its sender has received.
#[derive(Debug, Clone, Copy, PartialEq, Eq, Structural)]
pub struct PacketAck {
    /// The id of the packet this acknowledgement is sent with.
    pub sequence_id: u16,
    /// The id of the most recent reliable received packet.
    pub reliable_newest_received: u16,
    /// Bit `i` tells whether the reliable packet `reliable_newest_received - i` was received.
    pub reliable_ack_bits: u32,
    /// The id of the most recent reliable ordered received packet.
    pub ordered_newest_received: u16,
    /// Bit `i` tells whether the reliable ordered packet `ordered_newest_received - i` was
    /// received.
    pub ordered_ack_bits: u32,
}

impl DeepView for PacketAck {
    type V = PacketAck;

    open spec fn deep_view(&self) -> PacketAck {
        *self
    }
}

/// Whether bit `i` of `bits` is set.
pub open spec fn bit_set(bits: u32, i: int) -> bool {
    0 <= i < 32 && (bits >> (i as u32)) & 1 == 1
}

/// The acknowledgement bits for the items `m` of a ring buffer whose newest index is `newest`:
/// bit `i` is set exactly when index `newest - i` holds an item.
pub open spec fn ack_bits_of<T>(bits: u32, m: Map<u16, T>, newest: u16) -> bool {
    forall|i: int| 0 <= i < 32 ==> (#[trigger] bit_set(bits, i) <==> m.contains_key(wsub(newest, i)))
}

/// The indices that `bits` acknowledges, counting back from `newest`.
pub open spec fn acked_indices(newest: u16, bits: u32) -> Set<u16> {
    Set::new(|j: u16| exists|i: int| #[trigger] bit_set(bits, i) && j == wsub(newest, i))
}

/// Setting bit `j` sets it and keeps every other bit.
pub proof fn lemma_set_bit(bits: u32, j: u32)
    requires
        j < 32,
    ensures
        forall|i: int| 0 <= i < 32 ==> #[trigger] bit_set(bits | (1u32 << j), i) == (i == j || bit_set(bits, i)),
{
    assert forall|i: int| 0 <= i < 32 implies #[trigger] bit_set(bits | (1u32 << j), i) == (i == j
        || bit_set(bits, i)) by {
        let k = i as u32;
        assert((((bits | (1u32 << j)) >> k) & 1 == 1) == (k == j || ((bits >> k) & 1 == 1)))
            by (bit_vector)
            requires
                j < 32,
                k < 32,
        ;
    }
}

/// The acknowledgement bits of the items of `ring`: bit `i` tells whether index
/// `newest - i` holds an item.
pub(crate) fn ack_bits<T>(ring: &RingBuffer<T, 32>) -> (r: u32)
    requires
        ring.wf(),
    ensures
        ack_bits_of(r, ring@, ring.newest()),
{
    let newest = ring.get_newest_index();
    let mut bits: u32 = 0;
    let mut i: u32 = 0;
    proof {
        assert forall|j: int| 0 <= j < 32 implies !#[trigger] bit_set(0u32, j) by {
            let k = j as u32;
            assert(((0u32 >> k) & 1) == 0) by (bit_vector);
        }
    }
    while i < 32
        invariant
            ring.wf(),
            newest == ring.newest(),
            i <= 32,
            forall|j: int| 0 <= j < 32 ==> (#[trigger] bit_set(bits, j) <==> (j < i
                && ring@.contains_key(wsub(newest, j)))),
        decreases 32 - i,
    {
        if ring.get(newest.wrapping_sub(i as u16)).is_some() {
            proof {
                lemma_set_bit(bits, i);
            }
            bits = bits | (1u32 << i);
        }
        i = i + 1;
    }
    bits
}

impl PacketAck {
    /// The acknowledgement sent with packet `sequence_id`: for each kind of reliable packet,
    /// the newest id received and one bit for each of the 32 ids up to it.
    pub fn new<A, B>(
        sequence_id: u16,
        reliable_received: &RingBuffer<A, 32>,
        ordered_received: &RingBuffer<B, 32>,
    ) -> (r: PacketAck)
        requires
            reliable_received.wf(),
            ordered_received.wf(),
        ensures
            r.sequence_id == sequence_id,
            r.reliable_newest_received == reliable_received.newest(),
            ack_bits_of(r.reliable_ack_bits, reliable_received@, reliable_received.newest()),
            r.ordered_newest_received == ordered_received.newest(),
            ack_bits_of(r.ordered_ack_bits, ordered_received@, ordered_received.newest()),
    {
        PacketAck {
            sequence_id,
            reliable_newest_received: reliable_received.get_newest_index(),
            reliable_ack_bits: ack_bits(reliable_received),
            ordered_newest_received: ordered_received.get_newest_index(),
            ordered_ack_bits: ack_bits(ordered_received),
        }
    }
}

/// Remove from `pending` every packet that `bits` acknowledges, counting back from `newest`.
pub fn acknowledge_pending<T>(pending: &mut RingBuffer<T, 32>, newest: u16, bits: u32)
    requires
        old(pending).wf(),
    ensures
        final(pending).wf(),
        final(pending).newest() == old(pending).newest(),
        final(pending)@ == old(pending)@.remove_keys(acked_indices(newest, bits)),
{
    let mut i: u32 = 0;
    while i < 32
        invariant
            pending.wf(),
            pending.newest() == old(pending).newest(),
            i <= 32,
            pending@ == old(pending)@.remove_keys(
                Set::new(|j: u16| exists|k: int| 0 <= k < i && #[trigger] bit_set(bits, k) && j == wsub(newest, k)),
            ),
        decreases 32 - i,
    {
        let set = bits & (1u32 << i) != 0;
        proof {
            assert(set == bit_set(bits, i as int)) by {
                assert((bits & (1u32 << i) != 0) == ((bits >> i) & 1 == 1)) by (bit_vector)
                    requires
                        i < 32,
                ;
            }
        }
        if set {
            pending.take(newest.wrapping_sub(i as u16));
        }
        proof {
            assert(pending@ =~= old(pending)@.remove_keys(
                Set::new(|j: u16| exists|k: int| 0 <= k < i + 1 && #[trigger] bit_set(bits, k) && j == wsub(newest, k)),
            ));
        }
        i = i + 1;
    }
    proof {
        assert(pending@ =~= old(pending)@.remove_keys(acked_indices(newest, bits)));
    }
}


/// The indices below `n` of the bits of `bits` that are set, in increasing order.
pub open spec fn set_bits(bits: u128, n: nat) -> Seq<u16>
    decreases n,
{
    if n == 0 {
        Seq::empty()
    } else {
        let prev = set_bits(bits, (n - 1) as nat);
        if (bits >> ((n - 1) as u128)) & 1 == 1 {
            prev.push((n - 1) as u16)
        } else {
            prev
        }
    }
}

/// The indices below `n` of the bits of `bits` that are set, in increasing order.
fn set_bits_below(bits: u128, n: u16) -> (r: Vec<u16>)
    requires
        n <= 128,
    ensures
        r@ == set_bits(bits, n as nat),
{
    let mut r: Vec<u16> = Vec::new();
    let mut i: u16 = 0;
    while i < n
        invariant
            i <= n,
            n <= 128,
            r@ == set_bits(bits, i as nat),
        decreases n - i,
    {
        if (bits >> (i as u128)) & 1 == 1 {
            r.push(i);
        }
        i = i + 1;
    }
    r
}

/// An integer whose bits flag which of as many consecutive packets were acknowledged.
pub trait MaxConcurrentPackets: Sized + Copy {
    /// The flags, as a `u128`.
    spec fn flags(self) -> u128;

    /// The number of packets one value has flags for.
    spec fn max_packets() -> nat;

    /// No packet flagged.
    const UNSET: Self;

    /// [`Self::UNSET`] flags no packet.
    proof fn lemma_unset()
        ensures
            Self::UNSET.flags() == 0,
    ;

    /// Flag packet `packet_index`.
    fn set_ack_flag(&mut self, packet_index: u16)
        requires
            packet_index < Self::max_packets(),
        ensures
            final(self).flags() == old(self).flags() | (1u128 << (packet_index as u128)),
    ;

    /// The indices of the flagged packets, in increasing order.
    fn iter_acknowledged(self) -> (r: Vec<u16>)
        ensures
            r@ == set_bits(self.flags(), Self::max_packets()),
    ;
}

impl MaxConcurrentPackets for u8 {
    open spec fn flags(self) -> u128 {
        self as u128
    }

    open spec fn max_packets() -> nat {
        8
    }

    const UNSET: u8 = 0;

    proof fn lemma_unset() {
    }

    fn set_ack_flag(&mut self, packet_index: u16) {
        let i = packet_index as u8;
        let x = *self;
        proof {
            assert(((x | (1u8 << i)) as u128) == (x as u128) | (1u128 << (i as u128))) by (bit_vector)
                requires
                    i < 8,
            ;
        }
        *self = x | (1u8 << i);
    }

    fn iter_acknowledged(self) -> (r: Vec<u16>) {
        set_bits_below(self as u128, 8)
    }
}

impl MaxConcurrentPackets for u16 {
    open spec fn flags(self) -> u128 {
        self as u128
    }

    open spec fn max_packets() -> nat {
        16
    }

    const UNSET: u16 = 0;

    proof fn lemma_unset() {
    }

    fn set_ack_flag(&mut self, packet_index: u16) {
        let i = packet_index as u16;
        let x = *self;
        proof {
            assert(((x | (1u16 << i)) as u128) == (x as u128) | (1u128 << (i as u128))) by (bit_vector)
                requires
                    i < 16,
            ;
        }
        *self = x | (1u16 << i);
    }

    fn iter_acknowledged(self) -> (r: Vec<u16>) {
        set_bits_below(self as u128, 16)
    }
}

impl MaxConcurrentPackets for u32 {
    open spec fn flags(self) -> u128 {
        self as u128
    }

    open spec fn max_packets() -> nat {
        32
    }

    const UNSET: u32 = 0;

    proof fn lemma_unset() {
    }

    fn set_ack_flag(&mut self, packet_index: u16) {
        let i = packet_index as u32;
        let x = *self;
        proof {
            assert(((x | (1u32 << i)) as u128) == (x as u128) | (1u128 << (i as u128))) by (bit_vector)
                requires
                    i < 32,
            ;
        }
        *self = x | (1u32 << i);
    }

    fn iter_acknowledged(self) -> (r: Vec<u16>) {
        set_bits_below(self as u128, 32)
    }
}

impl MaxConcurrentPackets for u64 {
    open spec fn flags(self) -> u128 {
        self as u128
    }

    open spec fn max_packets() -> nat {
        64
    }

    const UNSET: u64 = 0;

    proof fn lemma_unset() {
    }

    fn set_ack_flag(&mut self, packet_index: u16) {
        let i = packet_index as u64;
        let x = *self;
        proof {
            assert(((x | (1u64 << i)) as u128) == (x as u128) | (1u128 << (i as u128))) by (bit_vector)
                requires
                    i < 64,
            ;
        }
        *self = x | (1u64 << i);
    }

    fn iter_acknowledged(self) -> (r: Vec<u16>) {
        set_bits_below(self as u128, 64)
    }
}

impl MaxConcurrentPackets for u128 {
    open spec fn flags(self) -> u128 {
        self as u128
    }

    open spec fn max_packets() -> nat {
        128
    }

    const UNSET: u128 = 0;

    proof fn lemma_unset() {
    }

    fn set_ack_flag(&mut self, packet_index: u16) {
        let i = packet_index as u128;
        let x = *self;
        proof {
            assert(((x | (1u128 << i)) as u128) == (x as u128) | (1u128 << (i as u128))) by (bit_vector)
                requires
                    i < 128,
            ;
        }
        *self = x | (1u128 << i);
    }

    fn iter_acknowledged(self) -> (r: Vec<u16>) {
        set_bits_below(self as u128, 128)
    }
}

/// The bytes of a [`PacketAck`]: its fields in order, little-endian.
pub open spec fn spec_ack_bytes(a: PacketAck) -> Seq<u8> {
    spec_u16_to_le_bytes(a.sequence_id) + spec_u16_to_le_bytes(a.reliable_newest_received)
        + spec_u32_to_le_bytes(a.reliable_ack_bits) + spec_u16_to_le_bytes(
        a.ordered_newest_received,
    ) + spec_u32_to_le_bytes(a.ordered_ack_bits)
}

/// The [`PacketAck`] that the first 14 bytes of `b` hold.
pub open spec fn spec_ack_from(b: Seq<u8>) -> PacketAck {
    PacketAck {
        sequence_id: spec_u16_from_le_bytes(b.subrange(0, 2)),
        reliable_newest_received: spec_u16_from_le_bytes(b.subrange(2, 4)),
        reliable_ack_bits: spec_u32_from_le_bytes(b.subrange(4, 8)),
        ordered_newest_received: spec_u16_from_le_bytes(b.subrange(8, 10)),
        ordered_ack_bits: spec_u32_from_le_bytes(b.subrange(10, 14)),
    }
}

impl ByteRepr for PacketAck {
    const MIN_BYTE_LEN: usize = 14;
    const MAX_BYTE_LEN: usize = 14;

    open spec fn spec_to_bytes(v: PacketAck) -> Seq<u8> {
        spec_ack_bytes(v)
    }

    open spec fn spec_representable(v: PacketAck) -> bool {
        true
    }

    open spec fn spec_from_bytes(bytes: Seq<u8>) -> Option<Result<PacketAck, ByteReprError>> {
        if bytes.len() < 14 {
            Some(Err(ByteReprError::SliceTooShort))
        } else {
            Some(Ok(spec_ack_from(bytes)))
        }
    }

    fn byte_len(&self) -> (n: usize) {
        proof {
            lemma_auto_spec_u16_to_from_le_bytes();
            lemma_auto_spec_u32_to_from_le_bytes();
        }
        14
    }

    fn checked_byte_len(&self) -> (n: Option<usize>) {
        proof {
            lemma_auto_spec_u16_to_from_le_bytes();
            lemma_auto_spec_u32_to_from_le_bytes();
        }
        Some(14)
    }

    fn write_to_bytes(&self, bytes: &mut [u8]) -> (r: Result<(), ByteReprError>) {
        proof {
            lemma_auto_spec_u16_to_from_le_bytes();
            lemma_auto_spec_u32_to_from_le_bytes();
        }
        let mut out = u16_to_le_bytes(self.sequence_id);
        let mut b = u16_to_le_bytes(self.reliable_newest_received);
        out.append(&mut b);
        let mut b = u32_to_le_bytes(self.reliable_ack_bits);
        out.append(&mut b);
        let mut b = u16_to_le_bytes(self.ordered_newest_received);
        out.append(&mut b);
        let mut b = u32_to_le_bytes(self.ordered_ack_bits);
        out.append(&mut b);
        assert(out@ =~= spec_ack_bytes(*self));
        crate::byte_repr::write_prefix(bytes, out.as_slice())
    }

    fn try_from_bytes(bytes: &[u8]) -> (r: Option<Result<PacketAck, ByteReprError>>) {
        if bytes.len() < 14 {
            return Some(Err(ByteReprError::SliceTooShort));
        }
        let ack = PacketAck {
            sequence_id: u16_from_le_bytes(vstd::slice::slice_subrange(bytes, 0, 2)),
            reliable_newest_received: u16_from_le_bytes(vstd::slice::slice_subrange(bytes, 2, 4)),
            reliable_ack_bits: u32_from_le_bytes(vstd::slice::slice_subrange(bytes, 4, 8)),
            ordered_newest_received: u16_from_le_bytes(vstd::slice::slice_subrange(bytes, 8, 10)),
            ordered_ack_bits: u32_from_le_bytes(vstd::slice::slice_subrange(bytes, 10, 14)),
        };
        Some(Ok(ack))
    }

    proof fn lemma_roundtrip(v: PacketAck, rest: Seq<u8>) {
        lemma_auto_spec_u16_to_from_le_bytes();
        lemma_auto_spec_u32_to_from_le_bytes();
        let all = spec_ack_bytes(v) + rest;
        assert(all.subrange(0, 2) =~= spec_u16_to_le_bytes(v.sequence_id));
        assert(all.subrange(2, 4) =~= spec_u16_to_le_bytes(v.reliable_newest_received));
        assert(all.subrange(4, 8) =~= spec_u32_to_le_bytes(v.reliable_ack_bits));
        assert(all.subrange(8, 10) =~= spec_u16_to_le_bytes(v.ordered_newest_received));
        assert(all.subrange(10, 14) =~= spec_u32_to_le_bytes(v.ordered_ack_bits));
    }

    proof fn lemma_min_len(v: PacketAck) {
        lemma_auto_spec_u16_to_from_le_bytes();
        lemma_auto_spec_u32_to_from_le_bytes();
    }
}

impl StaticByteRepr for PacketAck {
    const BYTE_LEN: usize = 14;
}

/// The contents of a packet.
pub enum PacketData<M> {
    /// No messages: sent to carry acknowledgements only.
    Heartbeat,
    /// Messages sent unreliably.
    Unreliable { messages: Vec<M> },
    /// A fragment of a large message sent unreliably.
    UnreliableFragment { chunk_id: u16, num_fragments: u8, fragment_id: u8, data: Vec<u8> },
    /// Messages sent reliably, in order.
    ReliableOrdered { messages: Vec<M> },
    /// A fragment of a large message sent reliably, in order.
    ReliableOrderedFragment { chunk_id: u16, num_fragments: u8, fragment_id: u8, data: Vec<u8> },
    /// Messages sent reliably, in any order.
    ReliableUnordered { messages: Vec<M> },
}

/// The view of a [`PacketData`]: the same variants over the views of the messages.
pub enum PacketDataView<V> {
    Heartbeat,
    Unreliable(Seq<V>),
    UnreliableFragment(u16, u8, u8, Seq<u8>),
    ReliableOrdered(Seq<V>),
    ReliableOrderedFragment(u16, u8, u8, Seq<u8>),
    ReliableUnordered(Seq<V>),
}

impl<M: DeepView> DeepView for PacketData<M> {
    type V = PacketDataView<M::V>;

    open spec fn deep_view(&self) -> PacketDataView<M::V> {
        match self {
            PacketData::Heartbeat => PacketDataView::Heartbeat,
            PacketData::Unreliable { messages } => PacketDataView::Unreliable(messages.deep_view()),
            PacketData::UnreliableFragment { chunk_id, num_fragments, fragment_id, data } =>
                PacketDataView::UnreliableFragment(*chunk_id, *num_fragments, *fragment_id, data@),
            PacketData::ReliableOrdered { messages } => PacketDataView::ReliableOrdered(
                messages.deep_view(),
            ),
            PacketData::ReliableOrderedFragment { chunk_id, num_fragments, fragment_id, data } =>
                PacketDataView::ReliableOrderedFragment(
                *chunk_id,
                *num_fragments,
                *fragment_id,
                data@,
            ),
            PacketData::ReliableUnordered { messages } => PacketDataView::ReliableUnordered(
                messages.deep_view(),
            ),
        }
    }
}

/// Which kind of reliable packet a packet is.
#[derive(Debug, Clone, Copy, PartialEq, Eq, Structural)]
pub enum ReliablePacketKind {
    Ordered,
    Unordered,
    OrderedFragment,
}

impl<M> PacketData<M> {
    /// The kind of reliable packet this is, or `None` for packets that are not sent reliably.
    pub fn get_reliable_kind(&self) -> (r: Option<ReliablePacketKind>)
        ensures
            r == match self {
                PacketData::ReliableOrdered { .. } => Some(ReliablePacketKind::Ordered),
                PacketData::ReliableUnordered { .. } => Some(ReliablePacketKind::Unordered),
                PacketData::ReliableOrderedFragment { .. } => Some(
                    ReliablePacketKind::OrderedFragment,
                ),
                _ => None,
            },
    {
        match self {
            PacketData::ReliableOrdered { .. } => Some(ReliablePacketKind::Ordered),
            PacketData::ReliableUnordered { .. } => Some(ReliablePacketKind::Unordered),
            PacketData::ReliableOrderedFragment { .. } => Some(ReliablePacketKind::OrderedFragment),
            PacketData::Heartbeat
            | PacketData::Unreliable { .. }
            | PacketData::UnreliableFragment { .. } => None,
        }
    }
}

/// The bytes of a fragment after its tag: chunk id, number of fragments, fragment id, data.
pub open spec fn spec_fragment_bytes(chunk_id: u16, num: u8, id: u8, data: Seq<u8>) -> Seq<u8> {
    spec_u16_to_le_bytes(chunk_id) + seq![num, id] + data
}

/// Reading the part of a fragment after its tag from `b`.
pub open spec fn spec_fragment_from(b: Seq<u8>) -> Option<Result<(u16, u8, u8, Seq<u8>), ByteReprError>> {
    if b.len() < 4 + MAX_PACKET_DATA_LEN {
        Some(Err(ByteReprError::SliceTooShort))
    } else {
        Some(
            Ok(
                (
                    spec_u16_from_le_bytes(b.subrange(0, 2)),
                    b[2],
                    b[3],
                    b.subrange(4, 4 + MAX_PACKET_DATA_LEN),
                ),
            ),
        )
    }
}

/// Reading messages from `b` and wrapping them with `wrap`.
pub open spec fn spec_messages_from<V>(
    r: Option<Result<Seq<V>, ByteReprError>>,
    tag: u8,
) -> Option<Result<PacketDataView<V>, ByteReprError>> {
    match r {
        None => None,
        Some(Err(e)) => Some(Err(e)),
        Some(Ok(ms)) => Some(
            Ok(
                if tag == 1 {
                    PacketDataView::Unreliable(ms)
                } else if tag == 3 {
                    PacketDataView::ReliableOrdered(ms)
                } else {
                    PacketDataView::ReliableUnordered(ms)
                },
            ),
        ),
    }
}

/// Write a fragment with tag `tag` to the front of `bytes`.
fn write_fragment(
    bytes: &mut [u8],
    tag: u8,
    chunk_id: u16,
    num: u8,
    id: u8,
    data: &Vec<u8>,
) -> (r: Result<(), ByteReprError>)
    requires
        5 + data@.len() <= usize::MAX,
    ensures
        final(bytes)@.len() == old(bytes)@.len(),
        ({
            let enc = seq![tag] + spec_fragment_bytes(chunk_id, num, id, data@);
            &&& r is Ok <==> enc.len() <= old(bytes)@.len()
            &&& r is Ok ==> final(bytes)@ == enc + old(bytes)@.subrange(
                enc.len() as int,
                old(bytes)@.len() as int,
            )
            &&& r is Err ==> r == Err::<(), ByteReprError>(ByteReprError::SliceTooShort)
        }),
{
    proof {
        lemma_auto_spec_u16_to_from_le_bytes();
    }
    let mut out: Vec<u8> = Vec::new();
    out.push(tag);
    let mut c = u16_to_le_bytes(chunk_id);
    out.append(&mut c);
    out.push(num);
    out.push(id);
    let mut k: usize = 0;
    while k < data.len()
        invariant
            k <= data@.len(),
            out@ == seq![tag] + spec_u16_to_le_bytes(chunk_id) + seq![num, id] + data@.take(k as int),
        decreases data@.len() - k,
    {
        out.push(data[k]);
        proof {
            assert(data@.take(k + 1) =~= data@.take(k as int).push(data@[k as int]));
        }
        k = k + 1;
    }
    proof {
        assert(data@.take(k as int) =~= data@);
        assert(out@ =~= seq![tag] + spec_fragment_bytes(chunk_id, num, id, data@));
    }
    crate::byte_repr::write_prefix(bytes, out.as_slice())
}

/// Read the part of a fragment after its tag.
fn read_fragment(b: &[u8]) -> (r: Result<(u16, u8, u8, Vec<u8>), ByteReprError>)
    ensures
        match (r, spec_fragment_from(b@)) {
            (Ok((c, n, i, d)), Some(Ok((sc, sn, si, sd)))) => c == sc && n == sn && i == si && d@
                == sd,
            (Err(e), Some(Err(se))) => e == se,
            _ => false,
        },
{
    if b.len() < 4 + MAX_PACKET_DATA_LEN {
        return Err(ByteReprError::SliceTooShort);
    }
    let chunk_id = u16_from_le_bytes(vstd::slice::slice_subrange(b, 0, 2));
    let data = vstd::slice::slice_to_vec(vstd::slice::slice_subrange(b, 4, 4 + MAX_PACKET_DATA_LEN));
    Ok((chunk_id, b[2], b[3], data))
}

impl<M: ByteRepr> ByteRepr for PacketData<M> {
    const MIN_BYTE_LEN: usize = 1;
    const MAX_BYTE_LEN: usize = 1 + 4 + MAX_PACKET_DATA_LEN;

    open spec fn spec_to_bytes(v: PacketDataView<M::V>) -> Seq<u8> {
        match v {
            PacketDataView::Heartbeat => seq![0u8],
            PacketDataView::Unreliable(ms) => seq![1u8] + Vec::<M>::spec_to_bytes(ms),
            PacketDataView::UnreliableFragment(c, n, i, d) => seq![2u8] + spec_fragment_bytes(
                c,
                n,
                i,
                d,
            ),
            PacketDataView::ReliableOrdered(ms) => seq![3u8] + Vec::<M>::spec_to_bytes(ms),
            PacketDataView::ReliableOrderedFragment(c, n, i, d) => seq![4u8] + spec_fragment_bytes(
                c,
                n,
                i,
                d,
            ),
            PacketDataView::ReliableUnordered(ms) => seq![5u8] + Vec::<M>::spec_to_bytes(ms),
        }
    }

    open spec fn spec_representable(v: PacketDataView<M::V>) -> bool {
        match v {
            PacketDataView::Heartbeat => true,
            PacketDataView::Unreliable(ms) => Vec::<M>::spec_representable(ms),
            PacketDataView::UnreliableFragment(c, n, i, d) => d.len() == MAX_PACKET_DATA_LEN,
            PacketDataView::ReliableOrdered(ms) => Vec::<M>::spec_representable(ms),
            PacketDataView::ReliableOrderedFragment(c, n, i, d) => d.len() == MAX_PACKET_DATA_LEN,
            PacketDataView::ReliableUnordered(ms) => Vec::<M>::spec_representable(ms),
        }
    }

    /// The tag byte selects the variant; any tag above 5 is an invalid value.
    open spec fn spec_from_bytes(bytes: Seq<u8>) -> Option<Result<PacketDataView<M::V>, ByteReprError>> {
        if bytes.len() < 1 {
            Some(Err(ByteReprError::SliceTooShort))
        } else {
            let tag = bytes[0];
            let rest = bytes.subrange(1, bytes.len() as int);
            if tag == 0 {
                Some(Ok(PacketDataView::Heartbeat))
            } else if tag == 1 || tag == 3 || tag == 5 {
                spec_messages_from(Vec::<M>::spec_from_bytes(rest), tag)
            } else if tag == 2 || tag == 4 {
                match spec_fragment_from(rest) {
                    None => None,
                    Some(Err(e)) => Some(Err(e)),
                    Some(Ok((c, n, i, d))) => Some(
                        Ok(
                            if tag == 2 {
                                PacketDataView::UnreliableFragment(c, n, i, d)
                            } else {
                                PacketDataView::ReliableOrderedFragment(c, n, i, d)
                            },
                        ),
                    ),
                }
            } else {
                Some(Err(ByteReprError::InvalidValue))
            }
        }
    }

    fn byte_len(&self) -> (n: usize) {
        proof {
            lemma_auto_spec_u16_to_from_le_bytes();
        }
        match self {
            PacketData::Heartbeat => 1,
            PacketData::Unreliable { messages } => 1 + messages.byte_len(),
            PacketData::UnreliableFragment { data, .. } => 1 + 4 + data.len(),
            PacketData::ReliableOrdered { messages } => 1 + messages.byte_len(),
            PacketData::ReliableOrderedFragment { data, .. } => 1 + 4 + data.len(),
            PacketData::ReliableUnordered { messages } => 1 + messages.byte_len(),
        }
    }

    fn checked_byte_len(&self) -> (n: Option<usize>) {
        proof {
            lemma_auto_spec_u16_to_from_le_bytes();
        }
        match self {
            PacketData::Heartbeat => Some(1),
            PacketData::Unreliable { messages } | PacketData::ReliableOrdered { messages }
            | PacketData::ReliableUnordered { messages } => match messages.checked_byte_len() {
                Some(l) => l.checked_add(1),
                None => None,
            },
            PacketData::UnreliableFragment { data, .. }
            | PacketData::ReliableOrderedFragment { data, .. } => data.len().checked_add(5),
        }
    }

    fn write_to_bytes(&self, bytes: &mut [u8]) -> (r: Result<(), ByteReprError>) {
        proof {
            lemma_auto_spec_u16_to_from_le_bytes();
        }
        if bytes.len() < 1 {
            return Err(ByteReprError::SliceTooShort);
        }
        let (tag, messages): (u8, &Vec<M>) = match self {
            PacketData::Heartbeat => {
                bytes[0] = 0;
                assert(bytes@ =~= seq![0u8] + old(bytes)@.subrange(1, old(bytes)@.len() as int));
                return Ok(());
            },
            PacketData::UnreliableFragment { chunk_id, num_fragments, fragment_id, data } => {
                return write_fragment(bytes, 2, *chunk_id, *num_fragments, *fragment_id, data);
            },
            PacketData::ReliableOrderedFragment { chunk_id, num_fragments, fragment_id, data } => {
                return write_fragment(bytes, 4, *chunk_id, *num_fragments, *fragment_id, data);
            },
            PacketData::Unreliable { messages } => (1, messages),
            PacketData::ReliableOrdered { messages } => (3, messages),
            PacketData::ReliableUnordered { messages } => (5, messages),
        };
        let r = crate::byte_repr::write_item_at(messages, bytes, 1);
        if r.is_ok() {
            bytes[0] = tag;
            assert(bytes@ =~= seq![tag] + Vec::<M>::spec_to_bytes(messages.deep_view()) + old(
                bytes,
            )@.subrange(
                1 + Vec::<M>::spec_to_bytes(messages.deep_view()).len() as int,
                old(bytes)@.len() as int,
            ));
        }
        r
    }

    fn try_from_bytes(bytes: &[u8]) -> (r: Option<Result<PacketData<M>, ByteReprError>>) {
        if bytes.len() < 1 {
            return Some(Err(ByteReprError::SliceTooShort));
        }
        let tag = bytes[0];
        let rest = vstd::slice::slice_subrange(bytes, 1, bytes.len());
        if tag == 0 {
            Some(Ok(PacketData::Heartbeat))
        } else if tag == 1 || tag == 3 || tag == 5 {
            match Vec::<M>::try_from_bytes(rest) {
                None => None,
                Some(Err(e)) => Some(Err(e)),
                Some(Ok(messages)) => Some(
                    Ok(
                        if tag == 1 {
                            PacketData::Unreliable { messages }
                        } else if tag == 3 {
                            PacketData::ReliableOrdered { messages }
                        } else {
                            PacketData::ReliableUnordered { messages }
                        },
                    ),
                ),
            }
        } else if tag == 2 || tag == 4 {
            match read_fragment(rest) {
                Err(e) => Some(Err(e)),
                Ok((chunk_id, num_fragments, fragment_id, data)) => Some(
                    Ok(
                        if tag == 2 {
                            PacketData::UnreliableFragment {
                                chunk_id,
                                num_fragments,
                                fragment_id,
                                data,
                            }
                        } else {
                            PacketData::ReliableOrderedFragment {
                                chunk_id,
                                num_fragments,
                                fragment_id,
                                data,
                            }
                        },
                    ),
                ),
            }
        } else {
            Some(Err(ByteReprError::InvalidValue))
        }
    }

    proof fn lemma_roundtrip(v: PacketDataView<M::V>, rest: Seq<u8>) {
        lemma_auto_spec_u16_to_from_le_bytes();
        let all = Self::spec_to_bytes(v) + rest;
        let tail = all.subrange(1, all.len() as int);
        match v {
            PacketDataView::Heartbeat => {},
            PacketDataView::Unreliable(ms) => {
                assert(tail =~= Vec::<M>::spec_to_bytes(ms) + rest);
                Vec::<M>::lemma_roundtrip(ms, rest);
            },
            PacketDataView::ReliableOrdered(ms) => {
                assert(tail =~= Vec::<M>::spec_to_bytes(ms) + rest);
                Vec::<M>::lemma_roundtrip(ms, rest);
            },
            PacketDataView::ReliableUnordered(ms) => {
                assert(tail =~= Vec::<M>::spec_to_bytes(ms) + rest);
                Vec::<M>::lemma_roundtrip(ms, rest);
            },
            PacketDataView::UnreliableFragment(c, n, i, d) => {
                assert(tail =~= spec_fragment_bytes(c, n, i, d) + rest);
                assert(tail.subrange(0, 2) =~= spec_u16_to_le_bytes(c));
                assert(tail.subrange(4, 4 + MAX_PACKET_DATA_LEN) =~= d);
            },
            PacketDataView::ReliableOrderedFragment(c, n, i, d) => {
                assert(tail =~= spec_fragment_bytes(c, n, i, d) + rest);
                assert(tail.subrange(0, 2) =~= spec_u16_to_le_bytes(c));
                assert(tail.subrange(4, 4 + MAX_PACKET_DATA_LEN) =~= d);
            },
        }
    }

    proof fn lemma_min_len(v: PacketDataView<M::V>) {
    }
}

/// A packet: the acknowledgement it carries and its contents.
pub struct Packet<M> {
    pub ack: PacketAck,
    pub ty: PacketData<M>,
}

impl<M: DeepView> DeepView for Packet<M> {
    type V = (PacketAck, PacketDataView<M::V>);

    open spec fn deep_view(&self) -> (PacketAck, PacketDataView<M::V>) {
        (self.ack, self.ty.deep_view())
    }
}

impl<M> Packet<M> {
    /// A packet that carries only `ack`.
    pub fn heartbeat(ack: PacketAck) -> (r: Self)
        ensures
            r.ack == ack,
            r.ty is Heartbeat,
    {
        Packet { ack, ty: PacketData::Heartbeat }
    }
}

impl<M: ByteRepr> ByteRepr for Packet<M> {
    const MIN_BYTE_LEN: usize = 14 + 1;
    const MAX_BYTE_LEN: usize = 14 + 1 + 4 + MAX_PACKET_DATA_LEN;

    open spec fn spec_to_bytes(v: (PacketAck, PacketDataView<M::V>)) -> Seq<u8> {
        spec_ack_bytes(v.0) + PacketData::<M>::spec_to_bytes(v.1)
    }

    open spec fn spec_representable(v: (PacketAck, PacketDataView<M::V>)) -> bool {
        PacketData::<M>::spec_representable(v.1) && 14 + PacketData::<M>::spec_to_bytes(v.1).len()
            <= usize::MAX
    }

    open spec fn spec_from_bytes(bytes: Seq<u8>) -> Option<
        Result<(PacketAck, PacketDataView<M::V>), ByteReprError>,
    > {
        if bytes.len() < 14 {
            Some(Err(ByteReprError::SliceTooShort))
        } else {
            match PacketData::<M>::spec_from_bytes(bytes.subrange(14, bytes.len() as int)) {
                None => None,
                Some(Err(e)) => Some(Err(e)),
                Some(Ok(d)) => Some(Ok((spec_ack_from(bytes), d))),
            }
        }
    }

    fn byte_len(&self) -> (n: usize) {
        proof {
            lemma_auto_spec_u16_to_from_le_bytes();
            lemma_auto_spec_u32_to_from_le_bytes();
        }
        14 + self.ty.byte_len()
    }

    fn checked_byte_len(&self) -> (n: Option<usize>) {
        proof {
            lemma_auto_spec_u16_to_from_le_bytes();
            lemma_auto_spec_u32_to_from_le_bytes();
        }
        match self.ty.checked_byte_len() {
            Some(l) => l.checked_add(14),
            None => None,
        }
    }

    fn write_to_bytes(&self, bytes: &mut [u8]) -> (r: Result<(), ByteReprError>) {
        proof {
            lemma_auto_spec_u16_to_from_le_bytes();
            lemma_auto_spec_u32_to_from_le_bytes();
        }
        match self.ack.write_to_bytes(bytes) {
            Ok(()) => {},
            Err(e) => {
                return Err(e);
            },
        }
        let ghost mid = bytes@;
        let r = crate::byte_repr::write_item_at(&self.ty, bytes, 14);
        proof {
            if r is Ok {
                assert(bytes@ =~= Self::spec_to_bytes(self.deep_view()) + old(bytes)@.subrange(
                    Self::spec_to_bytes(self.deep_view()).len() as int,
                    old(bytes)@.len() as int,
                ));
            }
        }
        r
    }

    fn try_from_bytes(bytes: &[u8]) -> (r: Option<Result<Packet<M>, ByteReprError>>) {
        let ack = match PacketAck::try_from_bytes(bytes) {
            Some(Ok(ack)) => ack,
            Some(Err(e)) => {
                return Some(Err(e));
            },
            None => {
                return None;
            },
        };
        let rest = vstd::slice::slice_subrange(bytes, 14, bytes.len());
        match PacketData::<M>::try_from_bytes(rest) {
            None => None,
            Some(Err(e)) => Some(Err(e)),
            Some(Ok(ty)) => Some(Ok(Packet { ack, ty })),
        }
    }

    proof fn lemma_roundtrip(v: (PacketAck, PacketDataView<M::V>), rest: Seq<u8>) {
        lemma_auto_spec_u16_to_from_le_bytes();
        lemma_auto_spec_u32_to_from_le_bytes();
        let all = Self::spec_to_bytes(v) + rest;
        PacketAck::lemma_roundtrip(v.0, PacketData::<M>::spec_to_bytes(v.1) + rest);
        assert(all =~= spec_ack_bytes(v.0) + (PacketData::<M>::spec_to_bytes(v.1) + rest));
        assert(all.subrange(14, all.len() as int) =~= PacketData::<M>::spec_to_bytes(v.1) + rest);
        PacketData::<M>::lemma_roundtrip(v.1, rest);
    }

    proof fn lemma_min_len(v: (PacketAck, PacketDataView<M::V>)) {
        lemma_auto_spec_u16_to_from_le_bytes();
        lemma_auto_spec_u32_to_from_le_bytes();
    }
}

} // verus!
