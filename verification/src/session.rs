//! The packets of a session: a connection set up by the handshake of [`crate::connection`].
//!
//! On the wire a packet is a CRC (4 bytes, little-endian) over the rest, then a
//! [`PacketHeader`], then, for data packets, the [`PacketData`]. The header of a handshake
//! packet carries the handshake message; the header of a data packet carries the salt of the
//! session instead, so that packets of another session are told apart.
use vstd::prelude::*;
use vstd::bytes::*;
use crate::byte_repr::{ByteRepr, ByteReprError, StaticByteRepr, write_prefix, write_at};
use crate::connection::{
    ConnectionState,
    InsecureConnection,
    InsecureConnectionEstablishment,
    PeerAddr,
    spec_check_data,
};
use crate::error::Error;
use crate::frame::{crc_checksum, seal_frame, spec_crc32, spec_frame};
use crate::packet::{PacketData, PacketDataView};

verus! {

/// The acknowledgements a packet of a session carries for the reliable packets its sender has
/// received.
#[derive(Debug, Clone, Copy, PartialEq, Eq, Structural)]
pub struct PacketAck {
    /// The id of the most recent reliable received packet.
    pub reliable_newest_received: u16,
    /// Bit `i` tells whether the reliable packet `reliable_newest_received - i` was received.
    pub reliable_ack_bits: u32,
    /// The id of the most recent reliable ordered received packet.
    pub ordered_newest_received: u16,
    /// Bit `i` tells whether the reliable ordered packet `ordered_newest_received - i` was
    /// received.
    pub ordered_ack_bits: u32,
}

/// The acknowledgements for one kind of reliable packet.
#[derive(Debug, Clone, Copy, PartialEq, Eq, Structural)]
pub struct PartialPacketAck {
    pub newest_received: u16,
    pub ack_bits: u32,
}

impl PartialPacketAck {
    /// The acknowledgements given as `(newest_received, ack_bits)`.
    pub fn new(parts: (u16, u32)) -> (r: Self)
        ensures
            r.newest_received == parts.0,
            r.ack_bits == parts.1,
    {
        PartialPacketAck { newest_received: parts.0, ack_bits: parts.1 }
    }
}

/// The acknowledgement that carries `ack` for reliable ordered packets and acknowledges no
/// reliable unordered packet.
pub open spec fn ack_of_partial(ack: PartialPacketAck) -> PacketAck {
    PacketAck {
        reliable_newest_received: 0,
        reliable_ack_bits: 0,
        ordered_newest_received: ack.newest_received,
        ordered_ack_bits: ack.ack_bits,
    }
}

impl PacketAck {
    /// The acknowledgement that carries `ack` for reliable ordered packets and acknowledges no
    /// reliable unordered packet.
    pub fn from_reliable_ordered_ack(ack: PartialPacketAck) -> (r: Self)
        ensures
            r == ack_of_partial(ack),
    {
        PacketAck {
            reliable_newest_received: 0,
            reliable_ack_bits: 0,
            ordered_newest_received: ack.newest_received,
            ordered_ack_bits: ack.ack_bits,
        }
    }
}

impl DeepView for PacketAck {
    type V = PacketAck;

    open spec fn deep_view(&self) -> PacketAck {
        *self
    }
}

/// The bytes of a [`PacketAck`]: its fields in order, little-endian.
pub open spec fn spec_ack_bytes(a: PacketAck) -> Seq<u8> {
    spec_u16_to_le_bytes(a.reliable_newest_received) + spec_u32_to_le_bytes(a.reliable_ack_bits)
        + spec_u16_to_le_bytes(a.ordered_newest_received) + spec_u32_to_le_bytes(
        a.ordered_ack_bits,
    )
}

/// The [`PacketAck`] that the first 12 bytes of `b` hold.
pub open spec fn spec_ack_from(b: Seq<u8>) -> PacketAck {
    PacketAck {
        reliable_newest_received: spec_u16_from_le_bytes(b.subrange(0, 2)),
        reliable_ack_bits: spec_u32_from_le_bytes(b.subrange(2, 6)),
        ordered_newest_received: spec_u16_from_le_bytes(b.subrange(6, 8)),
        ordered_ack_bits: spec_u32_from_le_bytes(b.subrange(8, 12)),
    }
}

impl ByteRepr for PacketAck {
    const MIN_BYTE_LEN: usize = 12;
    const MAX_BYTE_LEN: usize = 12;

    open spec fn spec_to_bytes(v: PacketAck) -> Seq<u8> {
        spec_ack_bytes(v)
    }

    open spec fn spec_representable(v: PacketAck) -> bool {
        true
    }

    open spec fn spec_from_bytes(bytes: Seq<u8>) -> Option<Result<PacketAck, ByteReprError>> {
        if bytes.len() < 12 {
            Some(Err(ByteReprError::SliceTooShort))
        } else {
            Some(Ok(spec_ack_from(bytes)))
        }
    }

    fn byte_len(&self) -> (n: usize) {
        proof {
            lemma_auto_spec_u16_to_from_le_bytes();
            lemma_auto_spec_u32_to_from_le_bytes();
        }
        12
    }

    fn checked_byte_len(&self) -> (n: Option<usize>) {
        proof {
            lemma_auto_spec_u16_to_from_le_bytes();
            lemma_auto_spec_u32_to_from_le_bytes();
        }
        Some(12)
    }

    fn write_to_bytes(&self, bytes: &mut [u8]) -> (r: Result<(), ByteReprError>) {
        proof {
            lemma_auto_spec_u16_to_from_le_bytes();
            lemma_auto_spec_u32_to_from_le_bytes();
        }
        let out = ack_vec(self);
        write_prefix(bytes, out.as_slice())
    }

    fn try_from_bytes(bytes: &[u8]) -> (r: Option<Result<PacketAck, ByteReprError>>) {
        if bytes.len() < 12 {
            return Some(Err(ByteReprError::SliceTooShort));
        }
        let ack = PacketAck {
            reliable_newest_received: u16_from_le_bytes(vstd::slice::slice_subrange(bytes, 0, 2)),
            reliable_ack_bits: u32_from_le_bytes(vstd::slice::slice_subrange(bytes, 2, 6)),
            ordered_newest_received: u16_from_le_bytes(vstd::slice::slice_subrange(bytes, 6, 8)),
            ordered_ack_bits: u32_from_le_bytes(vstd::slice::slice_subrange(bytes, 8, 12)),
        };
        Some(Ok(ack))
    }

    proof fn lemma_roundtrip(v: PacketAck, rest: Seq<u8>) {
        lemma_auto_spec_u16_to_from_le_bytes();
        lemma_auto_spec_u32_to_from_le_bytes();
        let all = spec_ack_bytes(v) + rest;
        assert(all.subrange(0, 2) =~= spec_u16_to_le_bytes(v.reliable_newest_received));
        assert(all.subrange(2, 6) =~= spec_u32_to_le_bytes(v.reliable_ack_bits));
        assert(all.subrange(6, 8) =~= spec_u16_to_le_bytes(v.ordered_newest_received));
        assert(all.subrange(8, 12) =~= spec_u32_to_le_bytes(v.ordered_ack_bits));
    }

    proof fn lemma_min_len(v: PacketAck) {
        lemma_auto_spec_u16_to_from_le_bytes();
        lemma_auto_spec_u32_to_from_le_bytes();
    }
}

impl StaticByteRepr for PacketAck {
    const BYTE_LEN: usize = 12;
}

impl DeepView for InsecureConnectionEstablishment {
    type V = InsecureConnectionEstablishment;

    open spec fn deep_view(&self) -> InsecureConnectionEstablishment {
        *self
    }
}

/// The padding array whose bytes are `b`.
pub open spec fn padding_of(b: Seq<u8>) -> [u8; 200] {
    choose|a: [u8; 200]| a@ == b
}

/// The bytes of a handshake message: a tag (0 to 3 in the order of the variants), then the
/// fields, integers little-endian.
pub open spec fn spec_establishment_bytes(e: InsecureConnectionEstablishment) -> Seq<u8> {
    match e {
        InsecureConnectionEstablishment::Connect { local_salt, ddos_padding } => seq![0u8]
            + spec_u32_to_le_bytes(local_salt) + ddos_padding@,
        InsecureConnectionEstablishment::Challenge { local_salt, remote_salt } => seq![1u8]
            + spec_u32_to_le_bytes(local_salt) + spec_u32_to_le_bytes(remote_salt),
        InsecureConnectionEstablishment::ChallengeResponse { salt } => seq![2u8]
            + spec_u32_to_le_bytes(salt),
        InsecureConnectionEstablishment::ConnectionAccepted { salt } => seq![3u8]
            + spec_u32_to_le_bytes(salt),
    }
}

/// Reading a handshake message from the front of `b`.
pub open spec fn spec_establishment_from(b: Seq<u8>) -> Option<
    Result<InsecureConnectionEstablishment, ByteReprError>,
> {
    if b.len() < 1 {
        Some(Err(ByteReprError::SliceTooShort))
    } else if b[0] == 0 {
        if b.len() < 205 {
            Some(Err(ByteReprError::SliceTooShort))
        } else {
            Some(
                Ok(
                    InsecureConnectionEstablishment::Connect {
                        local_salt: spec_u32_from_le_bytes(b.subrange(1, 5)),
                        ddos_padding: padding_of(b.subrange(5, 205)),
                    },
                ),
            )
        }
    } else if b[0] == 1 {
        if b.len() < 9 {
            Some(Err(ByteReprError::SliceTooShort))
        } else {
            Some(
                Ok(
                    InsecureConnectionEstablishment::Challenge {
                        local_salt: spec_u32_from_le_bytes(b.subrange(1, 5)),
                        remote_salt: spec_u32_from_le_bytes(b.subrange(5, 9)),
                    },
                ),
            )
        }
    } else if b[0] == 2 || b[0] == 3 {
        if b.len() < 5 {
            Some(Err(ByteReprError::SliceTooShort))
        } else {
            let salt = spec_u32_from_le_bytes(b.subrange(1, 5));
            Some(
                Ok(
                    if b[0] == 2 {
                        InsecureConnectionEstablishment::ChallengeResponse { salt }
                    } else {
                        InsecureConnectionEstablishment::ConnectionAccepted { salt }
                    },
                ),
            )
        }
    } else {
        Some(Err(ByteReprError::InvalidValue))
    }
}

/// The tag followed by a `u32`, as bytes.
fn tagged_u32(tag: u8, x: u32) -> (r: Vec<u8>)
    ensures
        r@ == seq![tag] + spec_u32_to_le_bytes(x),
{
    let mut out: Vec<u8> = Vec::new();
    out.push(tag);
    let mut b = u32_to_le_bytes(x);
    out.append(&mut b);
    assert(out@ =~= seq![tag] + spec_u32_to_le_bytes(x));
    out
}

impl ByteRepr for InsecureConnectionEstablishment {
    const MIN_BYTE_LEN: usize = 5;
    const MAX_BYTE_LEN: usize = 205;

    open spec fn spec_to_bytes(v: InsecureConnectionEstablishment) -> Seq<u8> {
        spec_establishment_bytes(v)
    }

    open spec fn spec_representable(v: InsecureConnectionEstablishment) -> bool {
        true
    }

    open spec fn spec_from_bytes(bytes: Seq<u8>) -> Option<
        Result<InsecureConnectionEstablishment, ByteReprError>,
    > {
        spec_establishment_from(bytes)
    }

    fn byte_len(&self) -> (n: usize) {
        proof {
            lemma_auto_spec_u32_to_from_le_bytes();
        }
        match self {
            InsecureConnectionEstablishment::Connect { .. } => 205,
            InsecureConnectionEstablishment::Challenge { .. } => 9,
            InsecureConnectionEstablishment::ChallengeResponse { .. } => 5,
            InsecureConnectionEstablishment::ConnectionAccepted { .. } => 5,
        }
    }

    fn checked_byte_len(&self) -> (n: Option<usize>) {
        proof {
            lemma_auto_spec_u32_to_from_le_bytes();
        }
        Some(self.byte_len())
    }

    fn write_to_bytes(&self, bytes: &mut [u8]) -> (r: Result<(), ByteReprError>) {
        proof {
            lemma_auto_spec_u32_to_from_le_bytes();
        }
        match self {
            InsecureConnectionEstablishment::Connect { local_salt, ddos_padding } => {
                if bytes.len() < 205 {
                    return Err(ByteReprError::SliceTooShort);
                }
                let out = tagged_u32(0, *local_salt);
                let r = write_prefix(bytes, out.as_slice());
                assert(r is Ok);
                let ghost mid = bytes@;
                let pad = ddos_padding.as_slice();
                let r2 = write_at(bytes, 5, pad);
                assert(r2 is Ok);
                proof {
                    let enc = spec_establishment_bytes(*self);
                    assert(bytes@ =~= enc + old(bytes)@.subrange(205, old(bytes)@.len() as int));
                }
                Ok(())
            },
            InsecureConnectionEstablishment::Challenge { local_salt, remote_salt } => {
                let mut out = tagged_u32(1, *local_salt);
                let mut b = u32_to_le_bytes(*remote_salt);
                out.append(&mut b);
                assert(out@ =~= spec_establishment_bytes(*self));
                write_prefix(bytes, out.as_slice())
            },
            InsecureConnectionEstablishment::ChallengeResponse { salt } => {
                let out = tagged_u32(2, *salt);
                write_prefix(bytes, out.as_slice())
            },
            InsecureConnectionEstablishment::ConnectionAccepted { salt } => {
                let out = tagged_u32(3, *salt);
                write_prefix(bytes, out.as_slice())
            },
        }
    }

    fn try_from_bytes(bytes: &[u8]) -> (r: Option<
        Result<InsecureConnectionEstablishment, ByteReprError>,
    >) {
        if bytes.len() < 1 {
            return Some(Err(ByteReprError::SliceTooShort));
        }
        let tag = bytes[0];
        if tag == 0 {
            if bytes.len() < 205 {
                return Some(Err(ByteReprError::SliceTooShort));
            }
            let local_salt = u32_from_le_bytes(vstd::slice::slice_subrange(bytes, 1, 5));
            let mut pad: [u8; 200] = [0u8; 200];
            let mut i: usize = 0;
            while i < 200
                invariant
                    bytes@.len() >= 205,
                    i <= 200,
                    pad@.len() == 200,
                    forall|j: int| 0 <= j < i ==> pad@[j] == bytes@[5 + j],
                decreases 200 - i,
            {
                pad[i] = bytes[5 + i];
                i = i + 1;
            }
            proof {
                let want = bytes@.subrange(5, 205);
                assert(pad@ =~= want);
                let chosen = padding_of(want);
                assert(chosen@ == want);
                assert(chosen =~= pad);
            }
            Some(
                Ok(InsecureConnectionEstablishment::Connect { local_salt, ddos_padding: pad }),
            )
        } else if tag == 1 {
            if bytes.len() < 9 {
                return Some(Err(ByteReprError::SliceTooShort));
            }
            Some(
                Ok(
                    InsecureConnectionEstablishment::Challenge {
                        local_salt: u32_from_le_bytes(vstd::slice::slice_subrange(bytes, 1, 5)),
                        remote_salt: u32_from_le_bytes(vstd::slice::slice_subrange(bytes, 5, 9)),
                    },
                ),
            )
        } else if tag == 2 || tag == 3 {
            if bytes.len() < 5 {
                return Some(Err(ByteReprError::SliceTooShort));
            }
            let salt = u32_from_le_bytes(vstd::slice::slice_subrange(bytes, 1, 5));
            if tag == 2 {
                Some(Ok(InsecureConnectionEstablishment::ChallengeResponse { salt }))
            } else {
                Some(Ok(InsecureConnectionEstablishment::ConnectionAccepted { salt }))
            }
        } else {
            Some(Err(ByteReprError::InvalidValue))
        }
    }

    proof fn lemma_roundtrip(v: InsecureConnectionEstablishment, rest: Seq<u8>) {
        lemma_auto_spec_u32_to_from_le_bytes();
        let all = spec_establishment_bytes(v) + rest;
        match v {
            InsecureConnectionEstablishment::Connect { local_salt, ddos_padding } => {
                assert(all.subrange(1, 5) =~= spec_u32_to_le_bytes(local_salt));
                assert(all.subrange(5, 205) =~= ddos_padding@);
                let chosen = padding_of(all.subrange(5, 205));
                assert(chosen@ == ddos_padding@);
                assert(chosen =~= ddos_padding);
            },
            InsecureConnectionEstablishment::Challenge { local_salt, remote_salt } => {
                assert(all.subrange(1, 5) =~= spec_u32_to_le_bytes(local_salt));
                assert(all.subrange(5, 9) =~= spec_u32_to_le_bytes(remote_salt));
            },
            InsecureConnectionEstablishment::ChallengeResponse { salt } => {
                assert(all.subrange(1, 5) =~= spec_u32_to_le_bytes(salt));
            },
            InsecureConnectionEstablishment::ConnectionAccepted { salt } => {
                assert(all.subrange(1, 5) =~= spec_u32_to_le_bytes(salt));
            },
        }
    }

    proof fn lemma_min_len(v: InsecureConnectionEstablishment) {
        lemma_auto_spec_u32_to_from_le_bytes();
    }
}


/// The bytes of `a`.
fn ack_vec(a: &PacketAck) -> (r: Vec<u8>)
    ensures
        r@ == spec_ack_bytes(*a),
{
    let mut out = u16_to_le_bytes(a.reliable_newest_received);
    let mut b = u32_to_le_bytes(a.reliable_ack_bits);
    out.append(&mut b);
    let mut b = u16_to_le_bytes(a.ordered_newest_received);
    out.append(&mut b);
    let mut b = u32_to_le_bytes(a.ordered_ack_bits);
    out.append(&mut b);
    assert(out@ =~= spec_ack_bytes(*a));
    out
}

/// The header of a packet of a session.
#[derive(Debug, Clone, Copy)]
pub enum PacketHeader {
    /// The header of a handshake packet, which carries the handshake message.
    Unprotected { sequence_id: u16, ack: PacketAck, con_data: InsecureConnectionEstablishment },
    /// The header of a data packet, which carries the salt of the session.
    Protected { sequence_id: u16, ack: PacketAck, header: u32 },
}

impl DeepView for PacketHeader {
    type V = PacketHeader;

    open spec fn deep_view(&self) -> PacketHeader {
        *self
    }
}

/// The bytes of a header: a tag (0 unprotected, 1 protected), the sequence id, the
/// acknowledgement, then the handshake message or the salt.
pub open spec fn spec_header_bytes(h: PacketHeader) -> Seq<u8> {
    match h {
        PacketHeader::Unprotected { sequence_id, ack, con_data } => seq![0u8]
            + spec_u16_to_le_bytes(sequence_id) + spec_ack_bytes(ack) + spec_establishment_bytes(
            con_data,
        ),
        PacketHeader::Protected { sequence_id, ack, header } => seq![1u8] + spec_u16_to_le_bytes(
            sequence_id,
        ) + spec_ack_bytes(ack) + spec_u32_to_le_bytes(header),
    }
}

/// Reading a header from the front of `b`.
pub open spec fn spec_header_from(b: Seq<u8>) -> Option<Result<PacketHeader, ByteReprError>> {
    if b.len() < 1 {
        Some(Err(ByteReprError::SliceTooShort))
    } else if b[0] == 0 {
        if b.len() < 15 {
            Some(Err(ByteReprError::SliceTooShort))
        } else {
            match spec_establishment_from(b.subrange(15, b.len() as int)) {
                None => None,
                Some(Err(e)) => Some(Err(e)),
                Some(Ok(c)) => Some(
                    Ok(
                        PacketHeader::Unprotected {
                            sequence_id: spec_u16_from_le_bytes(b.subrange(1, 3)),
                            ack: spec_ack_from(b.subrange(3, 15)),
                            con_data: c,
                        },
                    ),
                ),
            }
        }
    } else if b[0] == 1 {
        if b.len() < 19 {
            Some(Err(ByteReprError::SliceTooShort))
        } else {
            Some(
                Ok(
                    PacketHeader::Protected {
                        sequence_id: spec_u16_from_le_bytes(b.subrange(1, 3)),
                        ack: spec_ack_from(b.subrange(3, 15)),
                        header: spec_u32_from_le_bytes(b.subrange(15, 19)),
                    },
                ),
            )
        }
    } else {
        Some(Err(ByteReprError::InvalidValue))
    }
}

/// The tag, a sequence id and an acknowledgement, as bytes.
fn header_start(tag: u8, sequence_id: u16, ack: &PacketAck) -> (r: Vec<u8>)
    ensures
        r@ == seq![tag] + spec_u16_to_le_bytes(sequence_id) + spec_ack_bytes(*ack),
        r@.len() == 15,
{
    proof {
        lemma_auto_spec_u16_to_from_le_bytes();
        lemma_auto_spec_u32_to_from_le_bytes();
    }
    let mut out: Vec<u8> = Vec::new();
    out.push(tag);
    let mut b = u16_to_le_bytes(sequence_id);
    out.append(&mut b);
    let mut b = ack_vec(ack);
    out.append(&mut b);
    assert(out@ =~= seq![tag] + spec_u16_to_le_bytes(sequence_id) + spec_ack_bytes(*ack));
    out
}

impl ByteRepr for PacketHeader {
    const MIN_BYTE_LEN: usize = 19;
    const MAX_BYTE_LEN: usize = 15 + 205;

    open spec fn spec_to_bytes(v: PacketHeader) -> Seq<u8> {
        spec_header_bytes(v)
    }

    open spec fn spec_representable(v: PacketHeader) -> bool {
        true
    }

    open spec fn spec_from_bytes(bytes: Seq<u8>) -> Option<Result<PacketHeader, ByteReprError>> {
        spec_header_from(bytes)
    }

    fn byte_len(&self) -> (n: usize) {
        proof {
            lemma_auto_spec_u16_to_from_le_bytes();
            lemma_auto_spec_u32_to_from_le_bytes();
        }
        match self {
            PacketHeader::Unprotected { con_data, .. } => 15 + con_data.byte_len(),
            PacketHeader::Protected { .. } => 19,
        }
    }

    fn checked_byte_len(&self) -> (n: Option<usize>) {
        proof {
            lemma_auto_spec_u16_to_from_le_bytes();
            lemma_auto_spec_u32_to_from_le_bytes();
        }
        Some(self.byte_len())
    }

    fn write_to_bytes(&self, bytes: &mut [u8]) -> (r: Result<(), ByteReprError>) {
        proof {
            lemma_auto_spec_u16_to_from_le_bytes();
            lemma_auto_spec_u32_to_from_le_bytes();
        }
        match self {
            PacketHeader::Unprotected { sequence_id, ack, con_data } => {
                let out = header_start(0, *sequence_id, ack);
                match write_prefix(bytes, out.as_slice()) {
                    Ok(()) => {},
                    Err(e) => {
                        return Err(e);
                    },
                }
                let r = crate::byte_repr::write_item_at(con_data, bytes, 15);
                proof {
                    if r is Ok {
                        let enc = spec_header_bytes(*self);
                        assert(bytes@ =~= enc + old(bytes)@.subrange(
                            enc.len() as int,
                            old(bytes)@.len() as int,
                        ));
                    }
                }
                r
            },
            PacketHeader::Protected { sequence_id, ack, header } => {
                let mut out = header_start(1, *sequence_id, ack);
                let mut b = u32_to_le_bytes(*header);
                out.append(&mut b);
                assert(out@ =~= spec_header_bytes(*self));
                write_prefix(bytes, out.as_slice())
            },
        }
    }

    fn try_from_bytes(bytes: &[u8]) -> (r: Option<Result<PacketHeader, ByteReprError>>) {
        if bytes.len() < 1 {
            return Some(Err(ByteReprError::SliceTooShort));
        }
        let tag = bytes[0];
        if tag == 0 {
            if bytes.len() < 15 {
                return Some(Err(ByteReprError::SliceTooShort));
            }
            let sequence_id = u16_from_le_bytes(vstd::slice::slice_subrange(bytes, 1, 3));
            let ack = match PacketAck::try_from_bytes(vstd::slice::slice_subrange(bytes, 3, 15)) {
                Some(Ok(a)) => a,
                _ => {
                    return None;
                },
            };
            assert(bytes@.subrange(3, 15).subrange(0, 2) =~= bytes@.subrange(3, 5));
            let rest = vstd::slice::slice_subrange(bytes, 15, bytes.len());
            match InsecureConnectionEstablishment::try_from_bytes(rest) {
                None => None,
                Some(Err(e)) => Some(Err(e)),
                Some(Ok(con_data)) => {
                    proof {
                        let sub = bytes@.subrange(3, 15);
                        assert(sub.subrange(0, 2) =~= bytes@.subrange(3, 15).subrange(0, 2));
                    }
                    Some(Ok(PacketHeader::Unprotected { sequence_id, ack, con_data }))
                },
            }
        } else if tag == 1 {
            if bytes.len() < 19 {
                return Some(Err(ByteReprError::SliceTooShort));
            }
            let sequence_id = u16_from_le_bytes(vstd::slice::slice_subrange(bytes, 1, 3));
            let ack = match PacketAck::try_from_bytes(vstd::slice::slice_subrange(bytes, 3, 15)) {
                Some(Ok(a)) => a,
                _ => {
                    return None;
                },
            };
            let header = u32_from_le_bytes(vstd::slice::slice_subrange(bytes, 15, 19));
            Some(Ok(PacketHeader::Protected { sequence_id, ack, header }))
        } else {
            Some(Err(ByteReprError::InvalidValue))
        }
    }

    proof fn lemma_roundtrip(v: PacketHeader, rest: Seq<u8>) {
        lemma_auto_spec_u16_to_from_le_bytes();
        lemma_auto_spec_u32_to_from_le_bytes();
        let all = spec_header_bytes(v) + rest;
        match v {
            PacketHeader::Unprotected { sequence_id, ack, con_data } => {
                assert(all.subrange(1, 3) =~= spec_u16_to_le_bytes(sequence_id));
                assert(all.subrange(3, 15) =~= spec_ack_bytes(ack) + Seq::<u8>::empty());
                PacketAck::lemma_roundtrip(ack, Seq::<u8>::empty());
                assert(all.subrange(15, all.len() as int) =~= spec_establishment_bytes(con_data)
                    + rest);
                InsecureConnectionEstablishment::lemma_roundtrip(con_data, rest);
            },
            PacketHeader::Protected { sequence_id, ack, header } => {
                assert(all.subrange(1, 3) =~= spec_u16_to_le_bytes(sequence_id));
                assert(all.subrange(3, 15) =~= spec_ack_bytes(ack) + Seq::<u8>::empty());
                PacketAck::lemma_roundtrip(ack, Seq::<u8>::empty());
                assert(all.subrange(15, 19) =~= spec_u32_to_le_bytes(header));
            },
        }
    }

    proof fn lemma_min_len(v: PacketHeader) {
        lemma_auto_spec_u16_to_from_le_bytes();
        lemma_auto_spec_u32_to_from_le_bytes();
    }
}


/// A packet of a session.
pub enum Packet<M> {
    /// A handshake packet.
    Connection { sequence_id: u16, ack: PacketAck, con_data: InsecureConnectionEstablishment },
    /// A data packet.
    Data { sequence_id: u16, ack: PacketAck, data: PacketData<M> },
}

/// The view of a [`Packet`]: the same variants over the view of the data.
pub enum PacketView<V> {
    Connection(u16, PacketAck, InsecureConnectionEstablishment),
    Data(u16, PacketAck, PacketDataView<V>),
}

impl<M: DeepView> DeepView for Packet<M> {
    type V = PacketView<M::V>;

    open spec fn deep_view(&self) -> PacketView<M::V> {
        match self {
            Packet::Connection { sequence_id, ack, con_data } => PacketView::Connection(
                *sequence_id,
                *ack,
                *con_data,
            ),
            Packet::Data { sequence_id, ack, data } => PacketView::Data(
                *sequence_id,
                *ack,
                data.deep_view(),
            ),
        }
    }
}

/// The salt that data packets carry in connection state `s`: the agreed one once connected.
pub open spec fn session_salt(s: ConnectionState) -> u32 {
    match s {
        ConnectionState::Connected { info, .. } => info.salt,
        _ => 0,
    }
}

/// The bytes after the CRC of the packet `p` of a session whose data packets carry `salt`.
pub open spec fn spec_packet_bytes<M: ByteRepr>(p: PacketView<M::V>, salt: u32) -> Seq<u8> {
    match p {
        PacketView::Connection(sequence_id, ack, con_data) => spec_header_bytes(
            PacketHeader::Unprotected { sequence_id, ack, con_data },
        ),
        PacketView::Data(sequence_id, ack, data) => spec_header_bytes(
            PacketHeader::Protected { sequence_id, ack, header: salt },
        ) + PacketData::<M>::spec_to_bytes(data),
    }
}

/// What reading the received frame `frame` from `remote` in connection state `s` gives: the
/// packet, or the error; `None` where reading would run past the end of the frame. The CRC is
/// checked first; a data packet has to belong to the session (see [`spec_check_data`]).
pub open spec fn spec_read_packet<M: ByteRepr>(
    s: ConnectionState,
    protocol_version: u32,
    remote: PeerAddr,
    frame: Seq<u8>,
) -> Option<Result<PacketView<M::V>, Error>> {
    if frame.len() < 4 {
        Some(Err(Error::PacketLengthLessThanCrcBytes))
    } else if spec_crc32(protocol_version, frame.subrange(4, frame.len() as int))
        != spec_u32_from_le_bytes(frame.subrange(0, 4)) {
        Some(Err(Error::CrcFailed))
    } else {
        let body = frame.subrange(4, frame.len() as int);
        match spec_header_from(body) {
            None => None,
            Some(Err(e)) => Some(Err(Error::ByteRepr(e))),
            Some(Ok(PacketHeader::Unprotected { sequence_id, ack, con_data })) => Some(
                Ok(PacketView::Connection(sequence_id, ack, con_data)),
            ),
            Some(Ok(PacketHeader::Protected { sequence_id, ack, header })) => {
                match spec_check_data(s, remote, header) {
                    Err(e) => Some(Err(e)),
                    Ok(()) => match PacketData::<M>::spec_from_bytes(
                        body.subrange(19, body.len() as int),
                    ) {
                        None => None,
                        Some(Err(e)) => Some(Err(Error::ByteRepr(e))),
                        Some(Ok(d)) => Some(Ok(PacketView::Data(sequence_id, ack, d))),
                    },
                }
            },
        }
    }
}

impl InsecureConnection {
    /// Write the frame of `packet` to the front of `buffer`: the CRC for `protocol_version`,
    /// the header, and for a data packet its data. Data packets carry the salt of the
    /// connection, so they can only be written once it is established. Returns the number of
    /// bytes written.
    pub fn write_packet<M: ByteRepr>(
        &mut self,
        protocol_version: u32,
        buffer: &mut [u8],
        packet: Packet<M>,
    ) -> (r: Result<usize, Error>)
        requires
            old(buffer)@.len() >= 4,
            packet is Data ==> old(self).state is Connected,
            match packet {
                Packet::Data { data, .. } => PacketData::<M>::spec_to_bytes(data.deep_view()).len()
                    <= usize::MAX,
                _ => true,
            },
        ensures
            *final(self) == *old(self),
            final(buffer)@.len() == old(buffer)@.len(),
            ({
                let enc = spec_packet_bytes::<M>(packet.deep_view(), session_salt(old(self).state));
                &&& r is Ok <==> 4 + enc.len() <= old(buffer)@.len()
                &&& r is Ok ==> r == Ok::<usize, Error>((4 + enc.len()) as usize)
                    && final(buffer)@.subrange(0, 4 + enc.len() as int) == spec_frame(
                    protocol_version,
                    enc,
                )
                &&& r is Err ==> r == Err::<usize, Error>(Error::ByteRepr(ByteReprError::SliceTooShort))
            }),
    {
        proof {
            lemma_auto_spec_u16_to_from_le_bytes();
            lemma_auto_spec_u32_to_from_le_bytes();
        }
        let ghost enc = spec_packet_bytes::<M>(packet.deep_view(), match self.state {
            ConnectionState::Connected { info, .. } => info.salt,
            _ => 0,
        });
        match packet {
            Packet::Connection { sequence_id, ack, con_data } => {
                let header = PacketHeader::Unprotected { sequence_id, ack, con_data };
                match crate::byte_repr::write_item_at(&header, buffer, 4) {
                    Ok(()) => {},
                    Err(e) => {
                        return Err(Error::ByteRepr(e));
                    },
                }
                let len = header.byte_len();
                let ghost before = buffer@;
                seal_frame(buffer, len, protocol_version);
                assert(before.subrange(4, 4 + len as int) =~= enc);
                Ok(4 + len)
            },
            Packet::Data { sequence_id, ack, data } => {
                let salt = match self.state {
                    ConnectionState::Connected { info, .. } => info.salt,
                    _ => 0,
                };
                let header = PacketHeader::Protected { sequence_id, ack, header: salt };
                match crate::byte_repr::write_item_at(&header, buffer, 4) {
                    Ok(()) => {},
                    Err(e) => {
                        return Err(Error::ByteRepr(e));
                    },
                }
                let hl = header.byte_len();
                let total0 = buffer.len();
                assert(4 + hl <= total0);
                let ghost mid = buffer@;
                match crate::byte_repr::write_item_at(&data, buffer, 4 + hl) {
                    Ok(()) => {},
                    Err(e) => {
                        return Err(Error::ByteRepr(e));
                    },
                }
                let dl = data.byte_len();
                let total = buffer.len();
                assert(4 + hl + dl <= total);
                let ghost before = buffer@;
                seal_frame(buffer, hl + dl, protocol_version);
                assert(before.subrange(4, 4 + hl + dl as int) =~= enc);
                Ok(4 + hl + dl)
            },
        }
    }

    /// Read the packet that the frame `buffer` received from `remote_addr` holds; see
    /// [`spec_read_packet`].
    pub fn read_packet<M: ByteRepr>(
        &mut self,
        protocol_version: u32,
        remote_addr: PeerAddr,
        buffer: &[u8],
    ) -> (r: Option<Result<Packet<M>, Error>>)
        ensures
            *final(self) == *old(self),
            match (r, spec_read_packet::<M>(old(self).state, protocol_version, remote_addr, buffer@)) {
                (None, None) => true,
                (Some(Ok(p)), Some(Ok(v))) => p.deep_view() == v,
                (Some(Err(e)), Some(Err(f))) => e == f,
                _ => false,
            },
    {
        if buffer.len() < 4 {
            return Some(Err(Error::PacketLengthLessThanCrcBytes));
        }
        let crc = u32_from_le_bytes(vstd::slice::slice_subrange(buffer, 0, 4));
        let body = vstd::slice::slice_subrange(buffer, 4, buffer.len());
        if crc_checksum(protocol_version, body) != crc {
            return Some(Err(Error::CrcFailed));
        }
        match PacketHeader::try_from_bytes(body) {
            None => None,
            Some(Err(e)) => Some(Err(Error::ByteRepr(e))),
            Some(Ok(PacketHeader::Unprotected { sequence_id, ack, con_data })) => Some(
                Ok(Packet::Connection { sequence_id, ack, con_data }),
            ),
            Some(Ok(PacketHeader::Protected { sequence_id, ack, header })) => {
                match self.check_data_packet(remote_addr, header) {
                    Err(e) => Some(Err(e)),
                    Ok(()) => {
                        let rest = vstd::slice::slice_subrange(body, 19, body.len());
                        match PacketData::<M>::try_from_bytes(rest) {
                            None => None,
                            Some(Err(e)) => Some(Err(Error::ByteRepr(e))),
                            Some(Ok(data)) => Some(Ok(Packet::Data { sequence_id, ack, data })),
                        }
                    },
                }
            },
        }
    }
}


/// A packet written by one side of a session is read back by the other: reading the frame
/// of a packet gives the packet, provided a data packet carries the salt that the reader
/// expects from the writer's address.
pub proof fn law_session_roundtrip<M: ByteRepr>(
    reader: ConnectionState,
    protocol_version: u32,
    writer_addr: PeerAddr,
    salt: u32,
    packet: PacketView<M::V>,
)
    requires
        match packet {
            PacketView::Data(_, _, d) => PacketData::<M>::spec_representable(d) && spec_check_data(
                reader,
                writer_addr,
                salt,
            ) is Ok,
            _ => true,
        },
    ensures
        spec_read_packet::<M>(
            reader,
            protocol_version,
            writer_addr,
            spec_frame(protocol_version, spec_packet_bytes::<M>(packet, salt)),
        ) == Some(Ok::<PacketView<M::V>, Error>(packet)),
{
    lemma_auto_spec_u32_to_from_le_bytes();
    let enc = spec_packet_bytes::<M>(packet, salt);
    let frame = spec_frame(protocol_version, enc);
    assert(frame.subrange(4, frame.len() as int) =~= enc);
    assert(frame.subrange(0, 4) =~= spec_u32_to_le_bytes(spec_crc32(protocol_version, enc)));
    match packet {
        PacketView::Connection(sequence_id, ack, con_data) => {
            let h = PacketHeader::Unprotected { sequence_id, ack, con_data };
            PacketHeader::lemma_roundtrip(h, Seq::empty());
            assert(enc + Seq::<u8>::empty() =~= enc);
        },
        PacketView::Data(sequence_id, ack, d) => {
            let h = PacketHeader::Protected { sequence_id, ack, header: salt };
            let db = PacketData::<M>::spec_to_bytes(d);
            PacketHeader::lemma_roundtrip(h, db);
            lemma_auto_spec_u16_to_from_le_bytes();
            assert(spec_header_bytes(h).len() == 19);
            assert(enc.subrange(19, enc.len() as int) =~= db + Seq::<u8>::empty());
            PacketData::<M>::lemma_roundtrip(d, Seq::empty());
        },
    }
}

/// A data packet is read only from the peer of an agreed session, and only from an intact
/// frame: reading a frame from `remote` gives a data packet only where the connection sends to
/// `remote` and is established, or has the challenge that agrees on the salt, and the frame's
/// CRC matches its bytes for the protocol version.
pub proof fn law_data_read_only_from_peer<M: ByteRepr>(
    s: ConnectionState,
    protocol_version: u32,
    remote: PeerAddr,
    frame: Seq<u8>,
)
    ensures
        spec_read_packet::<M>(s, protocol_version, remote, frame) matches Some(
            Ok(PacketView::Data(_, _, _)),
        ) ==> {
            &&& crate::connection::spec_send_addr(s) == Some(remote)
            &&& s is Connected || (s is OutgoingConnectRequest && s->received_challenge)
            &&& frame.len() >= 4
            &&& spec_crc32(protocol_version, frame.subrange(4, frame.len() as int))
                == spec_u32_from_le_bytes(frame.subrange(0, 4))
        },
{
    if frame.len() >= 4 {
        let body = frame.subrange(4, frame.len() as int);
        if let Some(Ok(PacketHeader::Protected { sequence_id, ack, header })) = spec_header_from(body) {
            crate::connection::law_data_only_from_peer(s, remote, header, header);
        }
    }
}

} // verus!
