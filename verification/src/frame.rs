//! Framing packets for the wire: a CRC over the packet bytes, then the bytes.
//!
//! The CRC is CRC-32/BZIP2 with its initial value set to the protocol version, so that packets
//! of communicators with different protocol versions fail the check.
use vstd::prelude::*;
use vstd::bytes::*;
use crate::byte_repr::{ByteRepr, ByteReprError, read_matches};
use crate::error::Error;
use crate::packet::Packet;

verus! {

/// One step of the CRC-32 register, most significant bit first, with the polynomial
/// `0x04C11DB7`.
pub open spec fn crc32_bit(c: u32) -> u32 {
    if c & 0x8000_0000 != 0 {
        (c << 1u32) ^ 0x04C1_1DB7
    } else {
        c << 1u32
    }
}

/// The register `c` after taking in the byte `b`: the byte enters at the top, then eight steps.
pub open spec fn crc32_byte(c: u32, b: u8) -> u32 {
    let x = c ^ ((b as u32) << 24u32);
    crc32_bit(crc32_bit(crc32_bit(crc32_bit(crc32_bit(crc32_bit(crc32_bit(crc32_bit(x))))))))
}

/// The register `c` after taking in `bytes`, first to last.
pub open spec fn crc32_register(c: u32, bytes: Seq<u8>) -> u32
    decreases bytes.len(),
{
    if bytes.len() == 0 {
        c
    } else {
        crc32_register(crc32_byte(c, bytes[0]), bytes.drop_first())
    }
}

/// The CRC-32/BZIP2 checksum of `bytes` (polynomial `0x04C11DB7`, input and output not
/// reflected, output xored with `0xFFFFFFFF`), with `init` as the initial value of the register.
pub open spec fn spec_crc32(init: u32, bytes: Seq<u8>) -> u32 {
    crc32_register(init, bytes) ^ 0xFFFF_FFFF
}

/// Computes the CRC-32/BZIP2 checksum of `bytes` with the `crc` crate, starting from
/// `protocol_version` in place of the algorithm's initial value (`Crc::digest_with_initial`,
/// `Digest::update`, `Digest::finalize`). Trusted: the result is [`spec_crc32`] of the version
/// and the bytes, the crate's table-driven computation being the bitwise one above.
#[verifier::external_body]
pub(crate) fn crc_checksum(protocol_version: u32, bytes: &[u8]) -> (r: u32)
    ensures
        r == spec_crc32(protocol_version, bytes@),
{
    let crc = crc::Crc::<u32>::new(&crc::CRC_32_BZIP2);
    let mut digest = crc.digest_with_initial(protocol_version);
    digest.update(bytes);
    digest.finalize()
}

/// The frame of the packet bytes `packet`: their CRC, little-endian, followed by them.
pub open spec fn spec_frame(protocol_version: u32, packet: Seq<u8>) -> Seq<u8> {
    spec_u32_to_le_bytes(spec_crc32(protocol_version, packet)) + packet
}

/// What reading a received frame gives: the packet, or the error; `None` where reading the
/// packet would run past the end of the frame.
pub open spec fn spec_read_frame<M: ByteRepr>(protocol_version: u32, frame: Seq<u8>) -> Option<
    Result<<Packet<M> as DeepView>::V, Error>,
> {
    if frame.len() < 4 {
        Some(Err(Error::PacketLengthLessThanCrcBytes))
    } else if spec_crc32(protocol_version, frame.subrange(4, frame.len() as int))
        != spec_u32_from_le_bytes(frame.subrange(0, 4)) {
        Some(Err(Error::CrcFailed))
    } else {
        match Packet::<M>::spec_from_bytes(frame.subrange(4, frame.len() as int)) {
            None => None,
            Some(Err(e)) => Some(Err(Error::ByteRepr(e))),
            Some(Ok(p)) => Some(Ok(p)),
        }
    }
}

/// Write the frame of `packet` to the front of `buffer`, returning its length.
pub fn write_frame<M: ByteRepr>(packet: &Packet<M>, protocol_version: u32, buffer: &mut [u8]) -> (r:
    Result<usize, ByteReprError>)
    requires
        old(buffer)@.len() >= 4,
        Packet::<M>::spec_to_bytes(packet.deep_view()).len() + 4 <= usize::MAX,
    ensures
        final(buffer)@.len() == old(buffer)@.len(),
        ({
            let enc = Packet::<M>::spec_to_bytes(packet.deep_view());
            &&& r is Ok <==> 4 + enc.len() <= old(buffer)@.len()
            &&& r is Ok ==> r == Ok::<usize, ByteReprError>((4 + enc.len()) as usize)
                && final(buffer)@.subrange(0, 4 + enc.len() as int) == spec_frame(protocol_version, enc)
            &&& r is Err ==> r == Err::<usize, ByteReprError>(ByteReprError::SliceTooShort)
        }),
{
    proof {
        lemma_auto_spec_u32_to_from_le_bytes();
    }
    let ghost enc = Packet::<M>::spec_to_bytes(packet.deep_view());
    match crate::byte_repr::write_item_at(packet, buffer, 4) {
        Ok(()) => {},
        Err(e) => {
            return Err(e);
        },
    }
    let len = packet.byte_len();
    let body = vstd::slice::slice_subrange(buffer, 4, 4 + len);
    assert(body@ =~= enc);
    let crc = crc_checksum(protocol_version, body);
    let crc_bytes = u32_to_le_bytes(crc);
    let ghost mid = buffer@;
    match crate::byte_repr::write_prefix(buffer, crc_bytes.as_slice()) {
        Ok(()) => {},
        Err(e) => {
            return Err(e);
        },
    }
    proof {
        assert(buffer@.subrange(0, 4 + enc.len() as int) =~= spec_frame(protocol_version, enc));
    }
    Ok(4 + len)
}

/// Read the packet that the received frame `frame` holds, checking its CRC first; `None`
/// where reading the packet would run past the end of the frame.
pub fn read_frame<M: ByteRepr>(frame: &[u8], protocol_version: u32) -> (r: Option<
    Result<Packet<M>, Error>,
>)
    ensures
        match (r, spec_read_frame::<M>(protocol_version, frame@)) {
            (None, None) => true,
            (Some(Ok(p)), Some(Ok(v))) => p.deep_view() == v,
            (Some(Err(e)), Some(Err(f))) => e == f,
            _ => false,
        },
{
    if frame.len() < 4 {
        return Some(Err(Error::PacketLengthLessThanCrcBytes));
    }
    let crc = u32_from_le_bytes(vstd::slice::slice_subrange(frame, 0, 4));
    let body = vstd::slice::slice_subrange(frame, 4, frame.len());
    if crc_checksum(protocol_version, body) != crc {
        return Some(Err(Error::CrcFailed));
    }
    match Packet::<M>::try_from_bytes(body) {
        None => None,
        Some(Err(e)) => Some(Err(Error::ByteRepr(e))),
        Some(Ok(p)) => Some(Ok(p)),
    }
}

/// Write the CRC of the `len` bytes after the first four of `buffer` to its first four
/// bytes, turning them into a frame.
pub(crate) fn seal_frame(buffer: &mut [u8], len: usize, protocol_version: u32)
    requires
        4 + len <= old(buffer)@.len(),
    ensures
        final(buffer)@.len() == old(buffer)@.len(),
        final(buffer)@.subrange(0, 4 + len) == spec_frame(
            protocol_version,
            old(buffer)@.subrange(4, 4 + len),
        ),
        final(buffer)@.subrange(4, old(buffer)@.len() as int) == old(buffer)@.subrange(
            4,
            old(buffer)@.len() as int,
        ),
{
    proof {
        lemma_auto_spec_u32_to_from_le_bytes();
    }
    let total = buffer.len();
    assert(4 + len <= total);
    let body = vstd::slice::slice_subrange(buffer, 4, 4 + len);
    let crc = crc_checksum(protocol_version, body);
    let crc_bytes = u32_to_le_bytes(crc);
    let r = crate::byte_repr::write_prefix(buffer, crc_bytes.as_slice());
    assert(r is Ok);
    proof {
        assert(buffer@.subrange(0, 4 + len) =~= spec_frame(
            protocol_version,
            old(buffer)@.subrange(4, 4 + len),
        ));
        assert(buffer@.subrange(4, old(buffer)@.len() as int) =~= old(buffer)@.subrange(
            4,
            old(buffer)@.len() as int,
        ));
    }
}

/// Reading the frame of a representable packet gives the packet back.
pub proof fn law_frame_roundtrip<M: ByteRepr>(
    protocol_version: u32,
    packet: <Packet<M> as DeepView>::V,
)
    requires
        Packet::<M>::spec_representable(packet),
    ensures
        spec_read_frame::<M>(
            protocol_version,
            spec_frame(protocol_version, Packet::<M>::spec_to_bytes(packet)),
        ) == Some(Ok::<<Packet<M> as DeepView>::V, Error>(packet)),
{
    lemma_auto_spec_u32_to_from_le_bytes();
    let enc = Packet::<M>::spec_to_bytes(packet);
    let frame = spec_frame(protocol_version, enc);
    assert(frame.subrange(4, frame.len() as int) =~= enc);
    assert(frame.subrange(0, 4) =~= spec_u32_to_le_bytes(spec_crc32(protocol_version, enc)));
    Packet::<M>::lemma_roundtrip(packet, Seq::empty());
    assert(enc + Seq::<u8>::empty() =~= enc);
}

/// The check value of CRC-32/BZIP2: the checksum of the bytes of `"123456789"` with the
/// algorithm's own initial value `0xFFFFFFFF` is `0xFC891918`.
pub proof fn lemma_crc32_check_value()
    ensures
        spec_crc32(0xFFFF_FFFF, seq![0x31u8, 0x32, 0x33, 0x34, 0x35, 0x36, 0x37, 0x38, 0x39])
            == 0xFC89_1918,
{
    assert(crc32_byte(0xFFFF_FFFF, 0x31u8) == 0x9EFB_CF93) by (bit_vector);
    assert(crc32_byte(0x9EFB_CF93, 0x32u8) == 0x3FEC_5E6A) by (bit_vector);
    assert(crc32_byte(0x3FEC_5E6A, 0x33u8) == 0xD952_F164) by (bit_vector);
    assert(crc32_byte(0xD952_F164, 0x34u8) == 0xA695_C4AA) by (bit_vector);
    assert(crc32_byte(0xA695_C4AA, 0x35u8) == 0xBD9A_B747) by (bit_vector);
    assert(crc32_byte(0xBD9A_B747, 0x36u8) == 0xD8F0_6C8F) by (bit_vector);
    assert(crc32_byte(0xD8F0_6C8F, 0x37u8) == 0x0D8A_14C4) by (bit_vector);
    assert(crc32_byte(0x0D8A_14C4, 0x38u8) == 0x49E3_C2FB) by (bit_vector);
    assert(crc32_byte(0x49E3_C2FB, 0x39u8) == 0x0376_E6E7) by (bit_vector);
    assert(seq![0x31u8, 0x32u8, 0x33u8, 0x34u8, 0x35u8, 0x36u8, 0x37u8, 0x38u8, 0x39u8].drop_first() =~= seq![0x32u8, 0x33u8, 0x34u8, 0x35u8, 0x36u8, 0x37u8, 0x38u8, 0x39u8]);
    assert(seq![0x31u8, 0x32u8, 0x33u8, 0x34u8, 0x35u8, 0x36u8, 0x37u8, 0x38u8, 0x39u8][0] == 0x31u8);
    assert(seq![0x32u8, 0x33u8, 0x34u8, 0x35u8, 0x36u8, 0x37u8, 0x38u8, 0x39u8].drop_first() =~= seq![0x33u8, 0x34u8, 0x35u8, 0x36u8, 0x37u8, 0x38u8, 0x39u8]);
    assert(seq![0x32u8, 0x33u8, 0x34u8, 0x35u8, 0x36u8, 0x37u8, 0x38u8, 0x39u8][0] == 0x32u8);
    assert(seq![0x33u8, 0x34u8, 0x35u8, 0x36u8, 0x37u8, 0x38u8, 0x39u8].drop_first() =~= seq![0x34u8, 0x35u8, 0x36u8, 0x37u8, 0x38u8, 0x39u8]);
    assert(seq![0x33u8, 0x34u8, 0x35u8, 0x36u8, 0x37u8, 0x38u8, 0x39u8][0] == 0x33u8);
    assert(seq![0x34u8, 0x35u8, 0x36u8, 0x37u8, 0x38u8, 0x39u8].drop_first() =~= seq![0x35u8, 0x36u8, 0x37u8, 0x38u8, 0x39u8]);
    assert(seq![0x34u8, 0x35u8, 0x36u8, 0x37u8, 0x38u8, 0x39u8][0] == 0x34u8);
    assert(seq![0x35u8, 0x36u8, 0x37u8, 0x38u8, 0x39u8].drop_first() =~= seq![0x36u8, 0x37u8, 0x38u8, 0x39u8]);
    assert(seq![0x35u8, 0x36u8, 0x37u8, 0x38u8, 0x39u8][0] == 0x35u8);
    assert(seq![0x36u8, 0x37u8, 0x38u8, 0x39u8].drop_first() =~= seq![0x37u8, 0x38u8, 0x39u8]);
    assert(seq![0x36u8, 0x37u8, 0x38u8, 0x39u8][0] == 0x36u8);
    assert(seq![0x37u8, 0x38u8, 0x39u8].drop_first() =~= seq![0x38u8, 0x39u8]);
    assert(seq![0x37u8, 0x38u8, 0x39u8][0] == 0x37u8);
    assert(seq![0x38u8, 0x39u8].drop_first() =~= seq![0x39u8]);
    assert(seq![0x38u8, 0x39u8][0] == 0x38u8);
    assert(seq![0x39u8].drop_first() =~= Seq::<u8>::empty());
    assert(seq![0x39u8][0] == 0x39u8);
    assert(crc32_register(0x0376_E6E7, Seq::<u8>::empty()) == 0x0376_E6E7);
    assert(crc32_register(0x49E3_C2FB, seq![0x39u8]) == 0x0376_E6E7);
    assert(crc32_register(0x0D8A_14C4, seq![0x38u8, 0x39u8]) == 0x0376_E6E7);
    assert(crc32_register(0xD8F0_6C8F, seq![0x37u8, 0x38u8, 0x39u8]) == 0x0376_E6E7);
    assert(crc32_register(0xBD9A_B747, seq![0x36u8, 0x37u8, 0x38u8, 0x39u8]) == 0x0376_E6E7);
    assert(crc32_register(0xA695_C4AA, seq![0x35u8, 0x36u8, 0x37u8, 0x38u8, 0x39u8]) == 0x0376_E6E7);
    assert(crc32_register(0xD952_F164, seq![0x34u8, 0x35u8, 0x36u8, 0x37u8, 0x38u8, 0x39u8]) == 0x0376_E6E7);
    assert(crc32_register(0x3FEC_5E6A, seq![0x33u8, 0x34u8, 0x35u8, 0x36u8, 0x37u8, 0x38u8, 0x39u8]) == 0x0376_E6E7);
    assert(crc32_register(0x9EFB_CF93, seq![0x32u8, 0x33u8, 0x34u8, 0x35u8, 0x36u8, 0x37u8, 0x38u8, 0x39u8]) == 0x0376_E6E7);
    assert(crc32_register(0xFFFF_FFFF, seq![0x31u8, 0x32u8, 0x33u8, 0x34u8, 0x35u8, 0x36u8, 0x37u8, 0x38u8, 0x39u8]) == 0x0376_E6E7);
    assert(0x0376_E6E7u32 ^ 0xFFFF_FFFFu32 == 0xFC89_1918u32) by (bit_vector);
}

} // verus!
