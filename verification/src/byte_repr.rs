//! Byte representations of messages: the in-house serialization format.
//!
//! Fixed-size integers are written little-endian, `bool` as one byte (`1` for `true`),
//! strings and vectors as a `u32` length (bytes for strings, items for vectors) followed by
//! their contents, and `Option<T>` as a one-byte tag (`0` for `None`, `1` for `Some`) followed
//! by the value.
use vstd::prelude::*;
use vstd::bytes::*;
use vstd::utf8::*;

use std::borrow::Cow;

verus! {

/// Why a value could not be written to or read from bytes.
#[derive(Debug, Clone, Copy, PartialEq, Eq, Structural)]
pub enum ByteReprError {
    /// The provided byte slice is too short.
    SliceTooShort,
    /// Encountered an unexpected value.
    InvalidValue,
}

impl ByteReprError {
    /// The error's message.
    pub fn message(&self) -> (r: &'static str)
        ensures
            r@ == match self {
                ByteReprError::SliceTooShort => "The provided byte slice is too short"@,
                ByteReprError::InvalidValue => "Encountered an unexpected value"@,
            },
    {
        match self {
            ByteReprError::SliceTooShort => "The provided byte slice is too short",
            ByteReprError::InvalidValue => "Encountered an unexpected value",
        }
    }
}

/// Whether the outcome `r` of reading a value agrees with the specified outcome `s`: both
/// would overrun the input, both failed with the same error, or both read values with the same
/// view.
pub open spec fn read_matches<T: DeepView>(
    r: Option<Result<T, ByteReprError>>,
    s: Option<Result<T::V, ByteReprError>>,
) -> bool {
    match (r, s) {
        (None, None) => true,
        (Some(Ok(x)), Some(Ok(v))) => x.deep_view() == v,
        (Some(Err(e)), Some(Err(f))) => e == f,
        _ => false,
    }
}

/// A type of fixed byte length.
pub trait StaticByteRepr {
    /// The number of bytes every value takes.
    const BYTE_LEN: usize;
}

/// A type whose values can be written to and read from bytes.
pub trait ByteRepr: Sized + DeepView {
    /// The least number of bytes a value takes.
    const MIN_BYTE_LEN: usize;
    /// The number of bytes the largest value that the format is designed for takes.
    const MAX_BYTE_LEN: usize;

    /// The bytes that represent the value with view `v`.
    spec fn spec_to_bytes(v: Self::V) -> Seq<u8>;

    /// Whether the value with view `v` reads back as itself: every length it holds fits the
    /// length field written for it.
    spec fn spec_representable(v: Self::V) -> bool;

    /// What reading a value from the front of `bytes` gives; `None` where reading would run
    /// past the end of `bytes`.
    spec fn spec_from_bytes(bytes: Seq<u8>) -> Option<Result<Self::V, ByteReprError>>;

    /// The number of bytes `self` takes.
    fn byte_len(&self) -> (n: usize)
        requires
            Self::spec_to_bytes(self.deep_view()).len() <= usize::MAX,
        ensures
            n == Self::spec_to_bytes(self.deep_view()).len(),
    ;

    /// The number of bytes `self` takes, or `None` if that number does not fit a `usize`.
    fn checked_byte_len(&self) -> (n: Option<usize>)
        ensures
            n == (if Self::spec_to_bytes(self.deep_view()).len() <= usize::MAX {
                Some(Self::spec_to_bytes(self.deep_view()).len() as usize)
            } else {
                None
            }),
    ;

    /// Write `self` to the front of `bytes`. The number of bytes written on success is
    /// `self.byte_len()`; on failure a prefix of them may have been written.
    fn write_to_bytes(&self, bytes: &mut [u8]) -> (r: Result<(), ByteReprError>)
        requires
            Self::spec_to_bytes(self.deep_view()).len() <= usize::MAX,
        ensures
            final(bytes)@.len() == old(bytes)@.len(),
            r is Ok <==> Self::spec_to_bytes(self.deep_view()).len() <= old(bytes)@.len(),
            r is Ok ==> final(bytes)@ == Self::spec_to_bytes(self.deep_view()) + old(
                bytes,
            )@.subrange(Self::spec_to_bytes(self.deep_view()).len() as int, old(bytes)@.len() as int),
            r is Err ==> r == Err::<(), ByteReprError>(ByteReprError::SliceTooShort),
    ;

    /// Read a value from the front of `bytes`, or `None` where reading would run past the end
    /// of `bytes`.
    fn try_from_bytes(bytes: &[u8]) -> (r: Option<Result<Self, ByteReprError>>)
        ensures
            read_matches(r, Self::spec_from_bytes(bytes@)),
    ;

    /// Read a value from the front of `bytes`.
    fn from_bytes(bytes: &[u8]) -> (r: Result<Self, ByteReprError>)
        requires
            Self::spec_from_bytes(bytes@) is Some,
        ensures
            read_matches(Some(r), Self::spec_from_bytes(bytes@)),
    {
        match Self::try_from_bytes(bytes) {
            Some(r) => r,
            None => {
                assert(false);
                Err(ByteReprError::SliceTooShort)
            },
        }
    }

    /// Reading the bytes of a representable value, followed by anything, gives the value back.
    proof fn lemma_roundtrip(v: Self::V, rest: Seq<u8>)
        requires
            Self::spec_representable(v),
        ensures
            Self::spec_from_bytes(Self::spec_to_bytes(v) + rest) == Some(
                Ok::<Self::V, ByteReprError>(v),
            ),
    ;

    /// No value takes fewer than `MIN_BYTE_LEN` bytes.
    proof fn lemma_min_len(v: Self::V)
        ensures
            Self::spec_to_bytes(v).len() >= Self::MIN_BYTE_LEN,
    ;
}

/// Copy `src` to the front of `bytes`, if it fits.
pub(crate) fn write_prefix(bytes: &mut [u8], src: &[u8]) -> (r: Result<(), ByteReprError>)
    ensures
        final(bytes)@.len() == old(bytes)@.len(),
        r is Ok <==> src@.len() <= old(bytes)@.len(),
        r is Ok ==> final(bytes)@ == src@ + old(bytes)@.subrange(
            src@.len() as int,
            old(bytes)@.len() as int,
        ),
        r is Err ==> r == Err::<(), ByteReprError>(ByteReprError::SliceTooShort) && final(bytes)@
            == old(bytes)@,
{
    if bytes.len() < src.len() {
        return Err(ByteReprError::SliceTooShort);
    }
    let mut k: usize = 0;
    while k < src.len()
        invariant
            src@.len() <= bytes@.len(),
            bytes@.len() == old(bytes)@.len(),
            k <= src@.len(),
            forall|j: int| 0 <= j < k ==> bytes@[j] == src@[j],
            forall|j: int| k <= j < bytes@.len() ==> bytes@[j] == old(bytes)@[j],
        decreases src@.len() - k,
    {
        bytes[k] = src[k];
        k = k + 1;
    }
    assert(bytes@ =~= src@ + old(bytes)@.subrange(src@.len() as int, old(bytes)@.len() as int));
    Ok(())
}

/// Copy `src` into `bytes` starting at `pos`, if it fits.
pub(crate) fn write_at(bytes: &mut [u8], pos: usize, src: &[u8]) -> (r: Result<(), ByteReprError>)
    requires
        pos <= old(bytes)@.len(),
    ensures
        final(bytes)@.len() == old(bytes)@.len(),
        r is Ok <==> pos + src@.len() <= old(bytes)@.len(),
        r is Ok ==> final(bytes)@ == old(bytes)@.subrange(0, pos as int) + src@ + old(
            bytes,
        )@.subrange(pos + src@.len(), old(bytes)@.len() as int),
        r is Err ==> r == Err::<(), ByteReprError>(ByteReprError::SliceTooShort) && final(bytes)@
            == old(bytes)@,
{
    if bytes.len() - pos < src.len() {
        return Err(ByteReprError::SliceTooShort);
    }
    let mut k: usize = 0;
    while k < src.len()
        invariant
            pos + src@.len() <= bytes@.len(),
            pos + src@.len() <= usize::MAX,
            bytes@.len() == old(bytes)@.len(),
            k <= src@.len(),
            forall|j: int| 0 <= j < pos ==> bytes@[j] == old(bytes)@[j],
            forall|j: int| 0 <= j < k ==> bytes@[pos + j] == src@[j],
            forall|j: int| pos + k <= j < bytes@.len() ==> bytes@[j] == old(bytes)@[j],
        decreases src@.len() - k,
    {
        bytes[pos + k] = src[k];
        k = k + 1;
    }
    assert(bytes@ =~= old(bytes)@.subrange(0, pos as int) + src@ + old(bytes)@.subrange(
        pos + src@.len(),
        old(bytes)@.len() as int,
    ));
    Ok(())
}

/// The name of what `String::from_utf8_lossy` makes of bytes that are not valid UTF-8.
pub uninterp spec fn spec_utf8_lossy(bytes: Seq<u8>) -> Seq<char>;

/// The characters that a string read from `bytes` holds: the decoded characters of valid
/// UTF-8, or the lossy conversion of anything else.
pub open spec fn spec_decode_lossy(bytes: Seq<u8>) -> Seq<char> {
    if valid_utf8(bytes) {
        decode_utf8(bytes)
    } else {
        spec_utf8_lossy(bytes)
    }
}

/// Calls `String::from_utf8_lossy` and takes ownership of its result. Trusted: valid UTF-8
/// decodes to the characters it encodes, and anything else gives [`spec_utf8_lossy`] of the
/// bytes.
#[verifier::external_body]
fn string_from_utf8_lossy(bytes: &[u8]) -> (s: String)
    ensures
        s@ == (if valid_utf8(bytes@) {
            decode_utf8(bytes@)
        } else {
            spec_utf8_lossy(bytes@)
        }),
{
    String::from_utf8_lossy(bytes).into_owned()
}

/// Write `item` to `bytes` starting at `pos`.
pub(crate) fn write_item_at<T: ByteRepr>(item: &T, bytes: &mut [u8], pos: usize) -> (r: Result<
    (),
    ByteReprError,
>)
    requires
        pos <= old(bytes)@.len(),
        T::spec_to_bytes(item.deep_view()).len() <= usize::MAX,
    ensures
        final(bytes)@.len() == old(bytes)@.len(),
        r is Ok <==> pos + T::spec_to_bytes(item.deep_view()).len() <= old(bytes)@.len(),
        r is Ok ==> final(bytes)@ == old(bytes)@.subrange(0, pos as int) + T::spec_to_bytes(
            item.deep_view(),
        ) + old(bytes)@.subrange(
            pos + T::spec_to_bytes(item.deep_view()).len(),
            old(bytes)@.len() as int,
        ),
        r is Err ==> r == Err::<(), ByteReprError>(ByteReprError::SliceTooShort),
{
    let (left, right) = bytes.split_at_mut(pos);
    let r = item.write_to_bytes(right);
    proof {
        assert(has_resolved(left));
    }
    r
}

/// The first `n` bytes of `bytes`, or the error for a slice shorter than that.
pub(crate) fn read_prefix(bytes: &[u8], n: usize) -> (r: Result<&[u8], ByteReprError>)
    ensures
        match r {
            Ok(s) => n <= bytes@.len() && s@ == bytes@.subrange(0, n as int),
            Err(e) => n > bytes@.len() && e == ByteReprError::SliceTooShort,
        },
{
    if bytes.len() < n {
        Err(ByteReprError::SliceTooShort)
    } else {
        Ok(vstd::slice::slice_subrange(bytes, 0, n))
    }
}

impl ByteRepr for () {
    const MIN_BYTE_LEN: usize = 0;
    const MAX_BYTE_LEN: usize = 0;

    open spec fn spec_to_bytes(v: ()) -> Seq<u8> {
        Seq::empty()
    }

    open spec fn spec_representable(v: ()) -> bool {
        true
    }

    open spec fn spec_from_bytes(bytes: Seq<u8>) -> Option<Result<(), ByteReprError>> {
        Some(Ok(()))
    }

    fn byte_len(&self) -> (n: usize) {
        0
    }

    fn checked_byte_len(&self) -> (n: Option<usize>) {
        Some(0)
    }

    fn write_to_bytes(&self, bytes: &mut [u8]) -> (r: Result<(), ByteReprError>) {
        assert(bytes@ =~= Seq::<u8>::empty() + bytes@.subrange(0, bytes@.len() as int));
        Ok(())
    }

    fn try_from_bytes(bytes: &[u8]) -> (r: Option<Result<(), ByteReprError>>) {
        Some(Ok(()))
    }

    proof fn lemma_roundtrip(v: (), rest: Seq<u8>) {
    }

    proof fn lemma_min_len(v: ()) {
    }
}

impl StaticByteRepr for () {
    const BYTE_LEN: usize = 0;
}

impl ByteRepr for bool {
    const MIN_BYTE_LEN: usize = 1;
    const MAX_BYTE_LEN: usize = 1;

    open spec fn spec_to_bytes(v: bool) -> Seq<u8> {
        seq![if v { 1u8 } else { 0u8 }]
    }

    open spec fn spec_representable(v: bool) -> bool {
        true
    }

    /// Any byte other than `1` reads as `false`.
    open spec fn spec_from_bytes(bytes: Seq<u8>) -> Option<Result<bool, ByteReprError>> {
        if bytes.len() < 1 {
            Some(Err(ByteReprError::SliceTooShort))
        } else {
            Some(Ok(bytes[0] == 1))
        }
    }

    fn byte_len(&self) -> (n: usize) {
        1
    }

    fn checked_byte_len(&self) -> (n: Option<usize>) {
        Some(1)
    }

    fn write_to_bytes(&self, bytes: &mut [u8]) -> (r: Result<(), ByteReprError>) {
        let b: u8 = if *self { 1 } else { 0 };
        let src = [b];
        write_prefix(bytes, &src)
    }

    fn try_from_bytes(bytes: &[u8]) -> (r: Option<Result<bool, ByteReprError>>) {
        if bytes.len() < 1 {
            Some(Err(ByteReprError::SliceTooShort))
        } else {
            Some(Ok(bytes[0] == 1))
        }
    }

    proof fn lemma_roundtrip(v: bool, rest: Seq<u8>) {
    }

    proof fn lemma_min_len(v: bool) {
    }
}

impl StaticByteRepr for bool {
    const BYTE_LEN: usize = 1;
}

impl ByteRepr for u8 {
    const MIN_BYTE_LEN: usize = 1;
    const MAX_BYTE_LEN: usize = 1;

    open spec fn spec_to_bytes(v: u8) -> Seq<u8> {
        seq![v]
    }

    open spec fn spec_representable(v: u8) -> bool {
        true
    }

    open spec fn spec_from_bytes(bytes: Seq<u8>) -> Option<Result<u8, ByteReprError>> {
        if bytes.len() < 1 {
            Some(Err(ByteReprError::SliceTooShort))
        } else {
            Some(Ok(bytes[0]))
        }
    }

    fn byte_len(&self) -> (n: usize) {
        1
    }

    fn checked_byte_len(&self) -> (n: Option<usize>) {
        Some(1)
    }

    fn write_to_bytes(&self, bytes: &mut [u8]) -> (r: Result<(), ByteReprError>) {
        let src = [*self];
        write_prefix(bytes, &src)
    }

    fn try_from_bytes(bytes: &[u8]) -> (r: Option<Result<u8, ByteReprError>>) {
        if bytes.len() < 1 {
            Some(Err(ByteReprError::SliceTooShort))
        } else {
            Some(Ok(bytes[0]))
        }
    }

    proof fn lemma_roundtrip(v: u8, rest: Seq<u8>) {
    }

    proof fn lemma_min_len(v: u8) {
    }
}

impl StaticByteRepr for u8 {
    const BYTE_LEN: usize = 1;
}

impl ByteRepr for u16 {
    const MIN_BYTE_LEN: usize = 2;
    const MAX_BYTE_LEN: usize = 2;

    open spec fn spec_to_bytes(v: u16) -> Seq<u8> {
        spec_u16_to_le_bytes(v)
    }

    open spec fn spec_representable(v: u16) -> bool {
        true
    }

    open spec fn spec_from_bytes(bytes: Seq<u8>) -> Option<Result<u16, ByteReprError>> {
        if bytes.len() < 2 {
            Some(Err(ByteReprError::SliceTooShort))
        } else {
            Some(Ok(spec_u16_from_le_bytes(bytes.subrange(0, 2))))
        }
    }

    fn byte_len(&self) -> (n: usize) {
        proof {
            lemma_auto_spec_u16_to_from_le_bytes();
        }
        2
    }

    fn checked_byte_len(&self) -> (n: Option<usize>) {
        proof {
            lemma_auto_spec_u16_to_from_le_bytes();
        }
        Some(2)
    }

    fn write_to_bytes(&self, bytes: &mut [u8]) -> (r: Result<(), ByteReprError>) {
        let src = u16_to_le_bytes(*self);
        write_prefix(bytes, src.as_slice())
    }

    fn try_from_bytes(bytes: &[u8]) -> (r: Option<Result<u16, ByteReprError>>) {
        match read_prefix(bytes, 2) {
            Ok(s) => Some(Ok(u16_from_le_bytes(s))),
            Err(e) => Some(Err(e)),
        }
    }

    proof fn lemma_roundtrip(v: u16, rest: Seq<u8>) {
        lemma_auto_spec_u16_to_from_le_bytes();
        assert((spec_u16_to_le_bytes(v) + rest).subrange(0, 2) =~= spec_u16_to_le_bytes(v));
    }

    proof fn lemma_min_len(v: u16) {
        lemma_auto_spec_u16_to_from_le_bytes();
    }
}

impl StaticByteRepr for u16 {
    const BYTE_LEN: usize = 2;
}

impl ByteRepr for i8 {
    const MIN_BYTE_LEN: usize = 1;
    const MAX_BYTE_LEN: usize = 1;

    open spec fn spec_to_bytes(v: i8) -> Seq<u8> {
        seq![v as u8]
    }

    open spec fn spec_representable(v: i8) -> bool {
        true
    }

    open spec fn spec_from_bytes(bytes: Seq<u8>) -> Option<Result<i8, ByteReprError>> {
        if bytes.len() < 1 {
            Some(Err(ByteReprError::SliceTooShort))
        } else {
            Some(Ok(bytes[0] as i8))
        }
    }

    fn byte_len(&self) -> (n: usize) {
        1
    }

    fn checked_byte_len(&self) -> (n: Option<usize>) {
        Some(1)
    }

    fn write_to_bytes(&self, bytes: &mut [u8]) -> (r: Result<(), ByteReprError>) {
        let src = [*self as u8];
        write_prefix(bytes, &src)
    }

    fn try_from_bytes(bytes: &[u8]) -> (r: Option<Result<i8, ByteReprError>>) {
        if bytes.len() < 1 {
            Some(Err(ByteReprError::SliceTooShort))
        } else {
            Some(Ok(bytes[0] as i8))
        }
    }

    proof fn lemma_roundtrip(v: i8, rest: Seq<u8>) {
        assert((v as u8) as i8 == v) by (bit_vector);
    }

    proof fn lemma_min_len(v: i8) {
    }
}

impl StaticByteRepr for i8 {
    const BYTE_LEN: usize = 1;
}

impl ByteRepr for i16 {
    const MIN_BYTE_LEN: usize = 2;
    const MAX_BYTE_LEN: usize = 2;

    open spec fn spec_to_bytes(v: i16) -> Seq<u8> {
        spec_u16_to_le_bytes(v as u16)
    }

    open spec fn spec_representable(v: i16) -> bool {
        true
    }

    open spec fn spec_from_bytes(bytes: Seq<u8>) -> Option<Result<i16, ByteReprError>> {
        if bytes.len() < 2 {
            Some(Err(ByteReprError::SliceTooShort))
        } else {
            Some(Ok(spec_u16_from_le_bytes(bytes.subrange(0, 2)) as i16))
        }
    }

    fn byte_len(&self) -> (n: usize) {
        proof {
            lemma_auto_spec_u16_to_from_le_bytes();
        }
        2
    }

    fn checked_byte_len(&self) -> (n: Option<usize>) {
        proof {
            lemma_auto_spec_u16_to_from_le_bytes();
        }
        Some(2)
    }

    fn write_to_bytes(&self, bytes: &mut [u8]) -> (r: Result<(), ByteReprError>) {
        let src = u16_to_le_bytes(*self as u16);
        write_prefix(bytes, src.as_slice())
    }

    fn try_from_bytes(bytes: &[u8]) -> (r: Option<Result<i16, ByteReprError>>) {
        match read_prefix(bytes, 2) {
            Ok(s) => Some(Ok(u16_from_le_bytes(s) as i16)),
            Err(e) => Some(Err(e)),
        }
    }

    proof fn lemma_roundtrip(v: i16, rest: Seq<u8>) {
        lemma_auto_spec_u16_to_from_le_bytes();
        assert((spec_u16_to_le_bytes(v as u16) + rest).subrange(0, 2) =~= spec_u16_to_le_bytes(v as u16));
        assert((v as u16) as i16 == v) by (bit_vector);
    }

    proof fn lemma_min_len(v: i16) {
        lemma_auto_spec_u16_to_from_le_bytes();
    }
}

impl StaticByteRepr for i16 {
    const BYTE_LEN: usize = 2;
}

impl ByteRepr for u32 {
    const MIN_BYTE_LEN: usize = 4;
    const MAX_BYTE_LEN: usize = 4;

    open spec fn spec_to_bytes(v: u32) -> Seq<u8> {
        spec_u32_to_le_bytes(v)
    }

    open spec fn spec_representable(v: u32) -> bool {
        true
    }

    open spec fn spec_from_bytes(bytes: Seq<u8>) -> Option<Result<u32, ByteReprError>> {
        if bytes.len() < 4 {
            Some(Err(ByteReprError::SliceTooShort))
        } else {
            Some(Ok(spec_u32_from_le_bytes(bytes.subrange(0, 4))))
        }
    }

    fn byte_len(&self) -> (n: usize) {
        proof {
            lemma_auto_spec_u32_to_from_le_bytes();
        }
        4
    }

    fn checked_byte_len(&self) -> (n: Option<usize>) {
        proof {
            lemma_auto_spec_u32_to_from_le_bytes();
        }
        Some(4)
    }

    fn write_to_bytes(&self, bytes: &mut [u8]) -> (r: Result<(), ByteReprError>) {
        let src = u32_to_le_bytes(*self);
        write_prefix(bytes, src.as_slice())
    }

    fn try_from_bytes(bytes: &[u8]) -> (r: Option<Result<u32, ByteReprError>>) {
        match read_prefix(bytes, 4) {
            Ok(s) => Some(Ok(u32_from_le_bytes(s))),
            Err(e) => Some(Err(e)),
        }
    }

    proof fn lemma_roundtrip(v: u32, rest: Seq<u8>) {
        lemma_auto_spec_u32_to_from_le_bytes();
        assert((spec_u32_to_le_bytes(v) + rest).subrange(0, 4) =~= spec_u32_to_le_bytes(v));
    }

    proof fn lemma_min_len(v: u32) {
        lemma_auto_spec_u32_to_from_le_bytes();
    }
}

impl StaticByteRepr for u32 {
    const BYTE_LEN: usize = 4;
}

impl ByteRepr for i32 {
    const MIN_BYTE_LEN: usize = 4;
    const MAX_BYTE_LEN: usize = 4;

    open spec fn spec_to_bytes(v: i32) -> Seq<u8> {
        spec_u32_to_le_bytes(v as u32)
    }

    open spec fn spec_representable(v: i32) -> bool {
        true
    }

    open spec fn spec_from_bytes(bytes: Seq<u8>) -> Option<Result<i32, ByteReprError>> {
        if bytes.len() < 4 {
            Some(Err(ByteReprError::SliceTooShort))
        } else {
            Some(Ok(spec_u32_from_le_bytes(bytes.subrange(0, 4)) as i32))
        }
    }

    fn byte_len(&self) -> (n: usize) {
        proof {
            lemma_auto_spec_u32_to_from_le_bytes();
        }
        4
    }

    fn checked_byte_len(&self) -> (n: Option<usize>) {
        proof {
            lemma_auto_spec_u32_to_from_le_bytes();
        }
        Some(4)
    }

    fn write_to_bytes(&self, bytes: &mut [u8]) -> (r: Result<(), ByteReprError>) {
        let src = u32_to_le_bytes(*self as u32);
        write_prefix(bytes, src.as_slice())
    }

    fn try_from_bytes(bytes: &[u8]) -> (r: Option<Result<i32, ByteReprError>>) {
        match read_prefix(bytes, 4) {
            Ok(s) => Some(Ok(u32_from_le_bytes(s) as i32)),
            Err(e) => Some(Err(e)),
        }
    }

    proof fn lemma_roundtrip(v: i32, rest: Seq<u8>) {
        lemma_auto_spec_u32_to_from_le_bytes();
        assert((spec_u32_to_le_bytes(v as u32) + rest).subrange(0, 4) =~= spec_u32_to_le_bytes(v as u32));
        assert((v as u32) as i32 == v) by (bit_vector);
    }

    proof fn lemma_min_len(v: i32) {
        lemma_auto_spec_u32_to_from_le_bytes();
    }
}

impl StaticByteRepr for i32 {
    const BYTE_LEN: usize = 4;
}

impl ByteRepr for u64 {
    const MIN_BYTE_LEN: usize = 8;
    const MAX_BYTE_LEN: usize = 8;

    open spec fn spec_to_bytes(v: u64) -> Seq<u8> {
        spec_u64_to_le_bytes(v)
    }

    open spec fn spec_representable(v: u64) -> bool {
        true
    }

    open spec fn spec_from_bytes(bytes: Seq<u8>) -> Option<Result<u64, ByteReprError>> {
        if bytes.len() < 8 {
            Some(Err(ByteReprError::SliceTooShort))
        } else {
            Some(Ok(spec_u64_from_le_bytes(bytes.subrange(0, 8))))
        }
    }

    fn byte_len(&self) -> (n: usize) {
        proof {
            lemma_auto_spec_u64_to_from_le_bytes();
        }
        8
    }

    fn checked_byte_len(&self) -> (n: Option<usize>) {
        proof {
            lemma_auto_spec_u64_to_from_le_bytes();
        }
        Some(8)
    }

    fn write_to_bytes(&self, bytes: &mut [u8]) -> (r: Result<(), ByteReprError>) {
        let src = u64_to_le_bytes(*self);
        write_prefix(bytes, src.as_slice())
    }

    fn try_from_bytes(bytes: &[u8]) -> (r: Option<Result<u64, ByteReprError>>) {
        match read_prefix(bytes, 8) {
            Ok(s) => Some(Ok(u64_from_le_bytes(s))),
            Err(e) => Some(Err(e)),
        }
    }

    proof fn lemma_roundtrip(v: u64, rest: Seq<u8>) {
        lemma_auto_spec_u64_to_from_le_bytes();
        assert((spec_u64_to_le_bytes(v) + rest).subrange(0, 8) =~= spec_u64_to_le_bytes(v));
    }

    proof fn lemma_min_len(v: u64) {
        lemma_auto_spec_u64_to_from_le_bytes();
    }
}

impl StaticByteRepr for u64 {
    const BYTE_LEN: usize = 8;
}

impl ByteRepr for i64 {
    const MIN_BYTE_LEN: usize = 8;
    const MAX_BYTE_LEN: usize = 8;

    open spec fn spec_to_bytes(v: i64) -> Seq<u8> {
        spec_u64_to_le_bytes(v as u64)
    }

    open spec fn spec_representable(v: i64) -> bool {
        true
    }

    open spec fn spec_from_bytes(bytes: Seq<u8>) -> Option<Result<i64, ByteReprError>> {
        if bytes.len() < 8 {
            Some(Err(ByteReprError::SliceTooShort))
        } else {
            Some(Ok(spec_u64_from_le_bytes(bytes.subrange(0, 8)) as i64))
        }
    }

    fn byte_len(&self) -> (n: usize) {
        proof {
            lemma_auto_spec_u64_to_from_le_bytes();
        }
        8
    }

    fn checked_byte_len(&self) -> (n: Option<usize>) {
        proof {
            lemma_auto_spec_u64_to_from_le_bytes();
        }
        Some(8)
    }

    fn write_to_bytes(&self, bytes: &mut [u8]) -> (r: Result<(), ByteReprError>) {
        let src = u64_to_le_bytes(*self as u64);
        write_prefix(bytes, src.as_slice())
    }

    fn try_from_bytes(bytes: &[u8]) -> (r: Option<Result<i64, ByteReprError>>) {
        match read_prefix(bytes, 8) {
            Ok(s) => Some(Ok(u64_from_le_bytes(s) as i64)),
            Err(e) => Some(Err(e)),
        }
    }

    proof fn lemma_roundtrip(v: i64, rest: Seq<u8>) {
        lemma_auto_spec_u64_to_from_le_bytes();
        assert((spec_u64_to_le_bytes(v as u64) + rest).subrange(0, 8) =~= spec_u64_to_le_bytes(v as u64));
        assert((v as u64) as i64 == v) by (bit_vector);
    }

    proof fn lemma_min_len(v: i64) {
        lemma_auto_spec_u64_to_from_le_bytes();
    }
}

impl StaticByteRepr for i64 {
    const BYTE_LEN: usize = 8;
}

impl ByteRepr for u128 {
    const MIN_BYTE_LEN: usize = 16;
    const MAX_BYTE_LEN: usize = 16;

    open spec fn spec_to_bytes(v: u128) -> Seq<u8> {
        spec_u128_to_le_bytes(v)
    }

    open spec fn spec_representable(v: u128) -> bool {
        true
    }

    open spec fn spec_from_bytes(bytes: Seq<u8>) -> Option<Result<u128, ByteReprError>> {
        if bytes.len() < 16 {
            Some(Err(ByteReprError::SliceTooShort))
        } else {
            Some(Ok(spec_u128_from_le_bytes(bytes.subrange(0, 16))))
        }
    }

    fn byte_len(&self) -> (n: usize) {
        proof {
            lemma_auto_spec_u128_to_from_le_bytes();
        }
        16
    }

    fn checked_byte_len(&self) -> (n: Option<usize>) {
        proof {
            lemma_auto_spec_u128_to_from_le_bytes();
        }
        Some(16)
    }

    fn write_to_bytes(&self, bytes: &mut [u8]) -> (r: Result<(), ByteReprError>) {
        let src = u128_to_le_bytes(*self);
        write_prefix(bytes, src.as_slice())
    }

    fn try_from_bytes(bytes: &[u8]) -> (r: Option<Result<u128, ByteReprError>>) {
        match read_prefix(bytes, 16) {
            Ok(s) => Some(Ok(u128_from_le_bytes(s))),
            Err(e) => Some(Err(e)),
        }
    }

    proof fn lemma_roundtrip(v: u128, rest: Seq<u8>) {
        lemma_auto_spec_u128_to_from_le_bytes();
        assert((spec_u128_to_le_bytes(v) + rest).subrange(0, 16) =~= spec_u128_to_le_bytes(v));
    }

    proof fn lemma_min_len(v: u128) {
        lemma_auto_spec_u128_to_from_le_bytes();
    }
}

impl StaticByteRepr for u128 {
    const BYTE_LEN: usize = 16;
}

impl ByteRepr for i128 {
    const MIN_BYTE_LEN: usize = 16;
    const MAX_BYTE_LEN: usize = 16;

    open spec fn spec_to_bytes(v: i128) -> Seq<u8> {
        spec_u128_to_le_bytes(v as u128)
    }

    open spec fn spec_representable(v: i128) -> bool {
        true
    }

    open spec fn spec_from_bytes(bytes: Seq<u8>) -> Option<Result<i128, ByteReprError>> {
        if bytes.len() < 16 {
            Some(Err(ByteReprError::SliceTooShort))
        } else {
            Some(Ok(spec_u128_from_le_bytes(bytes.subrange(0, 16)) as i128))
        }
    }

    fn byte_len(&self) -> (n: usize) {
        proof {
            lemma_auto_spec_u128_to_from_le_bytes();
        }
        16
    }

    fn checked_byte_len(&self) -> (n: Option<usize>) {
        proof {
            lemma_auto_spec_u128_to_from_le_bytes();
        }
        Some(16)
    }

    fn write_to_bytes(&self, bytes: &mut [u8]) -> (r: Result<(), ByteReprError>) {
        let src = u128_to_le_bytes(*self as u128);
        write_prefix(bytes, src.as_slice())
    }

    fn try_from_bytes(bytes: &[u8]) -> (r: Option<Result<i128, ByteReprError>>) {
        match read_prefix(bytes, 16) {
            Ok(s) => Some(Ok(u128_from_le_bytes(s) as i128)),
            Err(e) => Some(Err(e)),
        }
    }

    proof fn lemma_roundtrip(v: i128, rest: Seq<u8>) {
        lemma_auto_spec_u128_to_from_le_bytes();
        assert((spec_u128_to_le_bytes(v as u128) + rest).subrange(0, 16) =~= spec_u128_to_le_bytes(v as u128));
        assert((v as u128) as i128 == v) by (bit_vector);
    }

    proof fn lemma_min_len(v: i128) {
        lemma_auto_spec_u128_to_from_le_bytes();
    }
}

impl StaticByteRepr for i128 {
    const BYTE_LEN: usize = 16;
}

/// The number of bytes of a `usize` and of an `isize` on this target.
pub open spec fn word_len() -> nat {
    if usize::BITS == 64 {
        8
    } else {
        4
    }
}

/// [`word_len`].
fn word_bytes() -> (n: usize)
    ensures
        n == word_len(),
{
    if usize::BITS == 64 {
        8
    } else {
        4
    }
}

impl ByteRepr for usize {
    const MIN_BYTE_LEN: usize = usize::BITS as usize / 8;
    const MAX_BYTE_LEN: usize = usize::BITS as usize / 8;

    open spec fn spec_to_bytes(v: usize) -> Seq<u8> {
        if usize::BITS == 64 {
            spec_u64_to_le_bytes(v as u64)
        } else {
            spec_u32_to_le_bytes(v as u32)
        }
    }

    open spec fn spec_representable(v: usize) -> bool {
        true
    }

    open spec fn spec_from_bytes(bytes: Seq<u8>) -> Option<Result<usize, ByteReprError>> {
        if bytes.len() < word_len() {
            Some(Err(ByteReprError::SliceTooShort))
        } else if usize::BITS == 64 {
            Some(Ok(spec_u64_from_le_bytes(bytes.subrange(0, 8)) as usize))
        } else {
            Some(Ok(spec_u32_from_le_bytes(bytes.subrange(0, 4)) as usize))
        }
    }

    fn byte_len(&self) -> (n: usize) {
        proof {
            lemma_auto_spec_u64_to_from_le_bytes();
            lemma_auto_spec_u32_to_from_le_bytes();
        }
        word_bytes()
    }

    fn checked_byte_len(&self) -> (n: Option<usize>) {
        proof {
            lemma_auto_spec_u64_to_from_le_bytes();
            lemma_auto_spec_u32_to_from_le_bytes();
        }
        Some(word_bytes())
    }

    fn write_to_bytes(&self, bytes: &mut [u8]) -> (r: Result<(), ByteReprError>) {
        if usize::BITS == 64 {
            let src = u64_to_le_bytes(*self as u64);
            write_prefix(bytes, src.as_slice())
        } else {
            let src = u32_to_le_bytes(*self as u32);
            write_prefix(bytes, src.as_slice())
        }
    }

    fn try_from_bytes(bytes: &[u8]) -> (r: Option<Result<usize, ByteReprError>>) {
        if usize::BITS == 64 {
            match read_prefix(bytes, 8) {
                Ok(s) => Some(Ok(u64_from_le_bytes(s) as usize)),
                Err(e) => Some(Err(e)),
            }
        } else {
            match read_prefix(bytes, 4) {
                Ok(s) => Some(Ok(u32_from_le_bytes(s) as usize)),
                Err(e) => Some(Err(e)),
            }
        }
    }

    proof fn lemma_roundtrip(v: usize, rest: Seq<u8>) {
        lemma_auto_spec_u64_to_from_le_bytes();
        lemma_auto_spec_u32_to_from_le_bytes();
        if usize::BITS == 64 {
            assert((spec_u64_to_le_bytes(v as u64) + rest).subrange(0, 8) =~= spec_u64_to_le_bytes(v as u64));
        } else {
            assert((spec_u32_to_le_bytes(v as u32) + rest).subrange(0, 4) =~= spec_u32_to_le_bytes(v as u32));
            assert(usize::BITS == 32);
            assert((v as u32) as usize == v) by (bit_vector)
                requires
                    usize::BITS == 32,
            ;
        }
    }

    proof fn lemma_min_len(v: usize) {
        lemma_auto_spec_u64_to_from_le_bytes();
        lemma_auto_spec_u32_to_from_le_bytes();
    }
}

impl StaticByteRepr for usize {
    const BYTE_LEN: usize = usize::BITS as usize / 8;
}

impl ByteRepr for isize {
    const MIN_BYTE_LEN: usize = usize::BITS as usize / 8;
    const MAX_BYTE_LEN: usize = usize::BITS as usize / 8;

    open spec fn spec_to_bytes(v: isize) -> Seq<u8> {
        if usize::BITS == 64 {
            spec_u64_to_le_bytes(v as u64)
        } else {
            spec_u32_to_le_bytes(v as u32)
        }
    }

    open spec fn spec_representable(v: isize) -> bool {
        true
    }

    open spec fn spec_from_bytes(bytes: Seq<u8>) -> Option<Result<isize, ByteReprError>> {
        if bytes.len() < word_len() {
            Some(Err(ByteReprError::SliceTooShort))
        } else if usize::BITS == 64 {
            Some(Ok(spec_u64_from_le_bytes(bytes.subrange(0, 8)) as isize))
        } else {
            Some(Ok(spec_u32_from_le_bytes(bytes.subrange(0, 4)) as isize))
        }
    }

    fn byte_len(&self) -> (n: usize) {
        proof {
            lemma_auto_spec_u64_to_from_le_bytes();
            lemma_auto_spec_u32_to_from_le_bytes();
        }
        word_bytes()
    }

    fn checked_byte_len(&self) -> (n: Option<usize>) {
        proof {
            lemma_auto_spec_u64_to_from_le_bytes();
            lemma_auto_spec_u32_to_from_le_bytes();
        }
        Some(word_bytes())
    }

    fn write_to_bytes(&self, bytes: &mut [u8]) -> (r: Result<(), ByteReprError>) {
        if usize::BITS == 64 {
            let src = u64_to_le_bytes(*self as u64);
            write_prefix(bytes, src.as_slice())
        } else {
            let src = u32_to_le_bytes(*self as u32);
            write_prefix(bytes, src.as_slice())
        }
    }

    fn try_from_bytes(bytes: &[u8]) -> (r: Option<Result<isize, ByteReprError>>) {
        if usize::BITS == 64 {
            match read_prefix(bytes, 8) {
                Ok(s) => Some(Ok(u64_from_le_bytes(s) as isize)),
                Err(e) => Some(Err(e)),
            }
        } else {
            match read_prefix(bytes, 4) {
                Ok(s) => Some(Ok(u32_from_le_bytes(s) as isize)),
                Err(e) => Some(Err(e)),
            }
        }
    }

    proof fn lemma_roundtrip(v: isize, rest: Seq<u8>) {
        lemma_auto_spec_u64_to_from_le_bytes();
        lemma_auto_spec_u32_to_from_le_bytes();
        if usize::BITS == 64 {
            assert((spec_u64_to_le_bytes(v as u64) + rest).subrange(0, 8) =~= spec_u64_to_le_bytes(v as u64));
            assert((v as u64) as isize == v) by (bit_vector);
        } else {
            assert((spec_u32_to_le_bytes(v as u32) + rest).subrange(0, 4) =~= spec_u32_to_le_bytes(v as u32));
            assert((v as u32) as isize == v) by (bit_vector)
                requires
                    usize::BITS == 32,
            ;
        }
    }

    proof fn lemma_min_len(v: isize) {
        lemma_auto_spec_u64_to_from_le_bytes();
        lemma_auto_spec_u32_to_from_le_bytes();
    }
}

impl StaticByteRepr for isize {
    const BYTE_LEN: usize = usize::BITS as usize / 8;
}

impl ByteRepr for String {
    const MIN_BYTE_LEN: usize = 4;
    /// A `u32` length and up to 1020 bytes of UTF-8.
    const MAX_BYTE_LEN: usize = 4 + 1020;

    open spec fn spec_to_bytes(v: Seq<char>) -> Seq<u8> {
        spec_u32_to_le_bytes(encode_utf8(v).len() as u32) + encode_utf8(v)
    }

    open spec fn spec_representable(v: Seq<char>) -> bool {
        encode_utf8(v).len() <= u32::MAX
    }

    open spec fn spec_from_bytes(bytes: Seq<u8>) -> Option<Result<Seq<char>, ByteReprError>> {
        if bytes.len() < 4 {
            Some(Err(ByteReprError::SliceTooShort))
        } else {
            let n = spec_u32_from_le_bytes(bytes.subrange(0, 4));
            if 4 + n > bytes.len() {
                None
            } else {
                Some(Ok(spec_decode_lossy(bytes.subrange(4, 4 + n))))
            }
        }
    }

    fn byte_len(&self) -> (n: usize) {
        proof {
            lemma_auto_spec_u32_to_from_le_bytes();
        }
        4 + self.as_str().as_bytes().len()
    }

    fn checked_byte_len(&self) -> (n: Option<usize>) {
        proof {
            lemma_auto_spec_u32_to_from_le_bytes();
        }
        assert(Self::spec_to_bytes(self.deep_view()).len() == 4 + encode_utf8(self@).len());
        self.as_str().as_bytes().len().checked_add(4)
    }

    fn write_to_bytes(&self, bytes: &mut [u8]) -> (r: Result<(), ByteReprError>) {
        proof {
            lemma_auto_spec_u32_to_from_le_bytes();
        }
        let body = self.as_str().as_bytes();
        let prefix = u32_to_le_bytes(body.len() as u32);
        let ghost before = bytes@;
        match write_prefix(bytes, prefix.as_slice()) {
            Ok(()) => {},
            Err(e) => {
                return Err(e);
            },
        }
        let r = write_at(bytes, 4, body);
        proof {
            if r is Ok {
                assert(bytes@ =~= Self::spec_to_bytes(self.deep_view()) + before.subrange(
                    Self::spec_to_bytes(self.deep_view()).len() as int,
                    before.len() as int,
                ));
            }
        }
        r
    }

    fn try_from_bytes(bytes: &[u8]) -> (r: Option<Result<String, ByteReprError>>) {
        let prefix = match read_prefix(bytes, 4) {
            Ok(s) => s,
            Err(e) => {
                return Some(Err(e));
            },
        };
        let n = u32_from_le_bytes(prefix) as usize;
        if n > bytes.len() - 4 {
            return None;
        }
        let body = vstd::slice::slice_subrange(bytes, 4, 4 + n);
        Some(Ok(string_from_utf8_lossy(body)))
    }

    proof fn lemma_roundtrip(v: Seq<char>, rest: Seq<u8>) {
        lemma_auto_spec_u32_to_from_le_bytes();
        let body = encode_utf8(v);
        let all = Self::spec_to_bytes(v) + rest;
        assert(all.subrange(0, 4) =~= spec_u32_to_le_bytes(body.len() as u32));
        assert(all.subrange(4, 4 + body.len() as int) =~= body);
        encode_utf8_valid_utf8(v);
        encode_utf8_decode_utf8(v);
    }

    proof fn lemma_min_len(v: Seq<char>) {
        lemma_auto_spec_u32_to_from_le_bytes();
    }
}

impl<T: ByteRepr> ByteRepr for Box<T> {
    const MIN_BYTE_LEN: usize = T::MIN_BYTE_LEN;
    const MAX_BYTE_LEN: usize = T::MAX_BYTE_LEN;

    open spec fn spec_to_bytes(v: T::V) -> Seq<u8> {
        T::spec_to_bytes(v)
    }

    open spec fn spec_representable(v: T::V) -> bool {
        T::spec_representable(v)
    }

    open spec fn spec_from_bytes(bytes: Seq<u8>) -> Option<Result<T::V, ByteReprError>> {
        T::spec_from_bytes(bytes)
    }

    fn byte_len(&self) -> (n: usize) {
        (**self).byte_len()
    }

    fn checked_byte_len(&self) -> (n: Option<usize>) {
        (**self).checked_byte_len()
    }

    fn write_to_bytes(&self, bytes: &mut [u8]) -> (r: Result<(), ByteReprError>) {
        (**self).write_to_bytes(bytes)
    }

    fn try_from_bytes(bytes: &[u8]) -> (r: Option<Result<Box<T>, ByteReprError>>) {
        match T::try_from_bytes(bytes) {
            None => None,
            Some(Err(e)) => Some(Err(e)),
            Some(Ok(v)) => Some(Ok(Box::new(v))),
        }
    }

    proof fn lemma_roundtrip(v: T::V, rest: Seq<u8>) {
        T::lemma_roundtrip(v, rest);
    }

    proof fn lemma_min_len(v: T::V) {
        T::lemma_min_len(v);
    }
}

impl<T: StaticByteRepr> StaticByteRepr for Box<T> {
    const BYTE_LEN: usize = T::BYTE_LEN;
}

impl<'a, T: ByteRepr + Clone> ByteRepr for Cow<'a, T> {
    const MIN_BYTE_LEN: usize = T::MIN_BYTE_LEN;
    const MAX_BYTE_LEN: usize = T::MAX_BYTE_LEN;

    open spec fn spec_to_bytes(v: T::V) -> Seq<u8> {
        T::spec_to_bytes(v)
    }

    open spec fn spec_representable(v: T::V) -> bool {
        T::spec_representable(v)
    }

    open spec fn spec_from_bytes(bytes: Seq<u8>) -> Option<Result<T::V, ByteReprError>> {
        T::spec_from_bytes(bytes)
    }

    fn byte_len(&self) -> (n: usize) {
        match self {
            Cow::Borrowed(b) => b.byte_len(),
            Cow::Owned(o) => o.byte_len(),
        }
    }

    fn checked_byte_len(&self) -> (n: Option<usize>) {
        match self {
            Cow::Borrowed(b) => b.checked_byte_len(),
            Cow::Owned(o) => o.checked_byte_len(),
        }
    }

    fn write_to_bytes(&self, bytes: &mut [u8]) -> (r: Result<(), ByteReprError>) {
        match self {
            Cow::Borrowed(b) => b.write_to_bytes(bytes),
            Cow::Owned(o) => o.write_to_bytes(bytes),
        }
    }

    fn try_from_bytes(bytes: &[u8]) -> (r: Option<Result<Cow<'a, T>, ByteReprError>>) {
        match T::try_from_bytes(bytes) {
            None => None,
            Some(Err(e)) => Some(Err(e)),
            Some(Ok(v)) => Some(Ok(Cow::Owned(v))),
        }
    }

    proof fn lemma_roundtrip(v: T::V, rest: Seq<u8>) {
        T::lemma_roundtrip(v, rest);
    }

    proof fn lemma_min_len(v: T::V) {
        T::lemma_min_len(v);
    }
}

impl<'a, T: StaticByteRepr + Clone> StaticByteRepr for Cow<'a, T> {
    const BYTE_LEN: usize = T::BYTE_LEN;
}

/// Write the string `s` to the front of `bytes` as a [`String`] is written.
fn write_str(s: &str, bytes: &mut [u8]) -> (r: Result<(), ByteReprError>)
    requires
        <String as ByteRepr>::spec_to_bytes(s@).len() <= usize::MAX,
    ensures
        final(bytes)@.len() == old(bytes)@.len(),
        r is Ok <==> <String as ByteRepr>::spec_to_bytes(s@).len() <= old(bytes)@.len(),
        r is Ok ==> final(bytes)@ == <String as ByteRepr>::spec_to_bytes(s@) + old(
            bytes,
        )@.subrange(<String as ByteRepr>::spec_to_bytes(s@).len() as int, old(bytes)@.len() as int),
        r is Err ==> r == Err::<(), ByteReprError>(ByteReprError::SliceTooShort),
{
    proof {
        lemma_auto_spec_u32_to_from_le_bytes();
    }
    let body = s.as_bytes();
    let prefix = u32_to_le_bytes(body.len() as u32);
    let ghost before = bytes@;
    match write_prefix(bytes, prefix.as_slice()) {
        Ok(()) => {},
        Err(e) => {
            return Err(e);
        },
    }
    let r = write_at(bytes, 4, body);
    proof {
        if r is Ok {
            assert(bytes@ =~= <String as ByteRepr>::spec_to_bytes(s@) + before.subrange(
                <String as ByteRepr>::spec_to_bytes(s@).len() as int,
                before.len() as int,
            ));
        }
    }
    r
}

impl<'a> ByteRepr for Cow<'a, str> {
    const MIN_BYTE_LEN: usize = 4;
    /// A `u32` length and up to 1020 bytes of UTF-8.
    const MAX_BYTE_LEN: usize = 4 + 1020;

    open spec fn spec_to_bytes(v: Seq<char>) -> Seq<u8> {
        <String as ByteRepr>::spec_to_bytes(v)
    }

    open spec fn spec_representable(v: Seq<char>) -> bool {
        <String as ByteRepr>::spec_representable(v)
    }

    open spec fn spec_from_bytes(bytes: Seq<u8>) -> Option<Result<Seq<char>, ByteReprError>> {
        <String as ByteRepr>::spec_from_bytes(bytes)
    }

    fn byte_len(&self) -> (n: usize) {
        proof {
            lemma_auto_spec_u32_to_from_le_bytes();
        }
        let s: &str = match self {
            Cow::Borrowed(b) => b,
            Cow::Owned(o) => o.as_str(),
        };
        4 + s.as_bytes().len()
    }

    fn checked_byte_len(&self) -> (n: Option<usize>) {
        proof {
            lemma_auto_spec_u32_to_from_le_bytes();
        }
        let s: &str = match self {
            Cow::Borrowed(b) => b,
            Cow::Owned(o) => o.as_str(),
        };
        s.as_bytes().len().checked_add(4)
    }

    fn write_to_bytes(&self, bytes: &mut [u8]) -> (r: Result<(), ByteReprError>) {
        let s: &str = match self {
            Cow::Borrowed(b) => b,
            Cow::Owned(o) => o.as_str(),
        };
        write_str(s, bytes)
    }

    fn try_from_bytes(bytes: &[u8]) -> (r: Option<Result<Cow<'a, str>, ByteReprError>>) {
        match String::try_from_bytes(bytes) {
            None => None,
            Some(Err(e)) => Some(Err(e)),
            Some(Ok(v)) => Some(Ok(Cow::Owned(v))),
        }
    }

    proof fn lemma_roundtrip(v: Seq<char>, rest: Seq<u8>) {
        <String as ByteRepr>::lemma_roundtrip(v, rest);
    }

    proof fn lemma_min_len(v: Seq<char>) {
        <String as ByteRepr>::lemma_min_len(v);
    }
}

/// `v` taken to `n` items: the items of `v`, cut off after `n` or filled up with one value.
pub open spec fn fit_len<V>(v: Seq<V>, n: nat) -> Seq<V> {
    Seq::new(n, |i: int| if i < v.len() { v[i] } else { vstd::pervasive::arbitrary() })
}

/// The bytes of items take at least the least length of an item for each item.
proof fn lemma_items_min_len<T: ByteRepr>(vs: Seq<T::V>)
    ensures
        items_to_bytes::<T>(vs).len() >= vs.len() * T::MIN_BYTE_LEN,
    decreases vs.len(),
{
    if vs.len() > 0 {
        lemma_items_min_len::<T>(vs.drop_last());
        T::lemma_min_len(vs.last());
        let k = vs.drop_last().len();
        let m = T::MIN_BYTE_LEN as int;
        assert(k * m + m == (k + 1) * m) by (nonlinear_arith);
    }
}

/// A reading of `count` items gives `count` items.
proof fn lemma_parse_items_len<T: ByteRepr>(bytes: Seq<u8>, pos: int, count: nat)
    ensures
        parse_items::<T>(bytes, pos, count) matches Some(Ok(vs)) ==> vs.len() == count,
    decreases count,
{
    if count > 0 && 0 <= pos <= bytes.len() {
        match T::spec_from_bytes(bytes.subrange(pos, bytes.len() as int)) {
            Some(Ok(v)) => {
                let next = pos + T::spec_to_bytes(v).len();
                lemma_parse_items_len::<T>(bytes, next, (count - 1) as nat);
            },
            _ => {},
        }
    }
}

/// The array of the `N` items of `v`, which has that many. Calls `TryFrom<Vec<T>>` for
/// `[T; N]`; trusted: it gives the items of `v`, in order, exactly when `v` has `N` of them.
#[verifier::external_body]
fn vec_into_array<T, const N: usize>(v: Vec<T>) -> (r: Option<[T; N]>)
    ensures
        r is Some <==> v@.len() == N,
        r matches Some(a) ==> a@ == v@,
{
    v.try_into().ok()
}

impl<T: ByteRepr + Default, const N: usize> ByteRepr for [T; N] {
    const MIN_BYTE_LEN: usize = T::MIN_BYTE_LEN * N;
    const MAX_BYTE_LEN: usize = T::MAX_BYTE_LEN * N;

    /// The items one after the other, without a count.
    open spec fn spec_to_bytes(v: Seq<T::V>) -> Seq<u8> {
        items_to_bytes::<T>(fit_len(v, N as nat))
    }

    open spec fn spec_representable(v: Seq<T::V>) -> bool {
        &&& v.len() == N
        &&& forall|i: int| 0 <= i < v.len() ==> T::spec_representable(#[trigger] v[i])
        &&& items_to_bytes::<T>(v).len() <= usize::MAX
    }

    open spec fn spec_from_bytes(bytes: Seq<u8>) -> Option<Result<Seq<T::V>, ByteReprError>> {
        parse_items::<T>(bytes, 0, N as nat)
    }

    fn byte_len(&self) -> (n: usize) {
        let items = self.as_slice();
        let ghost dv = self.deep_view();
        proof {
            assert(fit_len(dv, N as nat) =~= dv);
            assert(items@ == self@);
        }
        let mut total: usize = 0;
        let mut k: usize = 0;
        while k < items.len()
            invariant
                dv == self.deep_view(),
                fit_len(dv, N as nat) == dv,
                items@ == self@,
                dv.len() == items@.len(),
                items_to_bytes::<T>(dv).len() <= usize::MAX,
                k <= items@.len(),
                total == items_to_bytes::<T>(dv.take(k as int)).len(),
            decreases items@.len() - k,
        {
            proof {
                lemma_items_split::<T>(dv, k + 1);
                lemma_items_split::<T>(dv.take(k + 1), k as int);
                assert(dv.take(k + 1).take(k as int) =~= dv.take(k as int));
                assert(dv.take(k + 1).skip(k as int) =~= seq![dv[k as int]]);
                assert(items_to_bytes::<T>(seq![dv[k as int]]) =~= T::spec_to_bytes(dv[k as int])) by {
                    assert(seq![dv[k as int]].drop_last() =~= Seq::<T::V>::empty());
                }
                assert(items@[k as int].deep_view() == dv[k as int]);
            }
            total = total + items[k].byte_len();
            k = k + 1;
        }
        proof {
            assert(dv.take(k as int) =~= dv);
        }
        total
    }

    fn checked_byte_len(&self) -> (n: Option<usize>) {
        let items = self.as_slice();
        let ghost dv = self.deep_view();
        proof {
            assert(fit_len(dv, N as nat) =~= dv);
            assert(items@ == self@);
        }
        let mut total: usize = 0;
        let mut k: usize = 0;
        while k < items.len()
            invariant
                dv == self.deep_view(),
                fit_len(dv, N as nat) == dv,
                items@ == self@,
                dv.len() == items@.len(),
                k <= items@.len(),
                total == items_to_bytes::<T>(dv.take(k as int)).len(),
            decreases items@.len() - k,
        {
            proof {
                lemma_items_split::<T>(dv, k + 1);
                lemma_items_split::<T>(dv.take(k + 1), k as int);
                assert(dv.take(k + 1).take(k as int) =~= dv.take(k as int));
                assert(dv.take(k + 1).skip(k as int) =~= seq![dv[k as int]]);
                assert(items_to_bytes::<T>(seq![dv[k as int]]) =~= T::spec_to_bytes(dv[k as int])) by {
                    assert(seq![dv[k as int]].drop_last() =~= Seq::<T::V>::empty());
                }
                assert(items@[k as int].deep_view() == dv[k as int]);
                lemma_items_split::<T>(dv, k + 1);
            }
            match items[k].checked_byte_len() {
                Some(l) => match total.checked_add(l) {
                    Some(t) => {
                        total = t;
                    },
                    None => {
                        return None;
                    },
                },
                None => {
                    return None;
                },
            }
            k = k + 1;
        }
        proof {
            assert(dv.take(k as int) =~= dv);
        }
        Some(total)
    }

    fn write_to_bytes(&self, bytes: &mut [u8]) -> (r: Result<(), ByteReprError>) {
        let items = self.as_slice();
        let ghost dv = self.deep_view();
        let ghost before = bytes@;
        proof {
            assert(fit_len(dv, N as nat) =~= dv);
            assert(items@ == self@);
            assert(before.subrange(0, before.len() as int) =~= before);
        }
        let mut ptr: usize = 0;
        let mut k: usize = 0;
        while k < items.len()
            invariant
                dv == self.deep_view(),
                fit_len(dv, N as nat) == dv,
                items@ == self@,
                dv.len() == items@.len(),
                items_to_bytes::<T>(dv).len() <= usize::MAX,
                before == old(bytes)@,
                before.len() == bytes@.len(),
                k <= items@.len(),
                ptr == items_to_bytes::<T>(dv.take(k as int)).len(),
                ptr <= bytes@.len(),
                bytes@ == items_to_bytes::<T>(dv.take(k as int)) + before.subrange(
                    ptr as int,
                    before.len() as int,
                ),
            decreases items@.len() - k,
        {
            proof {
                lemma_items_split::<T>(dv, k + 1);
                lemma_items_split::<T>(dv.take(k + 1), k as int);
                assert(dv.take(k + 1).take(k as int) =~= dv.take(k as int));
                assert(dv.take(k + 1).skip(k as int) =~= seq![dv[k as int]]);
                assert(items_to_bytes::<T>(seq![dv[k as int]]) =~= T::spec_to_bytes(dv[k as int])) by {
                    assert(seq![dv[k as int]].drop_last() =~= Seq::<T::V>::empty());
                }
                assert(items@[k as int].deep_view() == dv[k as int]);
            }
            let item = &items[k];
            match write_item_at(item, bytes, ptr) {
                Ok(()) => {},
                Err(e) => {
                    proof {
                        lemma_items_split::<T>(dv, k + 1);
                    }
                    return Err(e);
                },
            }
            proof {
                assert(bytes@ =~= items_to_bytes::<T>(dv.take(k + 1)) + before.subrange(
                    ptr + T::spec_to_bytes(dv[k as int]).len(),
                    before.len() as int,
                ));
            }
            ptr = ptr + item.byte_len();
            k = k + 1;
        }
        proof {
            assert(dv.take(k as int) =~= dv);
        }
        Ok(())
    }

    fn try_from_bytes(bytes: &[u8]) -> (r: Option<Result<[T; N], ByteReprError>>) {
        let ghost count = N as nat;
        let mut out: Vec<T> = Vec::new();
        let mut pos: usize = 0;
        let mut k: usize = 0;
        proof {
            assert(out.deep_view() =~= Seq::<T::V>::empty());
            assert(prepend_read(Seq::<T::V>::empty(), parse_items::<T>(bytes@, 0, count))
                == parse_items::<T>(bytes@, 0, count)) by {
                match parse_items::<T>(bytes@, 0, count) {
                    Some(Ok(vs)) => {
                        assert(Seq::<T::V>::empty() + vs =~= vs);
                    },
                    _ => {},
                }
            }
        }
        while k < N
            invariant
                k <= N,
                count == N,
                out@.len() == k,
                parse_items::<T>(bytes@, 0, count) == prepend_read(
                    out.deep_view(),
                    parse_items::<T>(bytes@, pos as int, (count - k) as nat),
                ),
            decreases N - k,
        {
            if pos > bytes.len() {
                assert(parse_items::<T>(bytes@, pos as int, (count - k) as nat) is None);
                return None;
            }
            let rest = vstd::slice::slice_subrange(bytes, pos, bytes.len());
            let item = match T::try_from_bytes(rest) {
                None => {
                    return None;
                },
                Some(Err(e)) => {
                    return Some(Err(e));
                },
                Some(Ok(item)) => item,
            };
            let len = match item.checked_byte_len() {
                None => {
                    return None;
                },
                Some(len) => len,
            };
            pos = match pos.checked_add(len) {
                None => {
                    return None;
                },
                Some(p) => p,
            };
            let ghost old_dv = out.deep_view();
            out.push(item);
            proof {
                assert(out.deep_view() =~= old_dv.push(item.deep_view()));
                let later = parse_items::<T>(bytes@, pos as int, (count - k - 1) as nat);
                assert(prepend_read(old_dv, prepend_read(seq![item.deep_view()], later))
                    == prepend_read(out.deep_view(), later)) by {
                    match later {
                        Some(Ok(vs)) => {
                            assert(old_dv + (seq![item.deep_view()] + vs) =~= out.deep_view() + vs);
                        },
                        _ => {},
                    }
                }
            }
            k = k + 1;
        }
        proof {
            assert(out.deep_view() + Seq::<T::V>::empty() =~= out.deep_view());
        }
        let ghost ov = out@;
        let ghost odv = out.deep_view();
        match vec_into_array::<T, N>(out) {
            Some(a) => {
                proof {
                    assert(a.deep_view() =~= odv);
                }
                Some(Ok(a))
            },
            None => None,
        }
    }

    proof fn lemma_roundtrip(v: Seq<T::V>, rest: Seq<u8>) {
        assert(fit_len(v, N as nat) =~= v);
        let all = Self::spec_to_bytes(v) + rest;
        assert(all.subrange(0, all.len() as int) =~= items_to_bytes::<T>(v) + rest);
        lemma_parse_items_roundtrip::<T>(v, all, 0, rest);
    }

    proof fn lemma_min_len(v: Seq<T::V>) {
        lemma_items_min_len::<T>(fit_len(v, N as nat));
        assert(fit_len(v, N as nat).len() == N);
        assert(N * T::MIN_BYTE_LEN == T::MIN_BYTE_LEN * N) by (nonlinear_arith);
    }
}

impl<T: StaticByteRepr, const N: usize> StaticByteRepr for [T; N] {
    const BYTE_LEN: usize = T::BYTE_LEN * N;
}

/// The bytes of the items `vs`, one after the other.
pub open spec fn items_to_bytes<T: ByteRepr>(vs: Seq<T::V>) -> Seq<u8>
    decreases vs.len(),
{
    if vs.len() == 0 {
        Seq::empty()
    } else {
        items_to_bytes::<T>(vs.drop_last()) + T::spec_to_bytes(vs.last())
    }
}

/// The outcome `r` of reading some items, with the items `xs` read before them in front.
pub open spec fn prepend_read<V>(xs: Seq<V>, r: Option<Result<Seq<V>, ByteReprError>>) -> Option<
    Result<Seq<V>, ByteReprError>,
> {
    match r {
        Some(Ok(vs)) => Some(Ok(xs + vs)),
        other => other,
    }
}

/// What reading `count` items one after the other from `bytes`, starting at `pos`, gives. Each
/// item is read from `bytes[pos..]`, and the position then moves on by the length of the item
/// read. Reading runs past the end of `bytes` (`None`) where the position passes the end before
/// an item is read, or leaves the `usize` range.
pub open spec fn parse_items<T: ByteRepr>(bytes: Seq<u8>, pos: int, count: nat) -> Option<
    Result<Seq<T::V>, ByteReprError>,
>
    decreases count,
{
    if count == 0 {
        Some(Ok(Seq::empty()))
    } else if pos > bytes.len() || pos < 0 {
        None
    } else {
        match T::spec_from_bytes(bytes.subrange(pos, bytes.len() as int)) {
            None => None,
            Some(Err(e)) => Some(Err(e)),
            Some(Ok(v)) => {
                let next = pos + T::spec_to_bytes(v).len();
                if next > usize::MAX {
                    None
                } else {
                    prepend_read(seq![v], parse_items::<T>(bytes, next, (count - 1) as nat))
                }
            },
        }
    }
}

/// The bytes of some items are those of the first `k` followed by those of the rest.
pub proof fn lemma_items_split<T: ByteRepr>(vs: Seq<T::V>, k: int)
    requires
        0 <= k <= vs.len(),
    ensures
        items_to_bytes::<T>(vs) == items_to_bytes::<T>(vs.take(k)) + items_to_bytes::<T>(
            vs.skip(k),
        ),
    decreases vs.len(),
{
    if k == vs.len() {
        assert(vs.take(k) =~= vs);
        assert(vs.skip(k) =~= Seq::<T::V>::empty());
        assert(items_to_bytes::<T>(vs) + Seq::<u8>::empty() =~= items_to_bytes::<T>(vs));
    } else {
        let dl = vs.drop_last();
        lemma_items_split::<T>(dl, k);
        assert(dl.take(k) =~= vs.take(k));
        assert(vs.skip(k).drop_last() =~= dl.skip(k));
        assert(vs.skip(k).last() == vs.last());
        assert(items_to_bytes::<T>(vs.skip(k)) == items_to_bytes::<T>(dl.skip(k))
            + T::spec_to_bytes(vs.last()));
        assert(items_to_bytes::<T>(vs) =~= items_to_bytes::<T>(vs.take(k)) + items_to_bytes::<T>(
            vs.skip(k),
        ));
    }
}

/// Reading the bytes of representable items gives the items back.
pub proof fn lemma_parse_items_roundtrip<T: ByteRepr>(
    vs: Seq<T::V>,
    bytes: Seq<u8>,
    pos: int,
    rest: Seq<u8>,
)
    requires
        0 <= pos <= bytes.len(),
        bytes.subrange(pos, bytes.len() as int) == items_to_bytes::<T>(vs) + rest,
        forall|i: int| 0 <= i < vs.len() ==> T::spec_representable(#[trigger] vs[i]),
        pos + items_to_bytes::<T>(vs).len() <= usize::MAX,
    ensures
        parse_items::<T>(bytes, pos, vs.len()) == Some(Ok::<Seq<T::V>, ByteReprError>(vs)),
    decreases vs.len(),
{
    if vs.len() == 0 {
        assert(vs =~= Seq::<T::V>::empty());
    } else {
        let v0 = vs[0];
        let tail = vs.skip(1);
        lemma_items_split::<T>(vs, 1);
        assert(vs.take(1).drop_last() =~= Seq::<T::V>::empty());
        assert(vs.take(1).last() == v0);
        assert(items_to_bytes::<T>(Seq::<T::V>::empty()) == Seq::<u8>::empty());
        assert(items_to_bytes::<T>(vs.take(1)) == items_to_bytes::<T>(vs.take(1).drop_last())
            + T::spec_to_bytes(vs.take(1).last()));
        assert(items_to_bytes::<T>(vs.take(1)) =~= T::spec_to_bytes(v0));
        let enc0 = T::spec_to_bytes(v0);
        let after = items_to_bytes::<T>(tail) + rest;
        let from_pos = bytes.subrange(pos, bytes.len() as int);
        assert(from_pos =~= enc0 + after);
        T::lemma_roundtrip(v0, after);
        let next = pos + enc0.len();
        assert forall|i: int| 0 <= i < after.len() implies #[trigger] bytes.subrange(
            next,
            bytes.len() as int,
        )[i] == after[i] by {
            assert(from_pos[enc0.len() + i] == after[i]);
            assert(bytes[next + i] == from_pos[enc0.len() + i]);
        }
        assert(bytes.subrange(next, bytes.len() as int) =~= after);
        assert forall|i: int| 0 <= i < tail.len() implies T::spec_representable(
            #[trigger] tail[i],
        ) by {
            assert(tail[i] == vs[i + 1]);
        }
        lemma_parse_items_roundtrip::<T>(tail, bytes, next, rest);
        assert(seq![v0] + tail =~= vs);
    }
}

impl<T: ByteRepr> ByteRepr for Vec<T> {
    const MIN_BYTE_LEN: usize = 4;
    /// A `u32` count and up to 1000 items.
    const MAX_BYTE_LEN: usize = 4 + 1000 * T::MAX_BYTE_LEN;

    open spec fn spec_to_bytes(v: Seq<T::V>) -> Seq<u8> {
        spec_u32_to_le_bytes(v.len() as u32) + items_to_bytes::<T>(v)
    }

    open spec fn spec_representable(v: Seq<T::V>) -> bool {
        &&& v.len() <= u32::MAX
        &&& forall|i: int| 0 <= i < v.len() ==> T::spec_representable(#[trigger] v[i])
        &&& 4 + items_to_bytes::<T>(v).len() <= usize::MAX
    }

    open spec fn spec_from_bytes(bytes: Seq<u8>) -> Option<Result<Seq<T::V>, ByteReprError>> {
        if bytes.len() < 4 {
            Some(Err(ByteReprError::SliceTooShort))
        } else {
            parse_items::<T>(bytes, 4, spec_u32_from_le_bytes(bytes.subrange(0, 4)) as nat)
        }
    }

    fn byte_len(&self) -> (n: usize) {
        proof {
            lemma_auto_spec_u32_to_from_le_bytes();
        }
        let ghost dv = self.deep_view();
        let mut total: usize = 4;
        let mut k: usize = 0;
        while k < self.len()
            invariant
                dv == self.deep_view(),
                dv.len() == self@.len(),
                spec_u32_to_le_bytes(dv.len() as u32).len() == 4,
                4 + items_to_bytes::<T>(dv).len() <= usize::MAX,
                k <= self@.len(),
                total == 4 + items_to_bytes::<T>(dv.take(k as int)).len(),
            decreases self@.len() - k,
        {
            proof {
                lemma_items_split::<T>(dv, k + 1);
                lemma_items_split::<T>(dv.take(k + 1), k as int);
                assert(dv.take(k + 1).take(k as int) =~= dv.take(k as int));
                assert(dv.take(k + 1).skip(k as int) =~= seq![dv[k as int]]);
                assert(items_to_bytes::<T>(seq![dv[k as int]]) =~= T::spec_to_bytes(dv[k as int])) by {
                    assert(seq![dv[k as int]].drop_last() =~= Seq::<T::V>::empty());
                }
                assert(self@[k as int].deep_view() == dv[k as int]);
            }
            total = total + self[k].byte_len();
            k = k + 1;
        }
        proof {
            assert(dv.take(k as int) =~= dv);
        }
        total
    }

    fn checked_byte_len(&self) -> (n: Option<usize>) {
        proof {
            lemma_auto_spec_u32_to_from_le_bytes();
        }
        let ghost dv = self.deep_view();
        let mut total: usize = 4;
        let mut k: usize = 0;
        while k < self.len()
            invariant
                dv == self.deep_view(),
                dv.len() == self@.len(),
                spec_u32_to_le_bytes(dv.len() as u32).len() == 4,
                k <= self@.len(),
                total == 4 + items_to_bytes::<T>(dv.take(k as int)).len(),
            decreases self@.len() - k,
        {
            proof {
                lemma_items_split::<T>(dv, k + 1);
                lemma_items_split::<T>(dv.take(k + 1), k as int);
                assert(dv.take(k + 1).take(k as int) =~= dv.take(k as int));
                assert(dv.take(k + 1).skip(k as int) =~= seq![dv[k as int]]);
                assert(items_to_bytes::<T>(seq![dv[k as int]]) =~= T::spec_to_bytes(dv[k as int])) by {
                    assert(seq![dv[k as int]].drop_last() =~= Seq::<T::V>::empty());
                }
                assert(self@[k as int].deep_view() == dv[k as int]);
                lemma_items_split::<T>(dv, k + 1);
            }
            match self[k].checked_byte_len() {
                Some(l) => match total.checked_add(l) {
                    Some(t) => {
                        total = t;
                    },
                    None => {
                        return None;
                    },
                },
                None => {
                    return None;
                },
            }
            k = k + 1;
        }
        proof {
            assert(dv.take(k as int) =~= dv);
        }
        Some(total)
    }

    fn write_to_bytes(&self, bytes: &mut [u8]) -> (r: Result<(), ByteReprError>) {
        proof {
            lemma_auto_spec_u32_to_from_le_bytes();
        }
        let ghost dv = self.deep_view();
        let ghost before = bytes@;
        let prefix = u32_to_le_bytes(self.len() as u32);
        match write_prefix(bytes, prefix.as_slice()) {
            Ok(()) => {},
            Err(e) => {
                return Err(e);
            },
        }
        let mut ptr: usize = 4;
        let mut k: usize = 0;
        while k < self.len()
            invariant
                dv == self.deep_view(),
                dv.len() == self@.len(),
                spec_u32_to_le_bytes(dv.len() as u32).len() == 4,
                4 + items_to_bytes::<T>(dv).len() <= usize::MAX,
                before == old(bytes)@,
                before.len() == bytes@.len(),
                k <= self@.len(),
                ptr == 4 + items_to_bytes::<T>(dv.take(k as int)).len(),
                ptr <= bytes@.len(),
                bytes@ == spec_u32_to_le_bytes(dv.len() as u32) + items_to_bytes::<T>(dv.take(k as int))
                    + before.subrange(ptr as int, before.len() as int),
            decreases self@.len() - k,
        {
            proof {
                lemma_items_split::<T>(dv, k + 1);
                lemma_items_split::<T>(dv.take(k + 1), k as int);
                assert(dv.take(k + 1).take(k as int) =~= dv.take(k as int));
                assert(dv.take(k + 1).skip(k as int) =~= seq![dv[k as int]]);
                assert(items_to_bytes::<T>(seq![dv[k as int]]) =~= T::spec_to_bytes(dv[k as int])) by {
                    assert(seq![dv[k as int]].drop_last() =~= Seq::<T::V>::empty());
                }
                assert(self@[k as int].deep_view() == dv[k as int]);
            }
            let item = &self[k];
            let ghost mid = bytes@;
            match write_item_at(item, bytes, ptr) {
                Ok(()) => {},
                Err(e) => {
                    return Err(e);
                },
            }
            proof {
                assert(bytes@ =~= spec_u32_to_le_bytes(dv.len() as u32) + items_to_bytes::<T>(
                    dv.take(k + 1),
                ) + before.subrange(ptr + T::spec_to_bytes(dv[k as int]).len(), before.len() as int));
            }
            ptr = ptr + item.byte_len();
            k = k + 1;
        }
        proof {
            assert(dv.take(k as int) =~= dv);
        }
        Ok(())
    }

    fn try_from_bytes(bytes: &[u8]) -> (r: Option<Result<Vec<T>, ByteReprError>>) {
        proof {
            lemma_auto_spec_u32_to_from_le_bytes();
        }
        let prefix = match read_prefix(bytes, 4) {
            Ok(s) => s,
            Err(e) => {
                return Some(Err(e));
            },
        };
        let n = u32_from_le_bytes(prefix);
        let ghost count = n as nat;
        assert(Self::spec_from_bytes(bytes@) == parse_items::<T>(bytes@, 4, count));
        let mut out: Vec<T> = Vec::new();
        let mut pos: usize = 4;
        let mut k: u32 = 0;
        while k < n
            invariant
                k <= n,
                count == n,
                count == spec_u32_from_le_bytes(bytes@.subrange(0, 4)),
                4 <= bytes@.len(),
                parse_items::<T>(bytes@, 4, count) == prepend_read(
                    out.deep_view(),
                    parse_items::<T>(bytes@, pos as int, (count - k) as nat),
                ),
            decreases n - k,
        {
            if pos > bytes.len() {
                assert(parse_items::<T>(bytes@, pos as int, (count - k) as nat) is None);
                assert(parse_items::<T>(bytes@, 4, count) is None);
                return None;
            }
            let rest = vstd::slice::slice_subrange(bytes, pos, bytes.len());
            let item = match T::try_from_bytes(rest) {
                None => {
                    return None;
                },
                Some(Err(e)) => {
                    return Some(Err(e));
                },
                Some(Ok(item)) => item,
            };
            let len = match item.checked_byte_len() {
                None => {
                    return None;
                },
                Some(len) => len,
            };
            pos = match pos.checked_add(len) {
                None => {
                    return None;
                },
                Some(p) => p,
            };
            let ghost old_dv = out.deep_view();
            out.push(item);
            proof {
                assert(out.deep_view() =~= old_dv.push(item.deep_view()));
                let later = parse_items::<T>(bytes@, pos as int, (count - k - 1) as nat);
                assert(prepend_read(old_dv, prepend_read(seq![item.deep_view()], later))
                    == prepend_read(out.deep_view(), later)) by {
                    match later {
                        Some(Ok(vs)) => {
                            assert(old_dv + (seq![item.deep_view()] + vs) =~= out.deep_view() + vs);
                        },
                        _ => {},
                    }
                }
            }
            k = k + 1;
        }
        proof {
            assert(out.deep_view() + Seq::<T::V>::empty() =~= out.deep_view());
        }
        Some(Ok(out))
    }

    proof fn lemma_roundtrip(v: Seq<T::V>, rest: Seq<u8>) {
        lemma_auto_spec_u32_to_from_le_bytes();
        let all = Self::spec_to_bytes(v) + rest;
        assert(all.subrange(0, 4) =~= spec_u32_to_le_bytes(v.len() as u32));
        assert(all.subrange(4, all.len() as int) =~= items_to_bytes::<T>(v) + rest);
        lemma_parse_items_roundtrip::<T>(v, all, 4, rest);
    }

    proof fn lemma_min_len(v: Seq<T::V>) {
        lemma_auto_spec_u32_to_from_le_bytes();
    }
}

impl<T: ByteRepr> ByteRepr for Option<T> {
    const MIN_BYTE_LEN: usize = 1;
    const MAX_BYTE_LEN: usize = 1 + T::MAX_BYTE_LEN;

    open spec fn spec_to_bytes(v: Option<T::V>) -> Seq<u8> {
        match v {
            None => seq![0u8],
            Some(x) => seq![1u8] + T::spec_to_bytes(x),
        }
    }

    open spec fn spec_representable(v: Option<T::V>) -> bool {
        match v {
            None => true,
            Some(x) => T::spec_representable(x),
        }
    }

    /// A tag byte other than `0` and `1` is an invalid value.
    open spec fn spec_from_bytes(bytes: Seq<u8>) -> Option<Result<Option<T::V>, ByteReprError>> {
        if bytes.len() < 1 {
            Some(Err(ByteReprError::SliceTooShort))
        } else if bytes[0] == 0 {
            Some(Ok(None))
        } else if bytes[0] == 1 {
            match T::spec_from_bytes(bytes.subrange(1, bytes.len() as int)) {
                None => None,
                Some(Err(e)) => Some(Err(e)),
                Some(Ok(x)) => Some(Ok(Some(x))),
            }
        } else {
            Some(Err(ByteReprError::InvalidValue))
        }
    }

    fn byte_len(&self) -> (n: usize) {
        match self {
            None => 1,
            Some(x) => 1 + x.byte_len(),
        }
    }

    fn checked_byte_len(&self) -> (n: Option<usize>) {
        match self {
            None => Some(1),
            Some(x) => match x.checked_byte_len() {
                Some(l) => l.checked_add(1),
                None => None,
            },
        }
    }

    fn write_to_bytes(&self, bytes: &mut [u8]) -> (r: Result<(), ByteReprError>) {
        if bytes.len() < 1 {
            return Err(ByteReprError::SliceTooShort);
        }
        match self {
            None => {
                bytes[0] = 0;
                assert(bytes@ =~= seq![0u8] + old(bytes)@.subrange(1, old(bytes)@.len() as int));
                Ok(())
            },
            Some(x) => {
                let r = write_item_at(x, bytes, 1);
                if r.is_ok() {
                    bytes[0] = 1;
                    assert(bytes@ =~= seq![1u8] + T::spec_to_bytes(x.deep_view()) + old(
                        bytes,
                    )@.subrange(1 + T::spec_to_bytes(x.deep_view()).len() as int, old(bytes)@.len() as int));
                }
                r
            },
        }
    }

    fn try_from_bytes(bytes: &[u8]) -> (r: Option<Result<Option<T>, ByteReprError>>) {
        if bytes.len() < 1 {
            Some(Err(ByteReprError::SliceTooShort))
        } else if bytes[0] == 0 {
            Some(Ok(None))
        } else if bytes[0] == 1 {
            let rest = vstd::slice::slice_subrange(bytes, 1, bytes.len());
            match T::try_from_bytes(rest) {
                None => None,
                Some(Err(e)) => Some(Err(e)),
                Some(Ok(x)) => Some(Ok(Some(x))),
            }
        } else {
            Some(Err(ByteReprError::InvalidValue))
        }
    }

    proof fn lemma_roundtrip(v: Option<T::V>, rest: Seq<u8>) {
        match v {
            None => {},
            Some(x) => {
                let all = Self::spec_to_bytes(v) + rest;
                assert(all.subrange(1, all.len() as int) =~= T::spec_to_bytes(x) + rest);
                T::lemma_roundtrip(x, rest);
            },
        }
    }

    proof fn lemma_min_len(v: Option<T::V>) {
    }
}

/// What reading values one after the other from `bytes`, starting at `pos`, gives: the values
/// and the position after the last one. Reading goes on while at least `MIN_BYTE_LEN` bytes
/// remain; `None` where it would run past the end of `bytes` or leave the `usize` range.
pub open spec fn spec_read_many<T: ByteRepr>(bytes: Seq<u8>, pos: int) -> Option<
    Result<(Seq<T::V>, int), ByteReprError>,
>
    decreases (if pos <= bytes.len() {
        bytes.len() - pos
    } else {
        0
    }),
{
    if T::MIN_BYTE_LEN == 0 || !(bytes.len() > pos && bytes.len() - pos >= T::MIN_BYTE_LEN) || pos
        < 0 {
        Some(Ok((Seq::empty(), pos)))
    } else {
        match T::spec_from_bytes(bytes.subrange(pos, bytes.len() as int)) {
            None => None,
            Some(Err(e)) => Some(Err(e)),
            Some(Ok(v)) => {
                let next = pos + T::spec_to_bytes(v).len();
                if next > usize::MAX {
                    None
                } else {
                    proof {
                        T::lemma_min_len(v);
                    }
                    match spec_read_many::<T>(bytes, next) {
                        Some(Ok((vs, end))) => Some(Ok((seq![v] + vs, end))),
                        other => other,
                    }
                }
            },
        }
    }
}

/// Reading many values back from the bytes of representable values, written one after the
/// other and followed by fewer trailing bytes than any value takes, gives exactly those values
/// and stops before the trailing bytes.
pub proof fn law_read_many_roundtrip<T: ByteRepr>(
    vs: Seq<T::V>,
    rest: Seq<u8>,
    bytes: Seq<u8>,
    pos: int,
)
    requires
        T::MIN_BYTE_LEN > 0,
        0 <= pos <= bytes.len(),
        bytes.len() <= usize::MAX,
        rest.len() < T::MIN_BYTE_LEN,
        bytes.subrange(pos, bytes.len() as int) == items_to_bytes::<T>(vs) + rest,
        forall|i: int| 0 <= i < vs.len() ==> T::spec_representable(#[trigger] vs[i]),
    ensures
        spec_read_many::<T>(bytes, pos) == Some(
            Ok::<(Seq<T::V>, int), ByteReprError>((vs, bytes.len() - rest.len())),
        ),
    decreases vs.len(),
{
    if vs.len() == 0 {
        assert(items_to_bytes::<T>(vs) == Seq::<u8>::empty());
        assert(bytes.subrange(pos, bytes.len() as int) =~= rest);
        assert(vs =~= Seq::<T::V>::empty());
    } else {
        let v0 = vs[0];
        let tail = vs.skip(1);
        lemma_items_split::<T>(vs, 1);
        assert(vs.take(1).drop_last() =~= Seq::<T::V>::empty());
        assert(vs.take(1).last() == v0);
        assert(items_to_bytes::<T>(Seq::<T::V>::empty()) == Seq::<u8>::empty());
        assert(items_to_bytes::<T>(vs.take(1)) == items_to_bytes::<T>(vs.take(1).drop_last())
            + T::spec_to_bytes(vs.take(1).last()));
        let enc0 = T::spec_to_bytes(v0);
        let after = items_to_bytes::<T>(tail) + rest;
        let from_pos = bytes.subrange(pos, bytes.len() as int);
        assert(vs.skip(1) == tail);
        assert(from_pos =~= enc0 + after);
        T::lemma_roundtrip(v0, after);
        T::lemma_min_len(v0);
        let next = pos + enc0.len();
        assert(from_pos.len() == enc0.len() + after.len());
        assert(next + after.len() == bytes.len());
        assert forall|i: int| 0 <= i < after.len() implies #[trigger] bytes.subrange(
            next,
            bytes.len() as int,
        )[i] == after[i] by {
            assert(from_pos[enc0.len() + i] == after[i]);
            assert(from_pos[enc0.len() + i] == bytes[pos + enc0.len() + i]);
        }
        assert(bytes.subrange(next, bytes.len() as int) =~= after);
        assert forall|i: int| 0 <= i < tail.len() implies T::spec_representable(
            #[trigger] tail[i],
        ) by {
            assert(tail[i] == vs[i + 1]);
        }
        law_read_many_roundtrip::<T>(tail, rest, bytes, next);
        assert(seq![v0] + tail =~= vs);
    }
}

/// Writing and reading many values of one type.
pub trait ByteReprExt: ByteRepr {
    /// Writes the leading values of `values` that fit into `bytes`, one after the other.
    /// Returns `(num_items_written, num_bytes_written)`.
    fn write_many(values: &[Self], bytes: &mut [u8]) -> (r: (usize, usize))
        requires
            forall|i: int|
                0 <= i < values@.len() ==> Self::spec_to_bytes(#[trigger] values@[i].deep_view()).len()
                    <= usize::MAX,
        ensures
            ({
                let vs = values@.map_values(|v: Self| v.deep_view());
                let written = items_to_bytes::<Self>(vs.take(r.0 as int));
                &&& r.0 <= values@.len()
                &&& r.1 == written.len()
                &&& r.0 < values@.len() ==> items_to_bytes::<Self>(vs.take(r.0 + 1)).len() > old(
                    bytes,
                )@.len()
                &&& final(bytes)@ == written + old(bytes)@.subrange(
                    written.len() as int,
                    old(bytes)@.len() as int,
                )
            }),
    {
        let ghost vs = values@.map_values(|v: Self| v.deep_view());
        let mut ptr: usize = 0;
        let mut i: usize = 0;
        while i < values.len()
            invariant
                vs == values@.map_values(|v: Self| v.deep_view()),
                forall|j: int|
                    0 <= j < values@.len() ==> Self::spec_to_bytes(
                        #[trigger] values@[j].deep_view(),
                    ).len() <= usize::MAX,
                i <= values@.len(),
                ptr == items_to_bytes::<Self>(vs.take(i as int)).len(),
                ptr <= bytes@.len(),
                bytes@.len() == old(bytes)@.len(),
                bytes@ == items_to_bytes::<Self>(vs.take(i as int)) + old(bytes)@.subrange(
                    ptr as int,
                    old(bytes)@.len() as int,
                ),
            decreases values@.len() - i,
        {
            let v = &values[i];
            proof {
                lemma_items_split::<Self>(vs.take(i + 1), i as int);
                assert(vs.take(i + 1).take(i as int) =~= vs.take(i as int));
                assert(vs.take(i + 1).skip(i as int) =~= seq![vs[i as int]]);
                assert(items_to_bytes::<Self>(seq![vs[i as int]]) =~= Self::spec_to_bytes(
                    vs[i as int],
                )) by {
                    let one = seq![vs[i as int]];
                    assert(one.drop_last() =~= Seq::<Self::V>::empty());
                    assert(one.last() == vs[i as int]);
                    assert(items_to_bytes::<Self>(Seq::<Self::V>::empty()) == Seq::<u8>::empty());
                    assert(items_to_bytes::<Self>(one) == items_to_bytes::<Self>(one.drop_last())
                        + Self::spec_to_bytes(one.last()));
                }
            }
            let len = v.byte_len();
            if bytes.len() - ptr < len {
                return (i, ptr);
            }
            match write_item_at(v, bytes, ptr) {
                Ok(()) => {},
                Err(_) => {
                    return (i, ptr);
                },
            }
            proof {
                assert(bytes@ =~= items_to_bytes::<Self>(vs.take(i + 1)) + old(bytes)@.subrange(
                    ptr + len,
                    old(bytes)@.len() as int,
                ));
            }
            ptr = ptr + len;
            i = i + 1;
        }
        (i, ptr)
    }

    /// Reads values one after the other while at least `MIN_BYTE_LEN` bytes remain.
    /// Returns `(values, bytes_read)` on success.
    fn read_many(bytes: &[u8]) -> (r: Result<(Vec<Self>, usize), ByteReprError>)
        requires
            Self::MIN_BYTE_LEN > 0,
            spec_read_many::<Self>(bytes@, 0) is Some,
        ensures
            match (r, spec_read_many::<Self>(bytes@, 0)) {
                (Ok((vs, n)), Some(Ok((svs, sn)))) => vs.deep_view() == svs && n == sn,
                (Err(e), Some(Err(se))) => e == se,
                _ => false,
            },
    {
        let mut ptr: usize = 0;
        let mut out: Vec<Self> = Vec::new();
        while bytes.len() > ptr && bytes.len() - ptr >= Self::MIN_BYTE_LEN
            invariant
                Self::MIN_BYTE_LEN > 0,
                ptr <= usize::MAX,
                spec_read_many::<Self>(bytes@, 0) == match spec_read_many::<Self>(
                    bytes@,
                    ptr as int,
                ) {
                    Some(Ok((vs, end))) => Some(Ok((out.deep_view() + vs, end))),
                    other => other,
                },
                spec_read_many::<Self>(bytes@, 0) is Some,
            decreases (if ptr <= bytes@.len() {
                bytes@.len() - ptr
            } else {
                0
            }),
        {
            let rest = vstd::slice::slice_subrange(bytes, ptr, bytes.len());
            let v = match Self::try_from_bytes(rest) {
                Some(Ok(v)) => v,
                Some(Err(e)) => {
                    return Err(e);
                },
                None => {
                    assert(false);
                    return Err(ByteReprError::SliceTooShort);
                },
            };
            proof {
                Self::lemma_min_len(v.deep_view());
            }
            let len = match v.checked_byte_len() {
                Some(l) => l,
                None => {
                    assert(false);
                    return Err(ByteReprError::SliceTooShort);
                },
            };
            ptr = match ptr.checked_add(len) {
                Some(p) => p,
                None => {
                    assert(false);
                    return Err(ByteReprError::SliceTooShort);
                },
            };
            let ghost old_dv = out.deep_view();
            out.push(v);
            proof {
                assert(out.deep_view() =~= old_dv.push(v.deep_view()));
                match spec_read_many::<Self>(bytes@, ptr as int) {
                    Some(Ok((vs, end))) => {
                        assert(old_dv + (seq![v.deep_view()] + vs) =~= out.deep_view() + vs);
                    },
                    _ => {},
                }
            }
        }
        proof {
            assert(out.deep_view() + Seq::<Self::V>::empty() =~= out.deep_view());
        }
        Ok((out, ptr))
    }
}

impl<T: ByteRepr> ByteReprExt for T {
}

} // verus!
