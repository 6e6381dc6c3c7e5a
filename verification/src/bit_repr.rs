//! Byte representations described by the values themselves: a type says which bytes stand
//! for each of its values and what reading bytes gives, and values of it can then be written
//! and read many at a time.
use vstd::prelude::*;

verus! {

/// A type of fixed length.
pub trait StaticBitRepr {
    /// The number of bytes every value takes.
    const BIT_LEN: usize;
}

/// Why a value could not be written to or read from bytes.
#[derive(Debug, Clone, Copy, PartialEq, Eq, Structural)]
pub enum BitReprError {
    /// The provided byte slice is too short.
    SliceTooShort,
    /// Encountered an unexpected value.
    InvalidValue,
}

impl BitReprError {
    /// The error's message.
    pub fn message(&self) -> (r: &'static str)
        ensures
            r@ == match self {
                BitReprError::SliceTooShort => "The provided byte slice is too short"@,
                BitReprError::InvalidValue => "Encountered an unexpected value"@,
            },
    {
        match self {
            BitReprError::SliceTooShort => "The provided byte slice is too short",
            BitReprError::InvalidValue => "Encountered an unexpected value",
        }
    }
}

/// A type whose values can be written to and read from bytes.
pub trait BitRepr: Sized {
    /// The least number of bytes a value takes.
    const MIN_BIT_LEN: usize;
    /// The most bytes a value takes.
    const MAX_BIT_LEN: usize;

    /// The bytes that stand for `self`.
    spec fn spec_bits(&self) -> Seq<u8>;

    /// What reading a value from the front of `bytes` gives.
    spec fn spec_read_bits(bytes: Seq<u8>) -> Result<Self, BitReprError>;

    /// The number of bytes `self` takes.
    fn bit_len(&self) -> (n: usize)
        ensures
            n == self.spec_bits().len(),
    ;

    /// Write `self` to the front of `bytes`. The number of bytes written on success is equal
    /// to `self.bit_len()`; it fails where `bytes` is shorter than that.
    fn write_to_bytes(&self, bytes: &mut [u8]) -> (r: Result<(), BitReprError>)
        ensures
            final(bytes)@.len() == old(bytes)@.len(),
            r is Ok <==> self.spec_bits().len() <= old(bytes)@.len(),
            r is Ok ==> final(bytes)@ == self.spec_bits() + old(bytes)@.skip(
                self.spec_bits().len() as int,
            ),
    ;

    /// Read a value from the front of `bytes`.
    fn from_bytes(bytes: &[u8]) -> (r: Result<Self, BitReprError>)
        ensures
            r == Self::spec_read_bits(bytes@),
    ;
}

impl BitRepr for u8 {
    const MIN_BIT_LEN: usize = 1;
    const MAX_BIT_LEN: usize = 1;

    open spec fn spec_bits(&self) -> Seq<u8> {
        seq![*self]
    }

    open spec fn spec_read_bits(bytes: Seq<u8>) -> Result<u8, BitReprError> {
        if bytes.len() < 1 {
            Err(BitReprError::SliceTooShort)
        } else {
            Ok(bytes[0])
        }
    }

    fn bit_len(&self) -> (n: usize) {
        1
    }

    fn write_to_bytes(&self, bytes: &mut [u8]) -> (r: Result<(), BitReprError>) {
        let src = [*self];
        match crate::byte_repr::write_prefix(bytes, &src) {
            Ok(()) => {
                assert(src@ =~= self.spec_bits());
                Ok(())
            },
            Err(_) => Err(BitReprError::SliceTooShort),
        }
    }

    fn from_bytes(bytes: &[u8]) -> (r: Result<u8, BitReprError>) {
        if bytes.len() < 1 {
            Err(BitReprError::SliceTooShort)
        } else {
            Ok(bytes[0])
        }
    }
}

impl StaticBitRepr for u8 {
    const BIT_LEN: usize = 1;
}

/// The bytes of the values `vs`, one after the other.
pub open spec fn bits_of<T: BitRepr>(vs: Seq<T>) -> Seq<u8>
    decreases vs.len(),
{
    if vs.len() == 0 {
        Seq::empty()
    } else {
        bits_of(vs.drop_last()) + vs.last().spec_bits()
    }
}

/// What reading values one after the other from position `pos` of `bytes` on gives: the
/// values and the position after the last. Reading stops at the end of `bytes` and at the
/// first position where no value can be read; a value that claims more bytes than are left
/// ends the reading past the end.
pub open spec fn spec_read_bits_many<T: BitRepr>(bytes: Seq<u8>, pos: int) -> (Seq<T>, int)
    decreases bytes.len() - pos,
{
    if pos < 0 || pos >= bytes.len() {
        (Seq::empty(), pos)
    } else {
        match T::spec_read_bits(bytes.skip(pos)) {
            Err(_) => (Seq::empty(), pos),
            Ok(v) => {
                let next = pos + v.spec_bits().len();
                if next <= pos || next > bytes.len() {
                    (seq![v], next)
                } else {
                    let rest = spec_read_bits_many::<T>(bytes, next);
                    (seq![v] + rest.0, rest.1)
                }
            },
        }
    }
}

/// Whether every value that reading from a position of `bytes` gives takes at least one byte,
/// and the position after it fits a `usize`: reading values one after the other then moves on
/// at every step.
pub open spec fn reads_advance<T: BitRepr>(bytes: Seq<u8>) -> bool {
    forall|i: int|
        0 <= i < bytes.len() ==> (#[trigger] T::spec_read_bits(bytes.skip(i)) matches Ok(v) ==> 1
            <= v.spec_bits().len() && i + v.spec_bits().len() <= usize::MAX)
}

/// Write `item` to `bytes` starting at `pos`, where it fits.
fn write_bits_at<T: BitRepr>(item: &T, bytes: &mut [u8], pos: usize)
    requires
        pos + item.spec_bits().len() <= old(bytes)@.len(),
    ensures
        final(bytes)@ == old(bytes)@.take(pos as int) + item.spec_bits() + old(bytes)@.skip(
            pos + item.spec_bits().len(),
        ),
{
    let (left, right) = bytes.split_at_mut(pos);
    let r = item.write_to_bytes(right);
    proof {
        assert(has_resolved(left));
    }
    assert(r is Ok);
}

/// Writing and reading many values of one type.
pub trait BitReprExt: BitRepr {
    /// Writes the leading values of `values` that fit into `bytes`, one after the other.
    /// Returns the number of values written and the number of bytes they take together.
    fn write_many(values: &[Self], bytes: &mut [u8]) -> (r: (usize, usize))
        ensures
            r.0 <= values@.len(),
            r.1 == bits_of(values@.take(r.0 as int)).len(),
            final(bytes)@ == bits_of(values@.take(r.0 as int)) + old(bytes)@.skip(r.1 as int),
            r.0 < values@.len() ==> bits_of(values@.take(r.0 + 1)).len() > old(bytes)@.len(),
    {
        let mut ptr: usize = 0;
        let mut i: usize = 0;
        assert(values@.take(0) =~= Seq::<Self>::empty());
        assert(old(bytes)@.skip(0) =~= old(bytes)@);
        while i < values.len()
            invariant
                i <= values@.len(),
                ptr == bits_of(values@.take(i as int)).len(),
                ptr <= bytes@.len(),
                bytes@.len() == old(bytes)@.len(),
                bytes@ == bits_of(values@.take(i as int)) + old(bytes)@.skip(ptr as int),
            decreases values@.len() - i,
        {
            let v = &values[i];
            let len = v.bit_len();
            proof {
                assert(values@.take(i + 1).drop_last() =~= values@.take(i as int));
                assert(values@.take(i + 1).last() == values@[i as int]);
            }
            if bytes.len() - ptr < len {
                return (i, ptr);
            }
            write_bits_at(v, bytes, ptr);
            proof {
                assert(bytes@ =~= bits_of(values@.take(i + 1)) + old(bytes)@.skip(ptr + len));
            }
            ptr = ptr + len;
            i = i + 1;
        }
        (i, ptr)
    }

    /// Reads values one after the other until the end of `bytes` or the first position where
    /// no value can be read. Returns the values and the number of bytes read.
    fn read_many(bytes: &[u8]) -> (r: (Vec<Self>, usize))
        requires
            reads_advance::<Self>(bytes@),
        ensures
            r.0@ == spec_read_bits_many::<Self>(bytes@, 0).0,
            r.1 == spec_read_bits_many::<Self>(bytes@, 0).1,
    {
        let mut ptr: usize = 0;
        let mut out: Vec<Self> = Vec::new();
        assert(out@ + spec_read_bits_many::<Self>(bytes@, 0).0 =~= spec_read_bits_many::<Self>(
            bytes@,
            0,
        ).0);
        while bytes.len() > ptr
            invariant
                reads_advance::<Self>(bytes@),
                spec_read_bits_many::<Self>(bytes@, 0).0 == out@ + spec_read_bits_many::<Self>(
                    bytes@,
                    ptr as int,
                ).0,
                spec_read_bits_many::<Self>(bytes@, 0).1 == spec_read_bits_many::<Self>(
                    bytes@,
                    ptr as int,
                ).1,
            decreases (if ptr <= bytes@.len() {
                bytes@.len() - ptr
            } else {
                0
            }),
        {
            let rest = vstd::slice::slice_subrange(bytes, ptr, bytes.len());
            assert(rest@ =~= bytes@.skip(ptr as int));
            match Self::from_bytes(rest) {
                Ok(v) => {
                    assert(Self::spec_read_bits(bytes@.skip(ptr as int)) is Ok);
                    let len = v.bit_len();
                    let ghost old_out = out@;
                    let ghost pos = ptr as int;
                    ptr = ptr + len;
                    out.push(v);
                    proof {
                        if ptr as int <= bytes@.len() {
                            let tail = spec_read_bits_many::<Self>(bytes@, ptr as int);
                            assert(old_out + (seq![v] + tail.0) =~= out@ + tail.0);
                        } else {
                            assert(old_out + seq![v] =~= out@ + Seq::<Self>::empty());
                        }
                    }
                },
                Err(_) => {
                    proof {
                        assert(out@ + Seq::<Self>::empty() =~= out@);
                    }
                    return (out, ptr);
                },
            }
        }
        proof {
            assert(out@ + Seq::<Self>::empty() =~= out@);
        }
        (out, ptr)
    }
}

impl<T: BitRepr> BitReprExt for T {
}

} // verus!
