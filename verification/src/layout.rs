//! The byte layout that a derived byte representation follows.
//!
//! A struct is its fields, one after the other: its least and greatest lengths are the sums of
//! those of its fields. An enum is a tag that numbers its variants, followed by the fields of
//! the variant: its least length is the tag's plus the least of its variants', its greatest
//! length the tag's plus the greatest of its variants'. The tag takes as many bytes as the
//! number of bits needed for the highest variant number, rounded up to whole bytes; an enum of
//! one variant has no tag.
use vstd::prelude::*;
use vstd::arithmetic::power2::pow2;

verus! {

/// The integer type that the tag of an enum is read and written as.
#[derive(Debug, Clone, Copy, PartialEq, Eq, Structural)]
pub enum DataAccessType {
    U8,
    U16,
    U32,
}

impl DataAccessType {
    /// The name of the integer type.
    pub fn as_str(&self) -> (r: &'static str)
        ensures
            r@ == match self {
                DataAccessType::U8 => "u8"@,
                DataAccessType::U16 => "u16"@,
                DataAccessType::U32 => "u32"@,
            },
    {
        match self {
            DataAccessType::U8 => "u8",
            DataAccessType::U16 => "u16",
            DataAccessType::U32 => "u32",
        }
    }
}

/// The integer type for the tag of an enum of `num_variants` variants; `None` for an enum
/// without variants or with more than `2^32`.
pub fn data_access_type(num_variants: u64) -> (r: Option<DataAccessType>)
    ensures
        r == (if num_variants == 0 {
            None
        } else if num_variants <= 0x100 {
            Some(DataAccessType::U8)
        } else if num_variants <= 0x1_0000 {
            Some(DataAccessType::U16)
        } else if num_variants <= 0x1_0000_0000 {
            Some(DataAccessType::U32)
        } else {
            None
        }),
{
    if num_variants == 0 {
        None
    } else if num_variants <= 0x100 {
        Some(DataAccessType::U8)
    } else if num_variants <= 0x1_0000 {
        Some(DataAccessType::U16)
    } else if num_variants <= 0x1_0000_0000 {
        Some(DataAccessType::U32)
    } else {
        None
    }
}

/// The number of bits needed to write `n`.
pub open spec fn bit_width(n: nat) -> nat
    decreases n,
{
    if n == 0 {
        0
    } else {
        1 + bit_width(n / 2)
    }
}

/// The number of bytes of the tag of an enum of `num_variants` variants: the bits needed for
/// the highest variant number, `num_variants - 1`, rounded up to whole bytes.
pub open spec fn spec_tag_len(num_variants: nat) -> nat {
    if num_variants <= 1 {
        0
    } else {
        (bit_width((num_variants - 1) as nat) + 7) / 8
    }
}

/// The number of bytes of the tag of an enum of `num_variants` variants.
pub fn variant_tag_len(num_variants: u64) -> (r: u64)
    ensures
        r == spec_tag_len(num_variants as nat),
{
    if num_variants <= 1 {
        return 0;
    }
    let mut x: u64 = num_variants - 1;
    let mut bits: u64 = 0;
    proof {
        vstd::arithmetic::power2::lemma2_to64();
    }
    while x > 0
        invariant
            bits + bit_width(x as nat) == bit_width((num_variants - 1) as nat),
            bits <= 64,
            x < pow2((64 - bits) as nat),
        decreases x,
    {
        proof {
            if bits == 64 {
                vstd::arithmetic::power2::lemma2_to64();
            }
            vstd::arithmetic::power2::lemma_pow2_unfold((64 - bits) as nat);
        }
        x = x / 2;
        bits = bits + 1;
    }
    (bits + 7) / 8
}

/// The sum of `lens`.
pub open spec fn sum_of(lens: Seq<usize>) -> nat
    decreases lens.len(),
{
    if lens.len() == 0 {
        0
    } else {
        sum_of(lens.drop_last()) + lens.last() as nat
    }
}

/// The length of a struct whose fields take `lens` bytes: their sum, or `None` if that does
/// not fit a `usize`.
pub fn fields_len(lens: &[usize]) -> (r: Option<usize>)
    ensures
        r == (if sum_of(lens@) <= usize::MAX {
            Some(sum_of(lens@) as usize)
        } else {
            None
        }),
{
    let mut total: usize = 0;
    let mut i: usize = 0;
    while i < lens.len()
        invariant
            i <= lens@.len(),
            total == sum_of(lens@.take(i as int)),
        decreases lens@.len() - i,
    {
        assert(lens@.take(i + 1).drop_last() =~= lens@.take(i as int));
        match total.checked_add(lens[i]) {
            Some(t) => {
                total = t;
            },
            None => {
                proof {
                    lemma_sum_prefix(lens@, (i + 1) as int);
                }
                return None;
            },
        }
        i = i + 1;
    }
    assert(lens@.take(i as int) =~= lens@);
    Some(total)
}

/// A prefix never sums to more than the whole.
proof fn lemma_sum_prefix(lens: Seq<usize>, i: int)
    requires
        0 <= i <= lens.len(),
    ensures
        sum_of(lens.take(i)) <= sum_of(lens),
    decreases lens.len() - i,
{
    if i < lens.len() {
        lemma_sum_prefix(lens, i + 1);
        assert(lens.take(i + 1).drop_last() =~= lens.take(i));
    } else {
        assert(lens.take(i) =~= lens);
    }
}

/// Whether `x` is the least of the non-empty `lens`.
pub open spec fn is_min_of(x: usize, lens: Seq<usize>) -> bool {
    &&& lens.contains(x)
    &&& forall|i: int| 0 <= i < lens.len() ==> x <= #[trigger] lens[i]
}

/// Whether `x` is the greatest of the non-empty `lens`.
pub open spec fn is_max_of(x: usize, lens: Seq<usize>) -> bool {
    &&& lens.contains(x)
    &&& forall|i: int| 0 <= i < lens.len() ==> #[trigger] lens[i] <= x
}

/// The least of the lengths of the variants of an enum, `None` if there is none.
pub fn variants_min(lens: &[usize]) -> (r: Option<usize>)
    ensures
        lens@.len() == 0 <==> r is None,
        r matches Some(x) ==> is_min_of(x, lens@),
{
    if lens.len() == 0 {
        return None;
    }
    let mut m: usize = lens[0];
    let mut i: usize = 1;
    assert(lens@.take(1)[0] == m);
    while i < lens.len()
        invariant
            1 <= i <= lens@.len(),
            lens@.take(i as int).contains(m),
            forall|j: int| 0 <= j < i ==> m <= #[trigger] lens@[j],
        decreases lens@.len() - i,
    {
        if lens[i] < m {
            m = lens[i];
            assert(lens@.take(i + 1)[i as int] == m);
        } else {
            proof {
                let k = choose|k: int| 0 <= k < i && lens@.take(i as int)[k] == m;
                assert(lens@.take(i + 1)[k] == m);
            }
        }
        i = i + 1;
    }
    assert(lens@.take(i as int) =~= lens@);
    Some(m)
}

/// The greatest of the lengths of the variants of an enum, `None` if there is none.
pub fn variants_max(lens: &[usize]) -> (r: Option<usize>)
    ensures
        lens@.len() == 0 <==> r is None,
        r matches Some(x) ==> is_max_of(x, lens@),
{
    if lens.len() == 0 {
        return None;
    }
    let mut m: usize = lens[0];
    let mut i: usize = 1;
    assert(lens@.take(1)[0] == m);
    while i < lens.len()
        invariant
            1 <= i <= lens@.len(),
            lens@.take(i as int).contains(m),
            forall|j: int| 0 <= j < i ==> #[trigger] lens@[j] <= m,
        decreases lens@.len() - i,
    {
        if lens[i] > m {
            m = lens[i];
            assert(lens@.take(i + 1)[i as int] == m);
        } else {
            proof {
                let k = choose|k: int| 0 <= k < i && lens@.take(i as int)[k] == m;
                assert(lens@.take(i + 1)[k] == m);
            }
        }
        i = i + 1;
    }
    assert(lens@.take(i as int) =~= lens@);
    Some(m)
}

} // verus!
