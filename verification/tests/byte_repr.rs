use mini_udp::byte_repr::ByteReprExt;
use mini_udp::layout::{fields_len, variant_tag_len, variants_max, variants_min};
use mini_udp::{ByteRepr, ByteReprError, StaticByteRepr};
use std::borrow::Cow;
use std::fmt::Debug;

/// Write `value` into a buffer of `T::MAX_BYTE_LEN` bytes and read it back.
fn roundtrip<T: ByteRepr + PartialEq + Debug>(value: T) {
    let mut buf = vec![0u8; T::MAX_BYTE_LEN];
    assert!(value.write_to_bytes(&mut buf).is_ok());
    assert_eq!(T::from_bytes(&buf).unwrap(), value);
}

/// Writes the fields of a composite value one after the other, as a derived representation
/// lays them out.
struct Writer {
    buf: Vec<u8>,
    pos: usize,
}

impl Writer {
    fn new(len: usize) -> Self {
        Writer { buf: vec![0u8; len], pos: 0 }
    }

    fn put<T: ByteRepr>(&mut self, value: &T) -> &mut Self {
        assert!(value.write_to_bytes(&mut self.buf[self.pos..]).is_ok());
        self.pos += value.byte_len();
        self
    }
}

/// Reads the fields of a composite value one after the other.
struct Reader<'a> {
    buf: &'a [u8],
    pos: usize,
}

impl<'a> Reader<'a> {
    fn new(buf: &'a [u8]) -> Self {
        Reader { buf, pos: 0 }
    }

    fn get<T: ByteRepr>(&mut self) -> T {
        let v = T::from_bytes(&self.buf[self.pos..]).unwrap();
        self.pos += v.byte_len();
        v
    }
}

/// The length of a struct or variant whose fields take `lens` bytes.
fn len_of(lens: &[usize]) -> usize {
    fields_len(lens).unwrap()
}

/// The tag length of an enum of `n` variants.
fn tag(n: u64) -> usize {
    variant_tag_len(n) as usize
}

const F32_LEN: usize = 4;

#[test]
fn min_max_length_derive() {
    // Structs without fields take no bytes.
    assert_eq!(len_of(&[]), 0);
    // An enum of one variant without fields takes no bytes either.
    assert_eq!(tag(1) + variants_min(&[0]).unwrap(), 0);
    assert_eq!(tag(1) + variants_max(&[0]).unwrap(), 0);

    // struct BA { n: u8 } and struct BB(u8)
    assert_eq!(len_of(&[u8::MIN_BYTE_LEN]), 1);
    assert_eq!(len_of(&[u8::MAX_BYTE_LEN]), 1);
    for n in [0u8, 1, 42, 127, 128, 255] {
        assert_eq!(len_of(&[n.byte_len()]), 1);
    }

    // enum BC { A(u8) }
    assert_eq!(tag(1) + variants_min(&[u8::MIN_BYTE_LEN]).unwrap(), 1);
    assert_eq!(tag(1) + variants_max(&[u8::MAX_BYTE_LEN]).unwrap(), 1);
    for n in [0u8, 1, 17, 99, 255] {
        assert_eq!(tag(1) + n.byte_len(), 1);
    }

    // struct CA { named: f32, unnamed: bool, b: u128 }
    let ca_min = len_of(&[F32_LEN, bool::MIN_BYTE_LEN, u128::MIN_BYTE_LEN]);
    let ca_max = len_of(&[F32_LEN, bool::MAX_BYTE_LEN, u128::MAX_BYTE_LEN]);
    assert_eq!(ca_min, 21);
    assert_eq!(ca_max, 21);
    for (unnamed, b) in [(false, 0u128), (true, 1), (false, 42), (true, 123456), (false, u128::MAX)] {
        assert_eq!(len_of(&[F32_LEN, unnamed.byte_len(), b.byte_len()]), 21);
    }

    // struct CB(i64, i8)
    let cb = len_of(&[i64::MIN_BYTE_LEN, i8::MIN_BYTE_LEN]);
    assert_eq!(cb, 9);
    assert_eq!(len_of(&[i64::MAX_BYTE_LEN, i8::MAX_BYTE_LEN]), 9);
    for (a, b) in [(0i64, 0i8), (1, 1), (-1, -1), (i64::MIN, i8::MIN), (i64::MAX, i8::MAX)] {
        assert_eq!(len_of(&[a.byte_len(), b.byte_len()]), 9);
    }

    // enum CC { A { x: u32 }, B(bool, u16), C(i128) }
    let cc_variants = [4usize, len_of(&[1, 2]), 16];
    let cc_min = tag(3) + variants_min(&cc_variants).unwrap();
    let cc_max = tag(3) + variants_max(&cc_variants).unwrap();
    assert_eq!(cc_min, 4);
    assert_eq!(cc_max, 17);
    assert_eq!(tag(3) + 0u32.byte_len(), 5);
    assert_eq!(tag(3) + u32::MAX.byte_len(), 5);
    assert_eq!(tag(3) + len_of(&[false.byte_len(), 0u16.byte_len()]), 4);
    assert_eq!(tag(3) + len_of(&[true.byte_len(), u16::MAX.byte_len()]), 4);
    assert_eq!(tag(3) + i128::MIN.byte_len(), 17);

    // struct DA(CC)
    assert_eq!(len_of(&[cc_min]), 4);
    assert_eq!(len_of(&[cc_max]), 17);
    assert_eq!(tag(3) + 7u32.byte_len(), 5);
    assert_eq!(tag(3) + len_of(&[false.byte_len(), 99u16.byte_len()]), 4);
    assert_eq!(tag(3) + len_of(&[true.byte_len(), 1234u16.byte_len()]), 4);
    assert_eq!(tag(3) + 0i128.byte_len(), 17);
    assert_eq!(tag(3) + i128::MAX.byte_len(), 17);

    // struct DB { a: bool, b: i32, c: DA }
    let db_min = len_of(&[1, 4, cc_min]);
    let db_max = len_of(&[1, 4, cc_max]);
    assert_eq!(db_min, 9);
    assert_eq!(db_max, 22);
    assert_eq!(len_of(&[false.byte_len(), 0i32.byte_len(), tag(3) + 0u32.byte_len()]), 10);
    assert_eq!(len_of(&[true.byte_len(), 1i32.byte_len(), tag(3) + 1u32.byte_len()]), 10);
    assert_eq!(
        len_of(&[false.byte_len(), (-1i32).byte_len(), tag(3) + len_of(&[1, 2])]),
        9
    );
    assert_eq!(len_of(&[true.byte_len(), i32::MIN.byte_len(), tag(3) + 5i128.byte_len()]), 22);
    assert_eq!(
        len_of(&[false.byte_len(), i32::MAX.byte_len(), tag(3) + i128::MAX.byte_len()]),
        22
    );

    // enum DC { A, B(u16), C { nested: CB } }
    let dc_variants = [0usize, 2, cb];
    assert_eq!(tag(3) + variants_min(&dc_variants).unwrap(), 1);
    assert_eq!(tag(3) + variants_max(&dc_variants).unwrap(), 10);
    assert_eq!(tag(3), 1);
    assert_eq!(tag(3) + 0u16.byte_len(), 3);
    assert_eq!(tag(3) + u16::MAX.byte_len(), 3);
    assert_eq!(tag(3) + len_of(&[0i64.byte_len(), 0i8.byte_len()]), 10);
    assert_eq!(tag(3) + len_of(&[i64::MIN.byte_len(), i8::MAX.byte_len()]), 10);

    // enum DD { B(u64, bool, u8), C { nested: CB }, BC(BC, i8) }
    let dd_variants = [len_of(&[8, 1, 1]), cb, len_of(&[1, 1])];
    assert_eq!(tag(3) + variants_min(&dd_variants).unwrap(), 3);
    assert_eq!(tag(3) + variants_max(&dd_variants).unwrap(), 11);
    assert_eq!(tag(3) + len_of(&[0u64.byte_len(), false.byte_len(), 0u8.byte_len()]), 11);
    assert_eq!(
        tag(3) + len_of(&[u64::MAX.byte_len(), true.byte_len(), u8::MAX.byte_len()]),
        11
    );
    assert_eq!(tag(3) + len_of(&[123i64.byte_len(), (-5i8).byte_len()]), 10);
    assert_eq!(tag(3) + len_of(&[tag(1) + 0u8.byte_len(), 0i8.byte_len()]), 3);
    assert_eq!(tag(3) + len_of(&[tag(1) + 255u8.byte_len(), i8::MIN.byte_len()]), 3);

    // enum DE { X(bool, BA, u16), Y { fixed: DB, x: u8 }, Z(bool, i8) }
    let de_min_variants = [len_of(&[1, 1, 2]), len_of(&[db_min, 1]), len_of(&[1, 1])];
    let de_max_variants = [len_of(&[1, 1, 2]), len_of(&[db_max, 1]), len_of(&[1, 1])];
    assert_eq!(tag(3) + variants_min(&de_min_variants).unwrap(), 3);
    assert_eq!(tag(3) + variants_max(&de_max_variants).unwrap(), 24);
    assert_eq!(tag(3) + len_of(&[false.byte_len(), 0u8.byte_len(), 0u16.byte_len()]), 5);
    assert_eq!(
        tag(3) + len_of(&[true.byte_len(), 255u8.byte_len(), u16::MAX.byte_len()]),
        5
    );
    let db_a = len_of(&[false.byte_len(), 0i32.byte_len(), tag(3) + 0u32.byte_len()]);
    assert_eq!(tag(3) + len_of(&[db_a, 0u8.byte_len()]), 12);
    let db_c = len_of(&[true.byte_len(), i32::MAX.byte_len(), tag(3) + i128::MAX.byte_len()]);
    assert_eq!(tag(3) + len_of(&[db_c, 255u8.byte_len()]), 24);
    assert_eq!(tag(3) + len_of(&[true.byte_len(), (-48i8).byte_len()]), 3);

    // enum DF { X(bool, BA, u16), Y { fixed: DB, x: u8 }, Z(CA, i16, BA) }
    let df_min_variants = [len_of(&[1, 1, 2]), len_of(&[db_min, 1]), len_of(&[ca_min, 2, 1])];
    let df_max_variants = [len_of(&[1, 1, 2]), len_of(&[db_max, 1]), len_of(&[ca_max, 2, 1])];
    assert_eq!(tag(3) + variants_min(&df_min_variants).unwrap(), 5);
    assert_eq!(tag(3) + variants_max(&df_max_variants).unwrap(), 25);
    assert_eq!(tag(3) + len_of(&[false.byte_len(), 0u8.byte_len(), 0u16.byte_len()]), 5);
    assert_eq!(tag(3) + len_of(&[true.byte_len(), 1u8.byte_len(), u16::MAX.byte_len()]), 5);
    let db_b = len_of(&[false.byte_len(), 17i32.byte_len(), tag(3) + len_of(&[1, 2])]);
    assert_eq!(tag(3) + len_of(&[db_b, 9u8.byte_len()]), 11);
    let db_min_c = len_of(&[true.byte_len(), i32::MIN.byte_len(), tag(3) + i128::MIN.byte_len()]);
    assert_eq!(tag(3) + len_of(&[db_min_c, 255u8.byte_len()]), 24);
    let ca = len_of(&[F32_LEN, true.byte_len(), 123456789u128.byte_len()]);
    assert_eq!(tag(3) + len_of(&[ca, (-12345i16).byte_len(), 77u8.byte_len()]), 25);
}

#[test]
fn struct_roundtrip() {
    // struct D { byte: i8 }
    for byte in [0i8, -128, -1, 127] {
        roundtrip(byte);
    }
    // struct E(u8)
    roundtrip(249u8);
    // struct F { first: u16, second: isize, third: u8 }
    let mut w = Writer::new(u16::MAX_BYTE_LEN + isize::MAX_BYTE_LEN + u8::MAX_BYTE_LEN);
    w.put(&61008u16).put(&-90_502isize).put(&119u8);
    let mut r = Reader::new(&w.buf);
    assert_eq!(r.get::<u16>(), 61008);
    assert_eq!(r.get::<isize>(), -90_502);
    assert_eq!(r.get::<u8>(), 119);
    // struct G(u8, i128)
    let mut w = Writer::new(u8::MAX_BYTE_LEN + i128::MAX_BYTE_LEN);
    w.put(&2u8).put(&1i128);
    let mut r = Reader::new(&w.buf);
    assert_eq!(r.get::<u8>(), 2);
    assert_eq!(r.get::<i128>(), 1);
    // Structs without fields write and read nothing.
    roundtrip(());
}

#[test]
fn enum_roundtrip() {
    // enum C { B(u8), C { byte0: u8, byte1: u64, float: f32 }, D, E(f64, u8, f32, f64) }:
    // a one-byte tag, then the fields of the variant.
    let mut w = Writer::new(1 + u8::MAX_BYTE_LEN);
    w.put(&0u8).put(&129u8);
    let mut r = Reader::new(&w.buf);
    assert_eq!(r.get::<u8>(), 0);
    assert_eq!(r.get::<u8>(), 129);

    let mut w = Writer::new(1 + 1 + 8 + F32_LEN);
    w.put(&1u8).put(&0u8).put(&255u64).put(&1_031.42f32.to_bits());
    let mut r = Reader::new(&w.buf);
    assert_eq!(r.get::<u8>(), 1);
    assert_eq!(r.get::<u8>(), 0);
    assert_eq!(r.get::<u64>(), 255);
    assert_eq!(f32::from_bits(r.get::<u32>()), 1_031.42);

    let mut w = Writer::new(1 + 8 + 1 + 4 + 8);
    w.put(&3u8)
        .put(&f64::MAX.to_bits())
        .put(&4u8)
        .put(&(-193042.04f32).to_bits())
        .put(&f64::MIN.to_bits());
    let mut r = Reader::new(&w.buf);
    assert_eq!(r.get::<u8>(), 3);
    assert_eq!(f64::from_bits(r.get::<u64>()), f64::MAX);
    assert_eq!(r.get::<u8>(), 4);
    assert_eq!(f32::from_bits(r.get::<u32>()), -193042.04);
    assert_eq!(f64::from_bits(r.get::<u64>()), f64::MIN);

    // enum B { A, B, C }: the variant B is tag 1 with no fields.
    roundtrip(1u8);
    assert_eq!(tag(3), 1);
    // enum A { B }: no tag at all.
    assert_eq!(tag(1), 0);
}

#[test]
fn delegated() {
    // struct A { x: f64, y: B } with struct B(u128)
    let mut w = Writer::new(8 + u128::MAX_BYTE_LEN);
    w.put(&(-2_409_406.335_3f64).to_bits()).put(&3908221u128);
    let mut r = Reader::new(&w.buf);
    assert_eq!(f64::from_bits(r.get::<u64>()), -2_409_406.335_3);
    assert_eq!(r.get::<u128>(), 3908221);
}

#[test]
fn vector() {
    roundtrip(vec![183u8, 1, 99, 254]);
    roundtrip(vec![true, false, false, false, true, false]);
    let floats = vec![f32::MAX as f64, f64::MIN, -0.005, 01208402.2432];
    let bits: Vec<u64> = floats.iter().map(|f| f.to_bits()).collect();
    let mut buf = vec![0u8; Vec::<u64>::MAX_BYTE_LEN];
    assert!(bits.write_to_bytes(&mut buf).is_ok());
    let back: Vec<f64> = Vec::<u64>::from_bytes(&buf).unwrap().into_iter().map(f64::from_bits).collect();
    assert_eq!(back, floats);
}

#[test]
fn array() {
    // struct A { list: [f64; 3] }: the items one after the other, without a length.
    let list = [1397.201f64, -0.0, -4_010_401.329_14];
    let bits: Vec<u64> = list.iter().map(|f| f.to_bits()).collect();
    let mut buf = vec![0u8; 3 * u64::BYTE_LEN];
    assert_eq!(u64::write_many(&bits, &mut buf), (3, 24));
    let mut r = Reader::new(&buf);
    for f in list {
        assert_eq!(f64::from_bits(r.get::<u64>()).to_bits(), f.to_bits());
    }

    // struct C { a: [i8; 9], b: [B; 240] } with struct B(usize)
    let a = [-127i8, 0, 84, -5, 39, 100, -128, 127, -99];
    let b = [usize::MAX; 240];
    let mut buf = vec![0u8; 9 * i8::BYTE_LEN + 240 * usize::BYTE_LEN];
    assert_eq!(i8::write_many(&a, &mut buf), (9, 9));
    assert_eq!(usize::write_many(&b, &mut buf[9..]), (240, 240 * 8));
    let mut r = Reader::new(&buf);
    for x in a {
        assert_eq!(r.get::<i8>(), x);
    }
    for x in b {
        assert_eq!(r.get::<usize>(), x);
    }
}

#[test]
fn string() {
    roundtrip(String::from("Hello world!"));
}

#[test]
fn cow() {
    let s = String::from("What a beautiful day");
    roundtrip(s.clone());

    let s2 = "@€~ÜÖÄ²µå";
    roundtrip(String::from(s2));

    assert_eq!(u128::BYTE_LEN, 16);
    roundtrip(u128::MAX);

    // struct D { msg: Cow<str>, n: String }
    let mut w = Writer::new(2 * String::MAX_BYTE_LEN);
    w.put(&"What does the cow say?".to_string()).put(&"MOOOOHHHH!".to_string());
    let mut r = Reader::new(&w.buf);
    assert_eq!(r.get::<String>(), "What does the cow say?");
    assert_eq!(r.get::<String>(), "MOOOOHHHH!");

    // struct E { a: String, b: Cow<str>, c: String }
    let mut w = Writer::new(3 * String::MAX_BYTE_LEN);
    w.put(&"a".to_string()).put(&"b".to_string()).put(&"c".to_string());
    let mut r = Reader::new(&w.buf);
    assert_eq!(r.get::<String>(), "a");
    assert_eq!(r.get::<String>(), "b");
    assert_eq!(r.get::<String>(), "c");
}

#[test]
fn option() {
    roundtrip(Some(String::from("Hello Option!")));
    roundtrip(None::<String>);
    roundtrip(Some(false));
    roundtrip(None::<bool>);

    // struct B { a: String, b: Option<String>, c: usize, d: Option<Cow<String>>, e: bool,
    // f: String }
    let mut w = Writer::new(4 * String::MAX_BYTE_LEN + 2 + 8 + 1);
    w.put(&"Hello world".to_string())
        .put(&None::<String>)
        .put(&299usize)
        .put(&Some("Do you like cats?".to_string()))
        .put(&true)
        .put(&"I don't know what to write anymore".to_string());
    let mut r = Reader::new(&w.buf);
    assert_eq!(r.get::<String>(), "Hello world");
    assert_eq!(r.get::<Option<String>>(), None);
    assert_eq!(r.get::<usize>(), 299);
    assert_eq!(r.get::<Option<String>>(), Some("Do you like cats?".to_string()));
    assert!(r.get::<bool>());
    assert_eq!(r.get::<String>(), "I don't know what to write anymore");
}

#[test]
fn integers_are_little_endian() {
    let mut buf = [0u8; 4];
    assert!(0x0102_0304u32.write_to_bytes(&mut buf).is_ok());
    assert_eq!(buf, [4, 3, 2, 1]);
    assert_eq!(i16::from_bytes(&[0xfe, 0xff]).unwrap(), -2);
}

#[test]
fn bool_reads_only_one_as_true() {
    assert!(bool::from_bytes(&[1]).unwrap());
    assert!(!bool::from_bytes(&[0]).unwrap());
    assert!(!bool::from_bytes(&[2]).unwrap());
}

#[test]
fn short_slice_errors() {
    let mut buf = [0u8; 3];
    assert_eq!(7u32.write_to_bytes(&mut buf), Err(ByteReprError::SliceTooShort));
    assert_eq!(u32::from_bytes(&buf), Err(ByteReprError::SliceTooShort));
    assert_eq!(u32::try_from_bytes(&buf), Some(Err(ByteReprError::SliceTooShort)));
}

#[test]
fn string_length_prefix() {
    let mut buf = vec![0u8; String::MAX_BYTE_LEN];
    let s = String::from("abc");
    assert!(s.write_to_bytes(&mut buf).is_ok());
    assert_eq!(&buf[..7], &[3, 0, 0, 0, b'a', b'b', b'c']);
    assert_eq!(s.byte_len(), 7);
}

#[test]
fn string_reads_invalid_utf8_lossily() {
    let bytes = [2u8, 0, 0, 0, 0xff, b'a'];
    assert_eq!(String::from_bytes(&bytes).unwrap(), "\u{FFFD}a");
}

#[test]
fn string_with_short_body_is_not_read() {
    let bytes = [10u8, 0, 0, 0, b'a'];
    assert!(String::try_from_bytes(&bytes).is_none());
}

#[test]
fn option_tags() {
    let mut buf = [0u8; 3];
    assert!(Some(0x0201u16).write_to_bytes(&mut buf).is_ok());
    assert_eq!(buf, [1, 1, 2]);
    assert!(None::<u16>.write_to_bytes(&mut buf).is_ok());
    assert_eq!(buf[0], 0);
    assert_eq!(Option::<u16>::from_bytes(&[2, 0, 0]), Err(ByteReprError::InvalidValue));
}

#[test]
fn write_many_stops_at_first_that_does_not_fit() {
    let mut buf = [0u8; 5];
    assert_eq!(u16::write_many(&[1, 2, 3], &mut buf), (2, 4));
    assert_eq!(&buf[..4], &[1, 0, 2, 0]);
}

#[test]
fn read_many_reads_to_the_end() {
    let (values, n) = u16::read_many(&[1, 0, 2, 0]).unwrap();
    assert_eq!(values, vec![1, 2]);
    assert_eq!(n, 4);
}

#[test]
fn read_many_stops_before_trailing_bytes() {
    let (values, n) = u16::read_many(&[1, 0, 2, 0, 9]).unwrap();
    assert_eq!(values, vec![1, 2]);
    assert_eq!(n, 4);
    let (values, n) = u32::read_many(&[7, 0, 0, 0, 1, 2, 3]).unwrap();
    assert_eq!(values, vec![7]);
    assert_eq!(n, 4);
}

#[test]
fn error_messages() {
    assert_eq!(ByteReprError::SliceTooShort.message(), "The provided byte slice is too short");
    assert_eq!(ByteReprError::InvalidValue.message(), "Encountered an unexpected value");
}

#[test]
fn boxes_cows_and_arrays() {
    roundtrip(Box::new(77u32));
    assert_eq!(<Box<u64> as StaticByteRepr>::BYTE_LEN, 8);

    // struct C<'a>(Cow<'a, u128>)
    assert_eq!(<Cow<u128> as StaticByteRepr>::BYTE_LEN, 16);
    let c: Cow<u128> = Cow::Borrowed(&u128::MAX);
    let mut buf = vec![0u8; 16];
    c.write_to_bytes(&mut buf).unwrap();
    assert_eq!(*Cow::<u128>::from_bytes(&buf).unwrap(), u128::MAX);

    // struct B<'a>(Cow<'a, str>)
    let s2: Cow<str> = Cow::Borrowed("@€~ÜÖÄ²µå");
    let mut buf = vec![0u8; s2.byte_len()];
    s2.write_to_bytes(&mut buf).unwrap();
    assert_eq!(Cow::<str>::from_bytes(&buf).unwrap(), s2);
    let owned: Cow<str> = Cow::Owned("What does the cow say?".to_string());
    assert_eq!(owned.byte_len(), 4 + 22);

    // struct C { a: [i8; 9], .. }: the items one after the other, without a count.
    let a = [-127i8, 0, 84, -5, 39, 100, -128, 127, -99];
    assert_eq!(<[i8; 9]>::MIN_BYTE_LEN, 9);
    assert_eq!(<[i8; 9] as StaticByteRepr>::BYTE_LEN, 9);
    assert_eq!(a.byte_len(), 9);
    let mut buf = vec![0u8; 9];
    a.write_to_bytes(&mut buf).unwrap();
    assert_eq!(buf[0], 0x81);
    assert_eq!(<[i8; 9]>::from_bytes(&buf).unwrap(), a);
    let b = [usize::MAX; 240];
    assert_eq!(b.byte_len(), 240 * std::mem::size_of::<usize>());
    roundtrip(b);
    assert_eq!(<[u16; 2]>::from_bytes(&[1, 0]), Err(ByteReprError::SliceTooShort));
    let mut short = vec![0u8; 3];
    assert_eq!([1u16, 2].write_to_bytes(&mut short), Err(ByteReprError::SliceTooShort));
}
