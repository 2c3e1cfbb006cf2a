use serialr::variant::{read_variant, write_variant};
use serialr::{
    Bytes, Deserialize, Dict, SerialRead, SerialWrite, Serialize, SerializeError, WideText,
};

/// A record of two unnamed fields, written as the tuple of its fields.
#[derive(Clone, Debug, Copy, PartialEq)]
pub struct Test(u64, u64);

impl Test {
    fn serialize(&self, buf: &mut Bytes) {
        (self.0, self.1).serialize(buf)
    }

    fn deserialize(buf: &mut Bytes) -> Result<Self, SerializeError> {
        let (a, b) = <(u64, u64)>::deserialize(buf)?;
        Ok(Test(a, b))
    }
}

/// A record of two named fields, written as the tuple of its fields.
#[derive(Clone, Debug, Copy, PartialEq)]
pub struct Test1 {
    x: u64,
    y: u64,
}

impl Test1 {
    fn serialize(&self, buf: &mut Bytes) {
        (self.x, self.y).serialize(buf)
    }

    fn deserialize(buf: &mut Bytes) -> Result<Self, SerializeError> {
        let (x, y) = <(u64, u64)>::deserialize(buf)?;
        Ok(Test1 { x, y })
    }
}

/// A tagged union: the ordinal of the variant, then its fields. Floats are
/// written as their bit patterns.
#[derive(Debug, Clone, PartialEq)]
pub enum TestEnum1 {
    ONE(String),
    TWO,
    THREE((usize, f64, isize, f32)),
    FOUR,
}

impl TestEnum1 {
    fn serialize(&self, buf: &mut Bytes) {
        match self {
            TestEnum1::ONE(s) => {
                write_variant(buf, 0);
                s.serialize(buf);
            }
            TestEnum1::TWO => write_variant(buf, 1),
            TestEnum1::THREE((a, b, c, d)) => {
                write_variant(buf, 2);
                (*a, b.to_bits(), *c, d.to_bits()).serialize(buf);
            }
            TestEnum1::FOUR => write_variant(buf, 3),
        }
    }

    fn deserialize(buf: &mut Bytes) -> Result<Self, SerializeError> {
        let start = buf.position();
        let (ordinal, at) = read_variant(buf, start, 4)?;
        buf.seek(at);
        let value = match ordinal {
            0 => String::deserialize(buf).map(TestEnum1::ONE),
            1 => Ok(TestEnum1::TWO),
            2 => <(usize, u64, isize, u32)>::deserialize(buf)
                .map(|(a, b, c, d)| TestEnum1::THREE((a, f64::from_bits(b), c, f32::from_bits(d)))),
            _ => Ok(TestEnum1::FOUR),
        };
        if value.is_err() {
            buf.seek(start);
        }
        value
    }
}

/// A generic tagged union of two variants.
#[derive(PartialEq, Clone, Copy, Debug)]
pub enum CustomOption<T> {
    Value(T),
    Nothing,
}

impl<T: Serialize + Deserialize> CustomOption<T> {
    fn serialize(&self, buf: &mut Bytes) {
        match self {
            CustomOption::Value(v) => {
                write_variant(buf, 0);
                v.serialize(buf);
            }
            CustomOption::Nothing => write_variant(buf, 1),
        }
    }

    fn deserialize(buf: &mut Bytes) -> Result<Self, SerializeError> {
        let start = buf.position();
        let (ordinal, at) = read_variant(buf, start, 2)?;
        buf.seek(at);
        let value = match ordinal {
            0 => T::deserialize(buf).map(CustomOption::Value),
            _ => Ok(CustomOption::Nothing),
        };
        if value.is_err() {
            buf.seek(start);
        }
        value
    }
}

fn bytes_of(buf: Bytes) -> Vec<u8> {
    buf.into_vec()
}

#[test]
fn string_test() {
    let mut bytes = Bytes::new();

    let string = "Hello, World!!!".to_string();
    string.clone().serialize(&mut bytes);
    let found_string = String::deserialize(&mut bytes).unwrap();
    assert_eq!(string, found_string);
}

#[test]
fn derive_test() {
    let mut bytes = Bytes::new();
    let string = Test(345, 564746324436543543);
    string.serialize(&mut bytes);
    let found_string = Test::deserialize(&mut bytes).unwrap();
    assert_eq!(string, found_string);
}

#[test]
fn enum_derive_test() {
    let mut bytes = Bytes::new();
    let enum1 = TestEnum1::ONE("string".to_string());
    enum1.clone().serialize(&mut bytes);
    let found_enum = TestEnum1::deserialize(&mut bytes).unwrap();
    assert_eq!(enum1, found_enum);
}

#[test]
fn hash_map_test() {
    let mut bytes = Bytes::new();
    let mut hashmap: Dict<String, i32> = Dict::new();
    hashmap.insert("Hello".to_string(), 103);
    hashmap.insert("Three".to_string(), 3);
    hashmap.insert("Hey".to_string(), 4);
    hashmap.serialize(&mut bytes);
    let hashmap = <Dict<String, i32>>::deserialize(&mut bytes).unwrap();
    assert_eq!(hashmap.get(&"Hello".to_string()), Some(&103));
    assert_eq!(hashmap.get(&"Three".to_string()), Some(&3));
    assert_eq!(hashmap.get(&"Hey".to_string()), Some(&4));
}

#[test]
fn tuple_test() {
    let mut bytes = Bytes::new();
    let tuple: (u8, String, u8, u8, u8, u8) = (34, "test".to_string(), 34, 34, 34, 34);
    tuple.clone().serialize(&mut bytes);
    assert_eq!(bytes.read_serialized::<(u8, String, u8, u8, u8, u8)>().unwrap(), tuple);
}

#[test]
fn float_test() {
    let mut buffer = Bytes::new();

    let float: f32 = -1.0 / 0.0;
    float.to_bits().serialize(&mut buffer);
    assert_eq!(float, f32::from_bits(u32::deserialize(&mut buffer).unwrap()));
}

#[test]
fn array_test() {
    let mut buffer = Bytes::new();
    let array: [u8; 16] = [12; 16];
    array.serialize(&mut buffer);
    assert_eq!(array, <[u8; 16]>::deserialize(&mut buffer).unwrap())
}

#[test]
fn usize_test() {
    let num: usize = 342453646;
    let mut buffer = Bytes::new();
    num.serialize(&mut buffer);
    let deserialized_num = usize::deserialize(&mut buffer).unwrap();
    assert_eq!(num, deserialized_num);
}

#[test]
fn vec_test() {
    let num: Vec<usize> = vec![1, 2, 3, 4, 5];
    let mut buffer = Bytes::new();
    num.clone().serialize(&mut buffer);
    let deserialized_num = <Vec<usize>>::deserialize(&mut buffer).unwrap();
    assert_eq!(num, deserialized_num);
}

#[test]
fn generics_test() {
    let mut bytes = Bytes::new();
    let option: CustomOption<String> = CustomOption::Value("Test1".to_string());
    option.clone().serialize(&mut bytes);
    let new_option = CustomOption::<String>::deserialize(&mut bytes);
    assert_eq!(option, new_option.unwrap());
}

#[test]
fn invalid_test() {
    let mut bytes = Bytes::new();
    0x33445566u32.serialize(&mut bytes);
    assert!(bytes.read_serialized::<usize>().is_err());
}

#[test]
fn u32_is_four_big_endian_bytes_and_wider_read_fails() {
    let mut bytes = Bytes::new();
    0x33445566u32.serialize(&mut bytes);
    assert_eq!(bytes.len(), 4);
    assert!(matches!(u64::deserialize_from(&bytes, 0), Err(SerializeError::TruncatedInput)));
    assert_eq!(bytes.position(), 0);
    assert!(matches!(bytes.read_serialized::<usize>(), Err(SerializeError::TruncatedInput)));
    assert_eq!(bytes.position(), 0);
    assert_eq!(bytes_of(bytes), vec![0x33, 0x44, 0x55, 0x66]);
}

#[test]
fn short_text_hello_is_six_bytes() {
    let mut bytes = Bytes::new();
    let hello = "Hello".to_string();
    assert_eq!(hello.size(), 6);
    hello.serialize(&mut bytes);
    assert_eq!(String::deserialize_from(&bytes, 0).unwrap(), ("Hello".to_string(), 6));
    assert_eq!(bytes_of(bytes), vec![0x05, 0x48, 0x65, 0x6C, 0x6C, 0x6F]);
}

#[test]
fn byte_sequence_has_two_byte_count() {
    let mut bytes = Bytes::new();
    let v: Vec<u8> = vec![1, 2, 3, 4, 5];
    assert_eq!(v.size(), 7);
    v.serialize(&mut bytes);
    assert_eq!(<Vec<u8>>::deserialize_from(&bytes, 0).unwrap(), (vec![1, 2, 3, 4, 5], 7));
    assert_eq!(bytes_of(bytes), vec![0x00, 0x05, 1, 2, 3, 4, 5]);
}

#[test]
fn optional_present_and_absent() {
    let present: Option<u32> = Some(7);
    let absent: Option<u32> = None;
    let mut a = Bytes::new();
    present.serialize(&mut a);
    let mut b = Bytes::new();
    absent.serialize(&mut b);
    assert_eq!(<Option<u32>>::deserialize(&mut a).unwrap(), Some(7));
    assert_eq!(<Option<u32>>::deserialize(&mut b).unwrap(), None);
    assert!(b.len() < a.len());
    assert_eq!(bytes_of(a), vec![1, 0, 0, 0, 7]);
    assert_eq!(bytes_of(b), vec![0]);
}

#[test]
fn record_of_two_u64_is_sixteen_bytes() {
    let record = Test1 { x: 345, y: 564746324436543543 };
    let mut bytes = Bytes::new();
    record.serialize(&mut bytes);
    assert_eq!(bytes.len(), 16);
    assert_eq!(bytes.get(7), 345u64.to_be_bytes()[7]);
    assert_eq!(bytes.get(6), 345u64.to_be_bytes()[6]);
    assert_eq!(Test1::deserialize(&mut bytes).unwrap(), record);
    let raw = bytes_of(bytes);
    assert_eq!(&raw[0..8], &345u64.to_be_bytes());
    assert_eq!(&raw[8..16], &564746324436543543u64.to_be_bytes());
}

#[test]
fn tagged_union_discriminant_is_deterministic() {
    let value = TestEnum1::ONE("string".to_string());
    let mut first = Bytes::new();
    value.serialize(&mut first);
    let mut second = Bytes::new();
    value.serialize(&mut second);
    assert_eq!(first.get(7), 0);
    assert_eq!(TestEnum1::deserialize(&mut first).unwrap(), value);
    let three = TestEnum1::THREE((3, 1.5, -4, 2.5));
    let mut third = Bytes::new();
    three.serialize(&mut third);
    assert_eq!(third.get(7), 2);
    assert_eq!(TestEnum1::deserialize(&mut third).unwrap(), three);
    assert_eq!(bytes_of(first), bytes_of(second));
}

#[test]
fn unknown_variant_is_rejected() {
    let mut bytes = Bytes::new();
    write_variant(&mut bytes, 4);
    assert!(matches!(read_variant(&bytes, 0, 4), Err(SerializeError::InvalidDiscriminant)));
    assert!(matches!(TestEnum1::deserialize(&mut bytes), Err(SerializeError::InvalidDiscriminant)));
    assert_eq!(read_variant(&bytes, 0, 5).unwrap(), (4, 8));
}

#[test]
fn unknown_option_discriminant_is_rejected() {
    let bytes = Bytes::from_vec(vec![2, 0, 0, 0, 7]);
    assert!(matches!(
        <Option<u32>>::deserialize_from(&bytes, 0),
        Err(SerializeError::InvalidDiscriminant)
    ));
}

#[test]
fn truncated_encodings_fail() {
    let value: (Vec<u16>, String, Option<i64>) = (vec![1, 2, 300], "abc".to_string(), Some(-9));
    let mut bytes = Bytes::new();
    value.serialize(&mut bytes);
    let full = bytes_of(bytes);
    assert_eq!(full.len(), value.size());
    for n in 0..full.len() {
        let cut = Bytes::from_vec(full[..n].to_vec());
        assert!(matches!(
            <(Vec<u16>, String, Option<i64>)>::deserialize_from(&cut, 0),
            Err(SerializeError::TruncatedInput)
        ));
    }
    let whole = Bytes::from_vec(full.clone());
    assert_eq!(
        <(Vec<u16>, String, Option<i64>)>::deserialize_from(&whole, 0).unwrap(),
        (value, full.len())
    );
}

#[test]
fn decoding_past_the_end_fails() {
    let bytes = Bytes::from_vec(vec![1, 2, 3]);
    assert!(matches!(u8::deserialize_from(&bytes, 3), Err(SerializeError::TruncatedInput)));
    assert!(matches!(<[u8; 0]>::deserialize_from(&bytes, 4), Err(SerializeError::TruncatedInput)));
    assert_eq!(<[u8; 0]>::deserialize_from(&bytes, 3).unwrap(), ([], 3));
}

#[test]
fn values_concatenate_without_framing() {
    let a = "first".to_string();
    let b: Vec<i32> = vec![-1, 2];
    let mut bytes = Bytes::new();
    bytes.write_serialized(a.clone());
    bytes.write_serialized(b.clone());
    let (x, at) = String::deserialize_from(&bytes, 0).unwrap();
    assert_eq!(x, a);
    assert_eq!(at, a.size());
    let (y, end) = <Vec<i32>>::deserialize_from(&bytes, at).unwrap();
    assert_eq!(y, b);
    assert_eq!(end, bytes.len());
}

#[test]
fn signed_integers_use_twos_complement() {
    let mut bytes = Bytes::new();
    (-2i16).serialize(&mut bytes);
    (-1i8).serialize(&mut bytes);
    i64::MIN.serialize(&mut bytes);
    (-5isize).serialize(&mut bytes);
    assert_eq!(i16::deserialize(&mut bytes).unwrap(), -2);
    assert_eq!(i8::deserialize(&mut bytes).unwrap(), -1);
    assert_eq!(i64::deserialize(&mut bytes).unwrap(), i64::MIN);
    assert_eq!(isize::deserialize(&mut bytes).unwrap(), -5);
    let raw = bytes_of(bytes);
    assert_eq!(&raw[0..3], &[0xFF, 0xFE, 0xFF]);
    assert_eq!(&raw[3..11], &[0x80, 0, 0, 0, 0, 0, 0, 0]);
    assert_eq!(&raw[11..19], &[0xFF, 0xFF, 0xFF, 0xFF, 0xFF, 0xFF, 0xFF, 0xFB]);
}

#[test]
fn bool_reads_any_nonzero_byte_as_true() {
    let bytes = Bytes::from_vec(vec![0, 1, 7]);
    assert_eq!(bool::deserialize_from(&bytes, 0).unwrap(), (false, 1));
    assert_eq!(bool::deserialize_from(&bytes, 1).unwrap(), (true, 2));
    assert_eq!(bool::deserialize_from(&bytes, 2).unwrap(), (true, 3));
    let mut out = Bytes::new();
    true.serialize(&mut out);
    false.serialize(&mut out);
    assert_eq!(bytes_of(out), vec![1, 0]);
}

#[test]
fn ascii_char_is_one_byte() {
    let mut bytes = Bytes::new();
    'A'.serialize(&mut bytes);
    assert_eq!(char::deserialize(&mut bytes).unwrap(), 'A');
    let high = Bytes::from_vec(vec![0xC3]);
    assert!(matches!(char::deserialize_from(&high, 0), Err(SerializeError::InvalidEncoding)));
    assert_eq!(bytes_of(bytes), vec![0x41]);
}

#[test]
fn text_that_is_not_utf8_is_invalid() {
    let bytes = Bytes::from_vec(vec![2, 0xFF, 0xFE]);
    assert!(matches!(String::deserialize_from(&bytes, 0), Err(SerializeError::InvalidEncoding)));
    let short = Bytes::from_vec(vec![3, b'a', b'b']);
    assert!(matches!(String::deserialize_from(&short, 0), Err(SerializeError::TruncatedInput)));
}

#[test]
fn multibyte_text_keeps_its_characters() {
    let text = "héllo → ✓".to_string();
    let mut bytes = Bytes::new();
    text.serialize(&mut bytes);
    assert_eq!(bytes.get(0) as usize, text.len());
    assert_eq!(String::deserialize(&mut bytes).unwrap(), text);
}

#[test]
fn wide_text_has_two_byte_count() {
    let long: String = std::iter::repeat('x').take(300).collect();
    let wide = WideText { text: long.clone() };
    assert_eq!(wide.size(), 302);
    let mut bytes = Bytes::new();
    wide.serialize(&mut bytes);
    assert_eq!(bytes.get(0), 0x01);
    assert_eq!(bytes.get(1), 0x2C);
    let back = WideText::deserialize(&mut bytes).unwrap();
    assert_eq!(back.text, long);
}

#[test]
fn usize_beyond_platform_or_sizes() {
    let mut bytes = Bytes::new();
    u64::MAX.serialize(&mut bytes);
    let r = usize::deserialize_from(&bytes, 0);
    if usize::BITS == 64 {
        assert_eq!(r.unwrap(), (usize::MAX, 8));
    } else {
        assert!(matches!(r, Err(SerializeError::InvalidEncoding)));
    }
}

#[test]
fn buffer_operations() {
    let mut bytes = Bytes::from_vec(vec![9, 9, 9, 9, 9, 9]);
    assert!(bytes.is_in_bounds(5));
    assert!(!bytes.is_in_bounds(6));
    bytes.set(0, 1);
    bytes.write(1, &0x0203u16);
    let other = Bytes::from_vec(vec![7, 8]);
    bytes.insert(4, &other);
    assert_eq!(bytes.len(), 6);
    assert_eq!(bytes.read::<u16>(1).unwrap(), 0x0203);
    bytes.append(&other);
    bytes.set_len(10);
    assert_eq!(bytes_of(bytes), vec![1, 2, 3, 9, 7, 8, 7, 8, 0, 0]);
    let mut shorter = Bytes::from_vec(vec![1, 2, 3]);
    shorter.push(4);
    shorter.set_len(2);
    assert_eq!(bytes_of(shorter), vec![1, 2]);
}

#[test]
fn cursor_moves_past_each_value_and_resets() {
    let mut bytes = Bytes::new();
    5u8.serialize(&mut bytes);
    6u16.serialize(&mut bytes);
    assert_eq!(u8::deserialize(&mut bytes).unwrap(), 5);
    assert_eq!(bytes.position(), 1);
    assert_eq!(u16::deserialize(&mut bytes).unwrap(), 6);
    assert!(matches!(u8::deserialize(&mut bytes), Err(SerializeError::TruncatedInput)));
    assert_eq!(bytes.position(), 3);
    bytes.reset();
    assert_eq!(bytes.read_serialized::<u8>().unwrap(), 5);
}

#[test]
fn boxed_value_is_written_as_its_content() {
    let boxed: Box<u32> = Box::new(0xAABBCCDD);
    let mut bytes = Bytes::new();
    boxed.serialize(&mut bytes);
    assert_eq!(*<Box<u32>>::deserialize(&mut bytes).unwrap(), 0xAABBCCDD);
    assert_eq!(bytes_of(bytes), vec![0xAA, 0xBB, 0xCC, 0xDD]);
}

#[test]
fn map_insert_replaces_and_keeps_order() {
    let mut map: Dict<u16, String> = Dict::new();
    map.insert(2, "two".to_string());
    map.insert(1, "one".to_string());
    map.insert(2, "deux".to_string());
    assert_eq!(map.len(), 2);
    assert_eq!(map.get(&2), Some(&"deux".to_string()));
    assert_eq!(map.get(&3), None);
    let mut bytes = Bytes::new();
    map.serialize(&mut bytes);
    assert_eq!(bytes.len(), map.size());
    assert_eq!(
        bytes_of(bytes),
        vec![0, 2, 0, 2, 4, b'd', b'e', b'u', b'x', 0, 1, 3, b'o', b'n', b'e']
    );
}

#[test]
fn map_decode_lets_the_last_entry_win() {
    let bytes = Bytes::from_vec(vec![0, 3, 7, 0, 0, 0, 1, 8, 0, 0, 0, 2, 7, 0, 0, 0, 3]);
    let (map, end) = <Dict<u8, u32>>::deserialize_from(&bytes, 0).unwrap();
    assert_eq!(end, 17);
    assert_eq!(map.len(), 2);
    assert_eq!(map.get(&7), Some(&3));
    assert_eq!(map.get(&8), Some(&2));
    let cut = Bytes::from_vec(vec![0, 3, 7, 0, 0, 0, 1]);
    assert!(matches!(
        <Dict<u8, u32>>::deserialize_from(&cut, 0),
        Err(SerializeError::TruncatedInput)
    ));
}

#[test]
fn length_limits_are_checked_before_writing() {
    let long: String = std::iter::repeat('y').take(256).collect();
    let just: String = std::iter::repeat('y').take(255).collect();
    assert!(!long.can_serialize());
    assert!(just.can_serialize());
    assert!(WideText { text: long.clone() }.can_serialize());
    assert!(!(1u8, long.clone()).can_serialize());
    assert!(!Some(long.clone()).can_serialize());
    assert!(!vec![just.clone(), long].can_serialize());
    assert!(!vec![0u8; 65536].can_serialize());
    assert!(vec![0u8; 65535].can_serialize());
    assert!(!'é'.can_serialize());
    assert!('e'.can_serialize());
    let mut map: Dict<String, u8> = Dict::new();
    map.insert("a".to_string(), 1);
    map.insert("a".to_string(), 2);
    assert!(map.can_serialize());
    let mut bytes = Bytes::new();
    just.serialize(&mut bytes);
    assert_eq!(bytes.get(0), 255);
    assert_eq!(bytes.len(), 256);
}

#[test]
fn buffer_from_slice_and_writes_keep_cursor() {
    let raw: [u8; 3] = [0, 2, 9];
    let mut bytes = Bytes::from(&raw[..]);
    assert_eq!(bytes.len(), 3);
    assert_eq!(u16::deserialize(&mut bytes).unwrap(), 2);
    bytes.write_serialized(5u8);
    assert_eq!(bytes.position(), 2);
    assert_eq!(bytes.read_serialized::<u8>().unwrap(), 9);
    assert_eq!(bytes.read_serialized::<u8>().unwrap(), 5);
    let from_vec = Bytes::from(vec![1u8, 2]);
    assert_eq!(bytes_of(from_vec), vec![1, 2]);
}
