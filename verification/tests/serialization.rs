use indexer_lib::serialize::collections::{limit_string_len, serialize_string_with_limit};
use indexer_lib::serialize::primitives::{deserialize_u64, serialize_u64, FloatBits};
use indexer_lib::serialize::sequential_array;
use indexer_lib::serialize::{Deserializable, Serializable};

fn serialize_deserialize<T: Serializable + Deserializable + std::fmt::Debug>(input: &T) -> T {
    let mut bytes = Vec::new();
    input.serialize(&mut bytes);
    let (remaining_bytes, output) = T::deserialize(&bytes[..]).unwrap();
    assert!(remaining_bytes.is_empty(), "Not all bytes consumed for {input:?}");
    output
}

fn many_serialize_deserialize<T: Serializable + Deserializable + Eq + std::fmt::Debug>(input: &[T]) {
    for item in input.iter() {
        let deserialized = serialize_deserialize(item);
        assert!(item == &deserialized, "{item:?} was serialized/deserialized to {deserialized:?}");
    }
}

#[test]
fn collections_test() {
    let cases = [
        ("", ""),
        ("asudfhj asiudf", "asudfhj"),
        ("as ias ias is a", "as ias ias"),
        ("oai aisæø øåæå", "oai aisæø"),
        ("👽 👽 👽👽 👽👽", "👽 👽"),
    ];
    for (input, expected) in cases {
        assert_eq!(limit_string_len(input, 12), expected, "'{}'", input);
    }
}

#[test]
fn limit_cuts_at_the_first_char_past_the_limit_without_spaces() {
    assert_eq!(limit_string_len("abcdefghijklmnop", 12), "abcdefghijklm");
    assert_eq!(limit_string_len("short", 12), "short");
    assert_eq!(limit_string_len("exactly twelv", 12), "exactly twelv");
}

#[test]
fn string_with_limit_writes_the_cut_text() {
    let mut out = Vec::new();
    serialize_string_with_limit("asudfhj asiudf", 12, &mut out);
    let (rest, read) = String::deserialize(&out).unwrap();
    assert!(rest.is_empty());
    assert_eq!(read, "asudfhj");
}

#[test]
fn test_char_serialization() {
    many_serialize_deserialize(&['a', char::default(), '\0', 'æ', '👽']);
}

#[test]
fn test_u64_serialization() {
    many_serialize_deserialize(&[
        0b1000_0000,
        0b0111_1111,
        0,
        u64::MAX,
        u64::from(u8::MAX),
        u64::from(u32::MAX),
    ]);
}

#[test]
fn test_bool_serialization() {
    many_serialize_deserialize(&[true, false]);
}

#[test]
fn test_string_serialization() {
    let items = ["", "Hello", "hello", " assadio👽 s da sad👽i oasid\n\t\n"].map(str::to_string);
    many_serialize_deserialize(&items);
}

#[test]
fn u64_varint_bytes() {
    let mut out = Vec::new();
    serialize_u64(300, &mut out);
    assert_eq!(out, vec![0b1010_1100, 0b0000_0010]);
    let mut zero = Vec::new();
    serialize_u64(0, &mut zero);
    assert_eq!(zero, vec![0]);
    let (rest, v) = deserialize_u64(&[0b1010_1100, 0b0000_0010, 7]).unwrap();
    assert_eq!(v, 300);
    assert_eq!(rest, &[7]);
}

#[test]
fn u64_reader_rejects_empty_input_and_reads_what_an_unfinished_one_holds() {
    assert!(deserialize_u64(&[]).is_none());
    let (rest, v) = deserialize_u64(&[0b1000_0001]).unwrap();
    assert!(rest.is_empty());
    assert_eq!(v, 1);
}

#[test]
fn u64_of_nine_groups_round_trips() {
    for v in [1u64 << 56, (1u64 << 63) - 1, 0x1234_5678_9abc_def0 >> 4] {
        let mut out = Vec::new();
        serialize_u64(v, &mut out);
        assert_eq!(out.len(), 9);
        out.push(0xff);
        let (rest, read) = deserialize_u64(&out).unwrap();
        assert_eq!(read, v);
        assert_eq!(rest, &[0xff]);
    }
}

#[test]
fn usize_and_u32_round_trip() {
    many_serialize_deserialize(&[0usize, 1, 127, 128, 16_384, usize::MAX]);
    many_serialize_deserialize(&[0u32, 1, 127, 128, u32::MAX]);
}

#[test]
fn float_bits_are_four_big_endian_bytes() {
    let f = FloatBits { bits: 1.5f32.to_bits() };
    let mut out = Vec::new();
    f.serialize(&mut out);
    assert_eq!(out, 1.5f32.to_be_bytes().to_vec());
    let (rest, back) = FloatBits::deserialize(&out).unwrap();
    assert!(rest.is_empty());
    assert_eq!(f32::from_bits(back.bits), 1.5);
}

#[test]
fn vectors_round_trip() {
    let v: Vec<u64> = vec![1, 2, 300, 0];
    assert_eq!(serialize_deserialize(&v), v);
    let words: Vec<String> = vec!["a".to_string(), "".to_string(), "æøå".to_string()];
    assert_eq!(serialize_deserialize(&words), words);
}

#[test]
fn vector_reader_rejects_a_length_past_the_input() {
    let bytes = [5u8, 1, 2];
    assert!(Vec::<u8>::deserialize(&bytes).is_none());
}

#[test]
fn ascending_lists_are_written_as_differences() {
    let mut out = Vec::new();
    sequential_array::serialize(vec![200, 3, 10], &mut out);
    assert_eq!(out, vec![3, 3, 7, 190, 1]);
    let (rest, back) = sequential_array::deserialize(&out).unwrap();
    assert!(rest.is_empty());
    assert_eq!(back, vec![3, 10, 200]);
}

#[test]
fn char_reader_rejects_a_surrogate() {
    let mut out = Vec::new();
    0xD800u32.serialize(&mut out);
    assert!(char::deserialize(&out).is_none());
}

#[test]
fn a_text_longer_than_the_input_reads_as_nothing() {
    assert!(String::deserialize(&[5, b'a', b'b']).is_none());
}

#[test]
fn differences_past_the_largest_position_read_as_nothing() {
    let mut bytes = Vec::new();
    serialize_u64(2, &mut bytes);
    serialize_u64(usize::MAX as u64, &mut bytes);
    serialize_u64(1, &mut bytes);
    assert!(sequential_array::deserialize(&bytes).is_none());
}
