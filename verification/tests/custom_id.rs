use custom_id::{variant_ids, BitBuffer, Bittable, CustomIdConv, CustomIdError, Snowflake, VariantIdError};

fn units(s: &str) -> Vec<u16> {
    s.encode_utf16().collect()
}

#[test]
fn bool_custom_id_is_one_unit() {
    assert_eq!(true.to_custom_id().unwrap(), "\u{1}");
    assert_eq!(false.to_custom_id().unwrap(), "\u{0}");
    assert_eq!(bool::from_custom_id("\u{1}".to_string()), Ok(true));
}

#[test]
fn u8_bits_least_significant_first() {
    let mut buf = BitBuffer::from_bools(&vec![false; 8]);
    assert_eq!(5u8.write_bits(&mut buf, 0), 8);
    assert_eq!(buf.to_bools(), vec![true, false, true, false, false, false, false, false]);
    assert_eq!(5u8.to_custom_id().unwrap(), "\u{5}");
}

#[test]
fn integers_round_trip() {
    assert_eq!(u32::from_custom_id(123456u32.to_custom_id().unwrap()), Ok(123456));
    assert_eq!(i8::from_custom_id((-1i8).to_custom_id().unwrap()), Ok(-1));
    assert_eq!(i64::from_custom_id(i64::MIN.to_custom_id().unwrap()), Ok(i64::MIN));
    assert_eq!(u128::from_custom_id(u128::MAX.to_custom_id().unwrap()), Ok(u128::MAX));
    assert_eq!(isize::from_custom_id((-42isize).to_custom_id().unwrap()), Ok(-42));
    assert_eq!(u16::from_custom_id(0x1234u16.to_custom_id().unwrap()), Ok(0x1234));
}

#[test]
fn i8_minus_one_is_all_ones() {
    assert_eq!(units(&(-1i8).to_custom_id().unwrap()), vec![0x00FF]);
}

#[test]
fn bit_counts() {
    assert_eq!(true.bit_count(), 1);
    assert_eq!(7u16.bit_count(), 16);
    assert_eq!(7i128.bit_count(), 128);
    assert_eq!(7usize.bit_count(), usize::BITS as usize);
    assert_eq!("héllo".to_string().bit_count(), 8 + 6 * 8);
    assert_eq!(vec![1u32, 2, 3].bit_count(), 8 + 96);
    assert_eq!(Some(3u8).bit_count(), 9);
    assert_eq!(None::<u8>.bit_count(), 1);
    assert_eq!(Snowflake::new(9).bit_count(), 64);
}

#[test]
fn string_round_trip() {
    let s = "héllo, wörld ✓".to_string();
    assert_eq!(String::from_custom_id(s.to_custom_id().unwrap()), Ok(s));
    assert_eq!(String::from_custom_id(String::new().to_custom_id().unwrap()), Ok(String::new()));
}

#[test]
fn string_layout() {
    // length byte 2, then 'h' (0x68), then 'i' (0x69)
    assert_eq!(units(&"hi".to_string().to_custom_id().unwrap()), vec![0x6802, 0x0069]);
}

#[test]
fn vec_and_option_round_trip() {
    let v = vec![Some(1u16), None, Some(65535)];
    assert_eq!(Vec::<Option<u16>>::from_custom_id(v.to_custom_id().unwrap()), Ok(v));
    let w = vec!["a".to_string(), "bc".to_string()];
    assert_eq!(Vec::<String>::from_custom_id(w.to_custom_id().unwrap()), Ok(w));
    assert_eq!(Option::<u64>::from_custom_id(None::<u64>.to_custom_id().unwrap()), Ok(None));
}

#[test]
fn snowflake_round_trip() {
    let id = Snowflake::new(1234567890123);
    assert_eq!(Snowflake::from_custom_id(id.to_custom_id().unwrap()), Ok(id));
    assert_eq!(id.get(), 1234567890123);
}

#[test]
fn too_big_is_refused() {
    let long = "x".repeat(200);
    assert_eq!(long.to_custom_id(), Err(CustomIdError::DataTooBig));
    let many = vec![0u32; 51];
    assert_eq!(many.to_custom_id(), Err(CustomIdError::DataTooBig));
}

#[test]
fn exactly_sixteen_hundred_bits_fit() {
    let v = vec![7u8; 199];
    assert_eq!(v.bit_count(), 1600);
    let id = v.to_custom_id().unwrap();
    assert_eq!(units(&id).len(), 100);
    assert_eq!(Vec::<u8>::from_custom_id(id), Ok(v));
}

#[test]
fn last_unit_is_padded() {
    let id = vec![true, true].to_custom_id().unwrap();
    // eight bits of count (2), then two set bits: ten bits in one unit
    assert_eq!(units(&id), vec![0x0302]);
}

#[test]
fn unpaired_surrogate_is_replaced() {
    // 0xD800 packs into one unpaired surrogate, which the lossy decoding
    // turns into U+FFFD
    let id = 0xD800u16.to_custom_id().unwrap();
    assert_eq!(id, "\u{FFFD}");
    assert_eq!(u16::from_custom_id(id), Ok(0xFFFD));
}

#[test]
fn short_input_fails() {
    assert_eq!(u32::from_custom_id("\u{1}".to_string()), Err(CustomIdError::DeserializationFailed));
    assert_eq!(u8::from_custom_id(String::new()), Err(CustomIdError::DeserializationFailed));
    assert_eq!(String::from_custom_id("\u{5}".to_string()), Err(CustomIdError::DeserializationFailed));
}

#[test]
fn bool_at_the_end_reads_false() {
    let empty = BitBuffer::from_bools(&vec![]);
    assert_eq!(bool::from_bits(&empty, 0), Ok((1, false)));
    assert_eq!(Option::<u8>::from_bits(&empty, 0), Ok((1, None)));
}

#[test]
fn read_past_the_end_is_reported() {
    // count 20, then only eight bools of bits
    assert!(Vec::<bool>::try_from_custom_id("\u{14}".to_string()).is_none());
    assert_eq!(
        Vec::<bool>::try_from_custom_id("\u{8}".to_string()),
        Some(Ok(vec![false; 8]))
    );
    let bits = BitBuffer::from_bools(&vec![true]);
    assert_eq!(bool::read_bits(&bits, 2), None);
}

#[test]
fn zero_snowflake_is_reported() {
    assert!(Snowflake::try_from_custom_id("\u{0}\u{0}\u{0}\u{0}".to_string()).is_none());
    let one = Snowflake::try_from_custom_id("\u{1}\u{0}\u{0}\u{0}".to_string());
    assert_eq!(one.unwrap().unwrap().get(), 1);
}

#[test]
fn write_leaves_other_bits() {
    let mut buf = BitBuffer::from_bools(&vec![true; 16]);
    assert_eq!(0u8.write_bits(&mut buf, 4), 8);
    let bits = buf.to_bools();
    for (i, b) in bits.iter().enumerate() {
        assert_eq!(*b, !(4..12).contains(&i));
    }
}

#[test]
fn read_at_offset() {
    let mut buf = BitBuffer::from_bools(&vec![false; 40]);
    "ab".to_string().write_bits(&mut buf, 3);
    assert_eq!(String::from_bits(&buf, 3), Ok((24, "ab".to_string())));
}

#[test]
fn long_string_length_wraps() {
    // a 256-byte string writes its length as the byte 0
    let s = "y".repeat(256);
    let mut buf = BitBuffer::from_bools(&vec![false; 8 + 256 * 8]);
    assert_eq!(s.write_bits(&mut buf, 0), 8 + 256 * 8);
    assert_eq!(String::from_bits(&buf, 0), Ok((8, String::new())));
}

#[test]
fn invalid_utf8_is_decoded_lossily() {
    // length 1, byte 0xFF
    let mut bits = vec![true, false, false, false, false, false, false, false];
    bits.extend(vec![true; 8]);
    let buf = BitBuffer::from_bools(&bits);
    assert_eq!(String::from_bits(&buf, 0), Ok((16, "\u{FFFD}".to_string())));
}

#[test]
fn variant_ids_numbered_by_default() {
    assert_eq!(variant_ids(&vec![None, None, None]), Ok(vec![0, 1, 2]));
    assert_eq!(variant_ids(&vec![]), Ok(vec![]));
}

#[test]
fn variant_ids_declared() {
    let d = |s: &str| Some(s.to_string());
    assert_eq!(variant_ids(&vec![d("5"), d("7"), d("+0")]), Ok(vec![5, 7, 0]));
    assert_eq!(variant_ids(&vec![d("5"), None]), Err(VariantIdError::MissingId(1)));
    assert_eq!(variant_ids(&vec![None, d("5")]), Err(VariantIdError::MissingId(0)));
    assert_eq!(variant_ids(&vec![d("x")]), Err(VariantIdError::NotAnId(0)));
    assert_eq!(variant_ids(&vec![d("70000")]), Err(VariantIdError::NotAnId(0)));
    assert_eq!(variant_ids(&vec![d("5u16")]), Err(VariantIdError::NotAnId(0)));
    assert_eq!(variant_ids(&vec![d("3"), d("4"), d("3")]), Err(VariantIdError::DuplicateId(2)));
}
