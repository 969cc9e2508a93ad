use whipsnake::wasm::binary::BinaryReader;

#[test]
fn test_uleb128_decoding_single_byte() {
    let bytes: &[u8] = &[0x2A];
    let mut reader = BinaryReader::new(bytes);

    let result = reader.read_uleb128_u32();

    assert!(result.is_ok());
    assert_eq!(result.unwrap(), 42);
}

#[test]
fn test_uleb128_decoding_multi_byte() {
    let bytes: &[u8] = &[0xE5, 0x8E, 0x26, 0xAA, 0xBB];
    let mut reader = BinaryReader::new(bytes);

    let result = reader.read_uleb128_u32();

    assert!(result.is_ok());
    assert_eq!(result.unwrap(), 624485);
}

#[test]
fn test_uleb128_decoding_too_many_bytes() {
    let bytes: &[u8] = &[0xE5, 0x8E, 0xE5, 0x8E, 0b10010110];
    let mut reader = BinaryReader::new(bytes);

    let result = reader.read_uleb128_u32();

    assert!(result.is_err());
    assert!(result.unwrap_err().contains("more than 5 bytes"));
}

#[test]
fn test_uleb128_decoding_too_many_bits_in_fifth_byte() {
    let bytes: &[u8] = &[0xE5, 0x8E, 0xE5, 0x8E, 0b01010011];
    let mut reader = BinaryReader::new(bytes);

    let result = reader.read_uleb128_u32();

    assert!(result.is_err());
    assert!(result.unwrap_err().contains("got high bits"));
}

#[test]
fn uleb128_stops_after_its_last_byte() {
    let bytes: &[u8] = &[0xE5, 0x8E, 0x26, 0xAA, 0xBB];
    let mut reader = BinaryReader::new(bytes);
    assert_eq!(reader.read_uleb128_u32(), Ok(624485));
    assert_eq!(reader.read_byte(), Ok(0xAA));
    assert_eq!(reader.read_byte(), Ok(0xBB));
    assert!(reader.is_done());
}

#[test]
fn uleb128_five_byte_maximum() {
    let bytes: &[u8] = &[0xFF, 0xFF, 0xFF, 0xFF, 0x0F];
    let mut reader = BinaryReader::new(bytes);
    assert_eq!(reader.read_uleb128_u32(), Ok(u32::MAX));
    assert!(reader.is_done());
}

#[test]
fn uleb128_at_end_of_input_is_an_error() {
    let bytes: &[u8] = &[0x80];
    let mut reader = BinaryReader::new(bytes);
    assert!(reader.read_uleb128_u32().is_err());
}

#[test]
fn read_le_u32_reads_little_endian() {
    let bytes: &[u8] = &[0x01, 0x02, 0x03, 0x04, 0x05];
    let mut reader = BinaryReader::new(bytes);
    assert_eq!(reader.read_le_u32(), Ok(0x04030201));
    assert!(!reader.is_done());
    assert_eq!(reader.read_byte(), Ok(0x05));
    assert!(reader.is_done());
}

#[test]
fn read_le_u32_needs_four_bytes() {
    let bytes: &[u8] = &[0x01, 0x02, 0x03];
    let mut reader = BinaryReader::new(bytes);
    assert!(reader.read_le_u32().is_err());
}

#[test]
fn read_bytes_gives_exactly_n_bytes() {
    let bytes: &[u8] = &[0x00, 0x61, 0x73, 0x6D, 0x01];
    let mut reader = BinaryReader::new(bytes);
    let magic = reader.read_bytes::<4>();
    assert_eq!(magic, Ok([0x00, 0x61, 0x73, 0x6D]));
    assert_eq!(reader.read_byte(), Ok(0x01));
    assert!(reader.read_bytes::<2>().is_err());
}

#[test]
fn read_slice_borrows_the_next_bytes() {
    let bytes: &[u8] = &[1, 2, 3, 4, 5];
    let mut reader = BinaryReader::new(bytes);
    assert_eq!(reader.read_slice(2), Ok(&bytes[0..2]));
    assert_eq!(reader.read_slice(3), Ok(&bytes[2..5]));
    assert!(reader.is_done());
    assert!(reader.read_slice(1).is_err());
}

#[test]
fn read_slice_of_zero_bytes_succeeds_at_end() {
    let bytes: &[u8] = &[];
    let mut reader = BinaryReader::new(bytes);
    assert!(reader.is_done());
    assert_eq!(reader.read_slice(0), Ok(&bytes[0..0]));
}

#[test]
fn read_byte_at_end_is_an_error() {
    let bytes: &[u8] = &[];
    let mut reader = BinaryReader::new(bytes);
    assert!(reader.read_byte().is_err());
}
