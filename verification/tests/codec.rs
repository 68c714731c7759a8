//! Round trips and edge cases of the string codecs.

use tiptoe_rs::encoding::{EncodedString, StringMatrix};
use tiptoe_rs::utils::{decode_data, decode_input, encode_data, encode_input};

#[test]
fn test_string_conversion() {
    let original = "Hello, World!";
    let encoded = EncodedString::encode(original);
    let decoded: String = encoded.decode().unwrap();
    assert_eq!(original, decoded);
}

#[test]
fn test_long_string() {
    let original = "This is a much longer string that needs multiple u64s to store all of its bytes efficiently. Let's make sure it works correctly!";
    let encoded = EncodedString::encode(original);
    let decoded: String = encoded.decode().unwrap();
    assert_eq!(original, decoded);
}

#[test]
fn test_empty_string() {
    let original = "";
    let encoded = EncodedString::encode(original);
    let decoded: String = encoded.decode().unwrap();
    assert_eq!(original, decoded);
}

#[test]
fn test_matrix_conversion() {
    let original = vec![
        "Hello, World!".to_string(),
        "This is a test".to_string(),
        "PIR is cool".to_string(),
    ];
    let matrix = StringMatrix::new(&original);
    let decoded: Vec<String> = matrix.to_strings().unwrap();
    assert_eq!(original, decoded);
}

#[test]
fn test_encode_decode() {
    let data = vec![
        "Lorem ipsum odor amet, consectetuer adipiscing elit".to_string(),
        " Conubia elementum taciti dapibus vestibulum mattis primis".to_string(),
        " Facilisis fames justo ultricies pharetra rhoncus".to_string(),
        " Nam vel mi aptent turpis purus fusce purus".to_string(),
        " Pretium ultrices torquent vulputate venenatis magnis vitae tempor semper torquent"
            .to_string(),
        " Habitant suspendisse nascetur in quis adipiscing".to_string(),
    ];
    let encoded = encode_data(&data).unwrap();
    println!("encoded: {:?}", encoded.data);
    let decoded = decode_data(&encoded).unwrap();
    println!("{:?}", decoded);
    assert_eq!(&decoded[..data.len()], &data[..]);
}

#[test]
fn test_unicode_round_trip() {
    let original = "non-ascii: \u{e9}\u{1F600}\u{4e2d}";
    let encoded = EncodedString::encode(original);
    let decoded: String = encoded.decode().unwrap();
    assert_eq!(original, decoded);
}

#[test]
fn test_encode_input_cells() {
    let bytes: Vec<u8> = b"abcdefghij".to_vec();
    let cells = encode_input(&bytes);
    assert_eq!(cells.len(), 2);
    // little-endian packing: byte k of the first cell carries weight 256^k
    assert_eq!(cells[0] & 0xFF, 'a' as u64);
    assert_eq!((cells[0] >> 8) & 0xFF, 'b' as u64);
    assert_eq!(cells[1] & 0xFF, 'i' as u64);
}

#[test]
fn test_decode_input_strips_padding() {
    let bytes: Vec<u8> = b"hi".to_vec();
    let mut cells = encode_input(&bytes);
    cells.push(0);
    let s = decode_input(&cells).unwrap();
    assert_eq!(s, "hi");
}

#[test]
fn test_decode_input_validates_raw_bytes() {
    // A multibyte sequence interrupted by a zero byte is invalid UTF-8 on
    // the raw bytes, so decoding fails before any padding is removed.
    let cell: u64 = 0xC3 + (0x00 << 8) + (0xA9 << 16);
    let r = decode_input(&vec![cell]);
    assert!(r.is_err());
}

#[test]
fn test_encode_data_rejects_empty() {
    let r = encode_data(&Vec::new());
    assert!(r.is_err());
}

#[test]
fn test_decode_missing_cells() {
    // A length prefix promising more bytes than the cells can hold.
    let enc = EncodedString(vec![100u64, 0x41]);
    assert!(enc.decode().is_err());
}
