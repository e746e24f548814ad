use pazifista::compression::{decompress_bdo, DecompressError};

#[test]
fn uncompressed_payload_round_trips() {
    let data = b"hello";
    let mut payload = Vec::new();
    payload.push(0x6E);
    payload.extend_from_slice(&(9u32 + data.len() as u32).to_le_bytes());
    payload.extend_from_slice(&(data.len() as u32).to_le_bytes());
    payload.extend_from_slice(data);

    let output = decompress_bdo(&payload).unwrap();
    assert_eq!(output, data);
}

#[test]
fn empty_input_is_too_short() {
    assert!(matches!(decompress_bdo(&[]), Err(DecompressError::TooShort)));
}
