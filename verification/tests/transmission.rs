use rerecast::transmission::{decode_payload, encode_payload, TransmissionError};

#[test]
fn payload_is_standard_base64() {
    assert_eq!(encode_payload(b"hello world~"), "aGVsbG8gd29ybGR+");
    assert_eq!(encode_payload(b"a"), "YQ==");
    assert_eq!(encode_payload(b""), "");
}

#[test]
fn payload_decodes() {
    assert_eq!(decode_payload(Some("aGVsbG8gd29ybGR+Cg==")), Ok(b"hello world~\n".to_vec()));
}

#[test]
fn payload_round_trips() {
    let bytes: Vec<u8> = (0..=255u8).collect();
    let text = encode_payload(&bytes);
    assert_eq!(decode_payload(Some(&text)), Ok(bytes));
}

#[test]
fn non_string_values_are_refused() {
    assert_eq!(decode_payload(None), Err(TransmissionError::NotAString));
}

#[test]
fn malformed_text_is_refused() {
    assert_eq!(decode_payload(Some("not base64!")), Err(TransmissionError::InvalidBase64));
    assert_eq!(decode_payload(Some("YQ=")), Err(TransmissionError::InvalidBase64));
}
