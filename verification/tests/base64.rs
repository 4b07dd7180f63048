use authfetch::base64::base64_encode;

fn encoded(input: &[u8]) -> String {
    String::from_utf8(base64_encode(&input.to_vec())).unwrap()
}

#[test]
fn encode_empty() {
    assert_eq!(encoded(b""), "");
}

#[test]
fn encode_one_byte() {
    assert_eq!(encoded(b"f"), "Zg==");
}

#[test]
fn encode_two_bytes() {
    assert_eq!(encoded(b"fo"), "Zm8=");
}

#[test]
fn encode_three_bytes() {
    assert_eq!(encoded(b"foo"), "Zm9v");
}

#[test]
fn encode_four_bytes() {
    assert_eq!(encoded(b"foob"), "Zm9vYg==");
}

#[test]
fn encode_five_bytes() {
    assert_eq!(encoded(b"fooba"), "Zm9vYmE=");
}

#[test]
fn encode_six_bytes() {
    assert_eq!(encoded(b"foobar"), "Zm9vYmFy");
}

#[test]
fn encode_colon() {
    assert_eq!(encoded(b":"), "Og==");
}

#[test]
fn encode_all_byte_values() {
    let all: Vec<u8> = (0u8..=255u8).collect();
    let text = encoded(&all);
    assert_eq!(text.len(), 344);
    assert!(text.ends_with("+fr7/P3+/w=="));
}
