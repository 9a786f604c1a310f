use poh_core::short_vec::{decode_len, ShortVec};

/// Return the serialized length.
fn encode_len(len: u8) -> Vec<u8> {
    vec![len]
}

fn assert_len_encoding(len: u8, bytes: &[u8]) {
    assert_eq!(encode_len(len), bytes, "unexpected u8 encoding");
    assert_eq!(
        decode_len(bytes),
        (len as usize, bytes.len()),
        "unexpected u16 decoding"
    );
}

#[test]
fn test_short_vec_encode_len() {
    assert_len_encoding(0x0, &[0x0]);
    assert_len_encoding(0x7f, &[0x7f]);
    assert_len_encoding(0x80, &[0x80]);
    assert_len_encoding(0xff, &[0xff]);
}

#[test]
fn test_short_vec_holds_values() {
    let v = ShortVec(vec![4u8; 32]);
    assert_eq!(v.0.len(), 32);
}
