use poh_core::bs91::{encode_pubkey, encode_signature, encode_u64};
use poh_core::transaction::{Pubkey, Signature};

#[test]
fn test_encode_u64() {
    assert!(encode_u64(0) < encode_u64(std::u64::MAX));
    assert!(encode_u64(std::u64::MAX - 1) < encode_u64(std::u64::MAX));

    for i in 0..0xffff {
        assert!(encode_u64(i) < encode_u64(i + 1));
    }
}

#[test]
fn test_encode_signature() {
    let sig = Signature::from_bytes(vec![0u8; 64]);
    assert_eq!(
        encode_signature(&sig),
        "  /  /  /  /  /  /  /  /  /  /  /  /  /  /  /  /  /  /  /  /  /  /  /  /  /  /  /  /  /  /  /  /  /  /  /  /  /  /  /  "
    );
}

#[test]
fn test_encode_pubkey() {
    let zero = Pubkey::from_bytes(vec![0u8; 32]);
    assert_eq!(
        encode_pubkey(&zero),
        "  /  /  /  /  /  /  /  /  /  /  /  /  /  /  /  /  /  /  /  "
    );
    let loader = Pubkey::from_bytes(vec![
        2, 168, 246, 145, 78, 136, 161, 107, 189, 35, 149, 133, 95, 100, 4, 217, 180, 244, 86,
        183, 130, 27, 176, 20, 87, 73, 66, 140, 0, 0, 0, 0,
    ]);
    assert_eq!(
        encode_pubkey(&loader),
        "4x/([/Z9/O3/8S/I0/;d/g2/F[/*R/#^/ Z/!v/o0/^8/  /  / F/%o/=<"
    );
}

#[test]
fn test_encode_u64_exact_values() {
    assert_eq!(encode_u64(0), "  /  /  /  /  ");
    assert_eq!(encode_u64(std::u64::MAX), "P /~!/~!/~!/~!");
}
