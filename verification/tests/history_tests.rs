use poh_core::compression::CompressionMethod;
use poh_core::history::{
    encode_locator, encode_method_tag, group_signatures_by_address, BlockTransaction,
};
use poh_core::transaction::{Pubkey, Signature};

fn sig(tag: u8) -> Signature {
    Signature::from_bytes(vec![tag; 64])
}

fn key(tag: u8) -> Pubkey {
    Pubkey::from_bytes(vec![tag; 32])
}

#[test]
fn test_encode_locator_layout() {
    let bytes = encode_locator(0x0102030405060708, 0x0a0b0c0d);
    assert_eq!(
        bytes,
        vec![8, 7, 6, 5, 4, 3, 2, 1, 0x0d, 0x0c, 0x0b, 0x0a]
    );
}

#[test]
fn test_encode_method_tag_layout() {
    assert_eq!(encode_method_tag(CompressionMethod::NoCompression), vec![0, 0, 0, 0]);
    assert_eq!(encode_method_tag(CompressionMethod::Bzip2), vec![1, 0, 0, 0]);
    assert_eq!(encode_method_tag(CompressionMethod::Gzip), vec![2, 0, 0, 0]);
    assert_eq!(encode_method_tag(CompressionMethod::Zstd), vec![3, 0, 0, 0]);
}

#[test]
fn test_group_signatures_by_address() {
    let txs = vec![
        BlockTransaction { signature: sig(1), addresses: vec![key(10), key(11)] },
        BlockTransaction { signature: sig(2), addresses: vec![key(11)] },
        BlockTransaction { signature: sig(3), addresses: vec![key(10), key(99)] },
    ];
    let excluded = [key(99)];
    let groups = group_signatures_by_address(&txs, &excluded);

    assert_eq!(groups.len(), 2);
    for (addr, sigs) in &groups {
        if addr == &key(10) {
            assert_eq!(sigs, &vec![sig(1), sig(3)]);
        } else {
            assert_eq!(addr, &key(11));
            assert_eq!(sigs, &vec![sig(1), sig(2)]);
        }
    }
}

#[test]
fn test_group_skips_excluded_only_addresses() {
    let txs = vec![BlockTransaction { signature: sig(1), addresses: vec![key(99)] }];
    let excluded = [key(99)];
    let groups = group_signatures_by_address(&txs, &excluded);
    assert!(groups.is_empty());
}
