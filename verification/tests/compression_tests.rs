use poh_core::compression::{
    compress, compress_best, decompress, CompressedData, CompressionMethod,
};

#[test]
fn test_compress_round_trips() {
    let data: Vec<u8> = (0..2000u32).map(|i| (i % 7) as u8).collect();
    for method in [
        CompressionMethod::NoCompression,
        CompressionMethod::Bzip2,
        CompressionMethod::Gzip,
        CompressionMethod::Zstd,
    ] {
        let compressed = compress(method, &data).unwrap();
        let recovered = decompress(compressed).unwrap();
        assert_eq!(recovered, data);
    }
}

#[test]
fn test_compress_actually_compresses() {
    // a very regular payload must shrink under every real codec
    let data = vec![0u8; 4096];
    for method in [
        CompressionMethod::Bzip2,
        CompressionMethod::Gzip,
        CompressionMethod::Zstd,
    ] {
        let compressed = compress(method, &data).unwrap();
        assert!(compressed.data.len() < data.len());
    }
}

#[test]
fn test_compress_best_is_smallest() {
    let data: Vec<u8> = (0..4000u32).map(|i| (i % 5) as u8).collect();
    let best = compress_best(&data).unwrap();
    assert!(best.data.len() <= data.len());
    for method in [
        CompressionMethod::NoCompression,
        CompressionMethod::Bzip2,
        CompressionMethod::Gzip,
        CompressionMethod::Zstd,
    ] {
        let candidate = compress(method, &data).unwrap();
        assert!(best.data.len() <= candidate.data.len());
    }
    let recovered = decompress(best).unwrap();
    assert_eq!(recovered, data);
}

#[test]
fn test_compress_best_incompressible_keeps_identity_size() {
    // a short high-entropy payload: no codec beats storing it verbatim
    let data: Vec<u8> = (0..64u32)
        .map(|i| (i.wrapping_mul(2654435761) >> 13) as u8)
        .collect();
    let best = compress_best(&data).unwrap();
    assert_eq!(best.data.len(), data.len());
}

#[test]
fn test_decompress_rejects_garbage() {
    let garbage = CompressedData { method: CompressionMethod::Bzip2, data: vec![1, 2, 3, 4] };
    assert!(decompress(garbage).is_err());
    let garbage = CompressedData { method: CompressionMethod::Zstd, data: vec![9, 9, 9, 9] };
    assert!(decompress(garbage).is_err());
}
