use poh_core::blob::{reconstruct_entries_from_blobs, to_blobs, to_single_entry_blobs, Blob};
use poh_core::chunking::{num_will_fit, split_serializable_chunks};
use poh_core::codec::{decode_entries, encode_entries, BLOB_DATA_SIZE};
use poh_core::entry::Entry;
use poh_core::hashing::HashValue;
use poh_core::transaction::{Signature, Transaction};

fn sample_tx(tag: u8, msg_len: usize) -> Transaction {
    let mut sig_bytes = vec![0u8; 64];
    sig_bytes[0] = tag;
    Transaction::new(vec![Signature::from_bytes(sig_bytes)], vec![tag; msg_len])
}

#[test]
fn test_num_will_fit_empty() {
    let serializables: Vec<u32> = vec![];
    let result = num_will_fit(&serializables[..], 8, &|_: &[u32]| 4);
    assert_eq!(result, 0);
}

#[test]
fn test_num_will_fit() {
    let serializables_vec: Vec<u8> = (0..10).map(|_| 1).collect();
    let serializables = &serializables_vec[..];
    let sum = |i: &[u8]| (0..i.len()).sum::<usize>() as u64;
    // sum[0] is = 0, but sum[0..1] > 0, so result contains 1 item
    let result = num_will_fit(serializables, 0, &sum);
    assert_eq!(result, 1);

    // sum[0..3] is <= 8, but sum[0..4] > 8, so result contains 3 items
    let result = num_will_fit(serializables, 8, &sum);
    assert_eq!(result, 4);

    // sum[0..1] is = 1, but sum[0..2] > 0, so result contains 2 items
    let result = num_will_fit(serializables, 1, &sum);
    assert_eq!(result, 2);

    // sum[0..9] = 45, so contains all items
    let result = num_will_fit(serializables, 45, &sum);
    assert_eq!(result, 10);

    // sum[0..8] <= 44, but sum[0..9] = 45, so contains all but last item
    let result = num_will_fit(serializables, 44, &sum);
    assert_eq!(result, 9);

    // sum[0..9] <= 46, but contains all items
    let result = num_will_fit(serializables, 46, &sum);
    assert_eq!(result, 10);

    // too small to fit a single u64
    let result = num_will_fit(&[0u64], (std::mem::size_of::<u64>() - 1) as u64, &|i: &[u64]| {
        (std::mem::size_of::<u64>() * i.len()) as u64
    });
    assert_eq!(result, 0);
}

#[test]
fn test_split_serializable_chunks() {
    let items: Vec<u8> = (0..10).collect();
    let size = |s: &[u8]| (8 * s.len()) as u64;
    let chunks = split_serializable_chunks(&items[..], 24, size, |s: &[u8]| s.to_vec());
    assert_eq!(chunks.len(), 4);
    assert_eq!(chunks[0], vec![0, 1, 2]);
    assert_eq!(chunks[3], vec![9]);
    let flattened: Vec<u8> = chunks.into_iter().flatten().collect();
    assert_eq!(flattened, items);
}

fn blob_sized_entries(num_entries: usize) -> Vec<Entry> {
    // one signed transaction whose message pads the unit to exactly full size
    let magic_len = BLOB_DATA_SIZE - 136;
    let zero = HashValue::default();
    (0..num_entries)
        .map(|_| Entry::new(&zero, 0, vec![sample_tx(3, magic_len)]))
        .collect()
}

#[test]
fn test_entries_to_blobs() {
    let entries = blob_sized_entries(10);

    let blobs = to_blobs(&entries);
    for blob in &blobs {
        assert_eq!(blob.data.len(), BLOB_DATA_SIZE);
    }

    assert_eq!(reconstruct_entries_from_blobs(&blobs).unwrap().0, entries);
}

#[test]
fn test_multiple_entries_to_blobs() {
    let num_blobs: usize = 10;
    let zero = HashValue::default();
    let mut hash = zero.clone();
    let mut num_hashes: u64 = 0;
    let first = Entry::new_mut(&mut hash, &mut num_hashes, vec![sample_tx(4, 100)]);
    let unit_size = encode_entries(&[first.clone()]).len();

    let num_entries = (num_blobs * BLOB_DATA_SIZE) / unit_size;
    let mut entries = vec![first];
    for _ in 1..num_entries {
        entries.push(Entry::new_mut(&mut hash, &mut num_hashes, vec![sample_tx(4, 100)]));
    }

    let blob_q = to_blobs(&entries);

    assert_eq!(blob_q.len(), num_blobs);
    assert_eq!(reconstruct_entries_from_blobs(&blob_q).unwrap().0, entries);
}

#[test]
fn test_bad_blobs_attack() {
    let blobs_q = vec![Blob { data: vec![0xa5u8; 24] }]; // <-- attack!
    assert!(reconstruct_entries_from_blobs(&blobs_q).is_err());
}

#[test]
fn test_single_entry_blobs_round_trip() {
    let ticks = poh_core::entry::create_ticks(4, HashValue::default());
    let blobs = to_single_entry_blobs(&ticks);
    assert_eq!(blobs.len(), 4);
    let (entries, num_ticks) = reconstruct_entries_from_blobs(&blobs).unwrap();
    assert_eq!(entries, ticks);
    assert_eq!(num_ticks, 4);
}

#[test]
fn test_decode_rejects_trailing_garbage() {
    let ticks = poh_core::entry::create_ticks(1, HashValue::default());
    let mut data = encode_entries(&ticks);
    assert!(decode_entries(&data).is_ok());
    data.push(0);
    assert!(matches!(
        decode_entries(&data),
        Err(poh_core::codec::DecodeError::Malformed)
    ));
}

#[test]
fn test_reconstruct_counts_ticks() {
    let zero = HashValue::default();
    let mut hash = zero.clone();
    let mut num_hashes: u64 = 0;
    let entries = vec![
        Entry::new_mut(&mut hash, &mut num_hashes, vec![]),
        Entry::new_mut(&mut hash, &mut num_hashes, vec![sample_tx(5, 10)]),
        Entry::new_mut(&mut hash, &mut num_hashes, vec![]),
    ];
    let blobs = to_blobs(&entries);
    let (decoded, num_ticks) = reconstruct_entries_from_blobs(&blobs).unwrap();
    assert_eq!(decoded, entries);
    assert_eq!(num_ticks, 2);
}
