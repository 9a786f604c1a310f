use poh_core::entry::{next_entries, next_entry, next_entry_mut, verify_slice, Entry};
use poh_core::hashing::{sha256, HashValue};
use poh_core::transaction::{Signature, Transaction};

fn sample_tx(tag: u8, msg_len: usize) -> Transaction {
    let mut sig_bytes = vec![0u8; 64];
    sig_bytes[0] = tag;
    sig_bytes[1] = tag.wrapping_add(1);
    Transaction::new(vec![Signature::from_bytes(sig_bytes)], vec![tag; msg_len])
}

#[test]
fn test_entry_verify() {
    let zero = HashValue::default();
    let one = sha256(&zero.bytes);
    assert!(Entry::new_tick(0, &zero).verify(&zero)); // base case, never used
    assert!(!Entry::new_tick(0, &zero).verify(&one)); // base case, bad
    assert!(next_entry(&zero, 1, vec![]).verify(&zero)); // inductive step
    assert!(!next_entry(&zero, 1, vec![]).verify(&one)); // inductive step, bad
}

#[test]
fn test_transaction_reorder_attack() {
    let zero = HashValue::default();

    // First, verify entries
    let tx0 = sample_tx(10, 8);
    let tx1 = sample_tx(20, 8);
    let mut e0 = Entry::new(&zero, 0, vec![tx0.clone(), tx1.clone()]);
    assert!(e0.verify(&zero));

    // Next, swap two transactions and ensure verification fails.
    e0.transactions[0] = tx1;
    e0.transactions[1] = tx0;
    assert!(!e0.verify(&zero));
}

#[test]
fn test_witness_reorder_attack() {
    let zero = HashValue::default();

    // First, verify entries
    let tx0 = sample_tx(30, 12);
    let tx1 = sample_tx(40, 16);
    let mut e0 = Entry::new(&zero, 0, vec![tx0.clone(), tx1.clone()]);
    assert!(e0.verify(&zero));

    // Next, swap two witness transactions and ensure verification fails.
    e0.transactions[0] = tx1;
    e0.transactions[1] = tx0;
    assert!(!e0.verify(&zero));
}

#[test]
fn test_next_entry() {
    let zero = HashValue::default();
    let tick = next_entry(&zero, 1, vec![]);
    assert_eq!(tick.num_hashes, 1);
    assert_ne!(tick.hash.bytes, zero.bytes);

    let tick = next_entry(&zero, 0, vec![]);
    assert_eq!(tick.num_hashes, 0);
    assert_eq!(tick.hash.bytes, zero.bytes);

    let tx0 = sample_tx(50, 8);
    let entry0 = next_entry(&zero, 1, vec![tx0.clone()]);
    assert_eq!(entry0.num_hashes, 1);
    assert_eq!(
        entry0.hash.bytes,
        poh_core::entry::next_hash(&zero, 1, &[tx0]).bytes
    );
}

#[test]
fn test_serialized_to_blob_size() {
    let zero = HashValue::default();
    let tx = sample_tx(60, 8);
    let entry = next_entry(&zero, 1, vec![tx.clone()]);
    assert_eq!(
        Entry::serialized_to_blob_size(&[tx]),
        poh_core::codec::encode_entries(&[entry]).len() as u64
    );
}

#[test]
fn test_verify_slice() {
    let zero = HashValue::default();
    let one = sha256(&zero.bytes);
    assert!(verify_slice(&[], &zero)); // base case
    assert!(verify_slice(&[Entry::new_tick(0, &zero)], &zero)); // singleton case 1
    assert!(!verify_slice(&[Entry::new_tick(0, &zero)], &one)); // singleton case 2, bad
    let degenerate = next_entry(&zero, 0, vec![]);
    assert!(verify_slice(
        &[degenerate.clone(), degenerate.clone()],
        &zero
    )); // inductive step

    let mut bad_ticks = vec![degenerate.clone(), degenerate];
    bad_ticks[1].hash = one;
    assert!(!verify_slice(&bad_ticks, &zero)); // inductive step, bad
}

#[test]
fn test_verify_slice_fresh_chain() {
    let zero = HashValue::default();
    let ticks = poh_core::entry::create_ticks(5, zero);
    assert_eq!(ticks.len(), 5);
    let zero = HashValue::default();
    assert!(verify_slice(&ticks, &zero));

    let mut corrupted = ticks.clone();
    corrupted[2].hash = sha256(b"somewhere else");
    assert!(!verify_slice(&corrupted, &zero));
}

#[test]
fn test_next_entries() {
    let hash = HashValue::default();
    let tx_small = sample_tx(1, 100);
    let tx_large = sample_tx(2, 1000);

    let tx_small_size = Entry::serialized_to_blob_size(&[tx_small.clone()]) as usize - 56;
    let tx_large_size = Entry::serialized_to_blob_size(&[tx_large.clone()]) as usize - 56;
    assert!(tx_small_size < tx_large_size);

    let blob_data_size = poh_core::codec::BLOB_DATA_SIZE;
    let threshold = (blob_data_size - 56) / tx_small_size;

    // verify no split
    let transactions = vec![tx_small.clone(); threshold];
    let entries0 = next_entries(&hash, 0, transactions);
    assert_eq!(entries0.len(), 1);
    assert!(verify_slice(&entries0, &hash));

    // verify the split with uniform transactions
    let transactions = vec![tx_small.clone(); threshold * 2];
    let entries0 = next_entries(&hash, 0, transactions);
    assert_eq!(entries0.len(), 2);
    assert!(verify_slice(&entries0, &hash));

    // verify the split with small transactions followed by large transactions
    let mut transactions = vec![tx_small.clone(); blob_data_size / tx_small_size];
    let large_transactions = vec![tx_large.clone(); blob_data_size / tx_large_size];
    transactions.extend(large_transactions);

    let entries0 = next_entries(&hash, 0, transactions);
    assert!(entries0.len() >= 2);
    assert!(verify_slice(&entries0, &hash));
}

#[test]
fn test_next_entry_mut_moves_cursor() {
    let mut hash = HashValue::default();
    let mut pending: u64 = 3;
    let entry = Entry::new_mut(&mut hash, &mut pending, vec![]);
    assert_eq!(entry.num_hashes, 3);
    assert_eq!(hash.bytes, entry.hash.bytes);
    assert_eq!(pending, 0);

    let mut hash2 = HashValue::default();
    let chained = next_entry_mut(&mut hash2, 3, vec![]);
    assert_eq!(chained.hash.bytes, entry.hash.bytes);
    assert_eq!(hash2.bytes, entry.hash.bytes);
}

#[test]
fn test_hash_transactions_reads_first_signatures_only() {
    let tx_signed = sample_tx(7, 4);
    let tx_same_sig_other_msg =
        Transaction::new(tx_signed.signatures.clone(), vec![9u8; 32]);
    let d1 = poh_core::entry::hash_transactions(&[tx_signed]);
    let d2 = poh_core::entry::hash_transactions(&[tx_same_sig_other_msg]);
    assert_eq!(d1.bytes, d2.bytes);

    let unsigned = Transaction::new(vec![], vec![1, 2, 3]);
    let empty: &[Transaction] = &[];
    let d3 = poh_core::entry::hash_transactions(&[unsigned]);
    let d4 = poh_core::entry::hash_transactions(empty);
    assert_eq!(d3.bytes, d4.bytes);
}

#[test]
fn test_serialized_to_blob_size_exact() {
    let no_txs: &[Transaction] = &[];
    assert_eq!(Entry::serialized_to_blob_size(no_txs), 56);
    // one transaction: 8-byte signature count, one 64-byte signature,
    // 8-byte message length, and the message itself
    let tx = sample_tx(1, 10);
    assert_eq!(Entry::serialized_to_blob_size(&[tx]), 56 + 8 + 64 + 8 + 10);
}
