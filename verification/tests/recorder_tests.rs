use poh_core::hashing::{sha256, HashValue};
use poh_core::poh_recorder::{PohRecorder, PohRecorderError, WorkingBank};
use poh_core::poh_service::{hashes_before_tick, next_batch_size, NUM_HASHES_PER_BATCH};
use poh_core::transaction::{Signature, Transaction};

fn sample_tx(tag: u8) -> Transaction {
    let mut sig_bytes = vec![0u8; 64];
    sig_bytes[0] = tag;
    Transaction::new(vec![Signature::from_bytes(sig_bytes)], vec![tag; 8])
}

#[test]
fn test_tick_starting_hash() {
    // starting hash is the hash of the zero hash
    let zero = HashValue::default();
    let h0 = sha256(&zero.bytes);

    let tick = poh_core::entry::Entry::new(&h0, 1, vec![]);
    assert_ne!(tick.hash.bytes, h0.bytes);
    assert_eq!(tick.num_hashes, 1);
    assert!(tick.verify(&h0));
    assert!(!tick.verify(&zero));
    assert!(!tick.verify(&sha256(b"unrelated")));
}

#[test]
fn test_recorder_reaches_max_tick_height() {
    let zero = HashValue::default();
    let h0 = sha256(&zero.bytes);
    let mut recorder = PohRecorder::new(0, h0.clone());
    recorder.set_working_bank(WorkingBank { slot: 5, min_tick_height: 0, max_tick_height: 4 });

    let mixin = sha256(b"some data");

    // while the block is open, records for the right slot succeed
    recorder.hash(7);
    let entry = recorder
        .record(5, &mixin, vec![sample_tx(1)])
        .unwrap();
    assert_eq!(entry.num_hashes, 8);
    assert!(!entry.is_tick());

    // four ticks complete the block and clear the working context
    for _ in 0..4 {
        let tick = recorder.tick();
        assert!(tick.is_tick());
    }
    assert_eq!(recorder.tick_height, 4);
    assert!(recorder.working_bank.is_none());

    // a subsequent record for the same slot is rejected
    let err = recorder.record(5, &mixin, vec![sample_tx(2)]).unwrap_err();
    assert_eq!(err, PohRecorderError::NoWorkingBank);
}

#[test]
fn test_recorder_rejections() {
    let zero = HashValue::default();
    let mixin = sha256(b"mix");
    let mut recorder = PohRecorder::new(0, zero);

    // no working context installed
    let err = recorder.record(3, &mixin, vec![sample_tx(1)]).unwrap_err();
    assert_eq!(err, PohRecorderError::NoWorkingBank);

    recorder.set_working_bank(WorkingBank { slot: 3, min_tick_height: 0, max_tick_height: 10 });

    // wrong slot
    let err = recorder.record(4, &mixin, vec![sample_tx(1)]).unwrap_err();
    assert_eq!(err, PohRecorderError::SlotMismatch);

    // right slot succeeds
    assert!(recorder.record(3, &mixin, vec![sample_tx(1)]).is_ok());

    // block already complete: tick height caught up with the maximum
    let mut tall = PohRecorder::new(10, HashValue::default());
    tall.set_working_bank(WorkingBank { slot: 3, min_tick_height: 0, max_tick_height: 10 });
    let err = tall.record(3, &mixin, vec![sample_tx(1)]).unwrap_err();
    assert_eq!(err, PohRecorderError::MaxHeightReached);
}

#[test]
fn test_recorded_entries_chain() {
    // every emitted entry verifies against the previous emission's hash
    let start = sha256(b"genesis");
    let mut recorder = PohRecorder::new(0, start.clone());
    recorder.set_working_bank(WorkingBank { slot: 0, min_tick_height: 0, max_tick_height: 100 });

    recorder.hash(5);
    let tick1 = recorder.tick();
    assert_eq!(tick1.num_hashes, 6);
    assert!(tick1.verify(&start));

    let txs = vec![sample_tx(9)];
    let mixin = poh_core::entry::hash_transactions(&txs);
    recorder.hash(2);
    let entry = recorder.record(0, &mixin, txs).unwrap();
    assert_eq!(entry.num_hashes, 3);
    assert!(entry.verify(&tick1.hash));

    let tick2 = recorder.tick();
    assert!(tick2.verify(&entry.hash));
}

#[test]
fn test_service_batching() {
    assert_eq!(NUM_HASHES_PER_BATCH, 128);
    assert_eq!(next_batch_size(0), 0);
    assert_eq!(next_batch_size(100), 100);
    assert_eq!(next_batch_size(128), 128);
    assert_eq!(next_batch_size(1000), 128);
    assert_eq!(hashes_before_tick(2), 1);
    assert_eq!(hashes_before_tick(128), 127);
}
