use poh_core::retry::{
    count_dispositions, process_transactions, transaction_disposition, StatusReport,
    TransactionDisposition, TransactionInfo,
};
use poh_core::transaction::Signature;

fn info(last_valid_slot: u64) -> TransactionInfo {
    TransactionInfo::new(Signature::from_bytes(vec![0u8; 64]), vec![], last_valid_slot)
}

#[test]
fn test_expired_transactions_are_dropped() {
    let report = StatusReport { rooted: false, root_slot: 1, working_status_err: None };
    let d = transaction_disposition(0, report);
    assert_eq!(d, TransactionDisposition::Expired);

    let (result, kept) = process_transactions(vec![info(0)], &[report]);
    assert_eq!(kept.len(), 0);
    assert_eq!(result.expired, 1);
    assert_eq!(result.rooted + result.retried + result.failed + result.retained, 0);
}

#[test]
fn test_rooted_transactions_are_dropped() {
    let report = StatusReport { rooted: true, root_slot: 1, working_status_err: None };
    assert_eq!(transaction_disposition(2, report), TransactionDisposition::Rooted);

    let (result, kept) = process_transactions(vec![info(2)], &[report]);
    assert_eq!(kept.len(), 0);
    assert_eq!(result.rooted, 1);
}

#[test]
fn test_failed_transactions_are_dropped() {
    let report = StatusReport { rooted: false, root_slot: 1, working_status_err: Some(true) };
    assert_eq!(transaction_disposition(2, report), TransactionDisposition::Failed);

    let (result, kept) = process_transactions(vec![info(2)], &[report]);
    assert_eq!(kept.len(), 0);
    assert_eq!(result.failed, 1);
}

#[test]
fn test_non_rooted_transactions_are_kept() {
    let report = StatusReport { rooted: false, root_slot: 1, working_status_err: Some(false) };
    assert_eq!(transaction_disposition(2, report), TransactionDisposition::Retained);

    let (result, kept) = process_transactions(vec![info(2)], &[report]);
    assert_eq!(kept.len(), 1);
    assert_eq!(result.retained, 1);
}

#[test]
fn test_unknown_transactions_are_retried() {
    let report = StatusReport { rooted: false, root_slot: 1, working_status_err: None };
    assert_eq!(transaction_disposition(2, report), TransactionDisposition::Retried);

    let (result, kept) = process_transactions(vec![info(2)], &[report]);
    assert_eq!(kept.len(), 1);
    assert_eq!(result.retried, 1);
}

#[test]
fn test_count_dispositions() {
    let ds = [
        TransactionDisposition::Rooted,
        TransactionDisposition::Retried,
        TransactionDisposition::Retried,
        TransactionDisposition::Failed,
        TransactionDisposition::Expired,
        TransactionDisposition::Retained,
    ];
    let counts = count_dispositions(&ds);
    assert_eq!(counts.rooted, 1);
    assert_eq!(counts.retried, 2);
    assert_eq!(counts.failed, 1);
    assert_eq!(counts.expired, 1);
    assert_eq!(counts.retained, 1);
}
