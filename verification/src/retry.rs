//! The retry decisions of the transaction-sending service: given what the
//! rooted and working banks report about a pending transaction, decide
//! whether it is done, expired, failed, worth resending, or simply kept.
use vstd::prelude::*;
use crate::transaction::Signature;

verus! {

/// A pending transaction the service tracks until it lands or expires.
#[derive(Debug, Clone)]
pub struct TransactionInfo {
    pub signature: Signature,
    pub wire_transaction: Vec<u8>,
    pub last_valid_slot: u64,
    pub retry_enabled: bool,
}

impl TransactionInfo {
    /// A freshly submitted transaction, eligible for retry.
    pub fn new(signature: Signature, wire_transaction: Vec<u8>, last_valid_slot: u64) -> (r:
        TransactionInfo)
        ensures
            r.signature@ == signature@,
            r.wire_transaction@ == wire_transaction@,
            r.last_valid_slot == last_valid_slot,
            r.retry_enabled == true,
    {
        TransactionInfo { signature, wire_transaction, last_valid_slot, retry_enabled: true }
    }
}

/// What becomes of one pending transaction on a status sweep.
#[derive(Debug, Clone, Copy, PartialEq, Eq, Structural)]
pub enum TransactionDisposition {
    /// The rooted bank holds it: done, drop it.
    Rooted,
    /// Its last valid slot passed without it landing: drop it.
    Expired,
    /// The working bank does not know it: resend it and keep it.
    Retried,
    /// The working bank saw it fail: drop it.
    Failed,
    /// The working bank holds it successfully but not yet rooted: keep it.
    Retained,
}

/// What the banks report about one pending transaction: whether the rooted
/// bank holds its signature, the rooted bank's slot, and, if the working
/// bank knows the signature, whether its status is an error.
#[derive(Debug, Clone, Copy, PartialEq, Eq, Structural)]
pub struct StatusReport {
    pub rooted: bool,
    pub root_slot: u64,
    pub working_status_err: Option<bool>,
}

/// The disposition the sweep assigns for a report on a transaction with the
/// given last valid slot.
pub open spec fn disposition_spec(last_valid_slot: u64, report: StatusReport)
    -> TransactionDisposition {
    if report.rooted {
        TransactionDisposition::Rooted
    } else if last_valid_slot < report.root_slot {
        TransactionDisposition::Expired
    } else {
        match report.working_status_err {
            None => TransactionDisposition::Retried,
            Some(true) => TransactionDisposition::Failed,
            Some(false) => TransactionDisposition::Retained,
        }
    }
}

/// Whether a disposition keeps the transaction in the pending queue.
pub open spec fn disposition_keeps(d: TransactionDisposition) -> bool {
    d == TransactionDisposition::Retried || d == TransactionDisposition::Retained
}

/// Decides what to do with one pending transaction: rooted ones are done,
/// ones past their last valid slot expire, unknown ones are resent and
/// kept, failed ones are dropped, and the rest are simply kept.
pub fn transaction_disposition(last_valid_slot: u64, report: StatusReport) -> (r:
    TransactionDisposition)
    ensures
        r == disposition_spec(last_valid_slot, report),
{
    if report.rooted {
        TransactionDisposition::Rooted
    } else if last_valid_slot < report.root_slot {
        TransactionDisposition::Expired
    } else {
        match report.working_status_err {
            None => TransactionDisposition::Retried,
            Some(true) => TransactionDisposition::Failed,
            Some(false) => TransactionDisposition::Retained,
        }
    }
}

/// The outcome counts of one status sweep over the pending queue.
#[derive(Debug, Clone, Copy, PartialEq, Eq, Structural)]
pub struct ProcessTransactionsResult {
    pub rooted: u64,
    pub expired: u64,
    pub retried: u64,
    pub failed: u64,
    pub retained: u64,
}

impl Default for ProcessTransactionsResult {
    /// All counts zero.
    fn default() -> (r: ProcessTransactionsResult)
        ensures
            r.rooted == 0 && r.expired == 0 && r.retried == 0 && r.failed == 0 && r.retained == 0,
    {
        ProcessTransactionsResult { rooted: 0, expired: 0, retried: 0, failed: 0, retained: 0 }
    }
}

/// How many of the dispositions are the given one.
pub open spec fn count_of(
    ds: Seq<TransactionDisposition>,
    which: TransactionDisposition,
) -> int
    decreases ds.len(),
{
    if ds.len() == 0 {
        0int
    } else {
        (if ds[0] == which {
            1int
        } else {
            0int
        }) + count_of(ds.drop_first(), which)
    }
}

/// Appending one disposition raises exactly its own count.
pub proof fn lemma_count_of_push(
    ds: Seq<TransactionDisposition>,
    d: TransactionDisposition,
    which: TransactionDisposition,
)
    ensures
        count_of(ds.push(d), which) == count_of(ds, which) + (if d == which {
            1int
        } else {
            0int
        }),
    decreases ds.len(),
{
    if ds.len() == 0 {
        assert(ds.push(d)[0] == d);
        assert(ds.push(d).drop_first() =~= Seq::<TransactionDisposition>::empty());
        assert(count_of(Seq::<TransactionDisposition>::empty(), which) == 0);
        assert(count_of(ds, which) == 0);
    } else {
        assert(ds.push(d)[0] == ds[0]);
        assert(ds.push(d).drop_first() =~= ds.drop_first().push(d));
        lemma_count_of_push(ds.drop_first(), d, which);
    }
}

/// The count of any one disposition never exceeds the number of sweeps.
pub proof fn lemma_count_of_bound(ds: Seq<TransactionDisposition>, which: TransactionDisposition)
    ensures
        0 <= count_of(ds, which) <= ds.len(),
    decreases ds.len(),
{
    if ds.len() > 0 {
        lemma_count_of_bound(ds.drop_first(), which);
    }
}

/// Tallies the dispositions of one status sweep.
pub fn count_dispositions(dispositions: &[TransactionDisposition]) -> (r:
    ProcessTransactionsResult)
    ensures
        r.rooted == count_of(dispositions@, TransactionDisposition::Rooted),
        r.expired == count_of(dispositions@, TransactionDisposition::Expired),
        r.retried == count_of(dispositions@, TransactionDisposition::Retried),
        r.failed == count_of(dispositions@, TransactionDisposition::Failed),
        r.retained == count_of(dispositions@, TransactionDisposition::Retained),
{
    let ghost all = dispositions@;
    let mut r = ProcessTransactionsResult::default();
    let mut i: usize = 0;
    proof {
        assert(all.take(0) =~= Seq::<TransactionDisposition>::empty());
    }
    while i < dispositions.len()
        invariant
            i <= dispositions@.len(),
            all == dispositions@,
            r.rooted == count_of(all.take(i as int), TransactionDisposition::Rooted),
            r.expired == count_of(all.take(i as int), TransactionDisposition::Expired),
            r.retried == count_of(all.take(i as int), TransactionDisposition::Retried),
            r.failed == count_of(all.take(i as int), TransactionDisposition::Failed),
            r.retained == count_of(all.take(i as int), TransactionDisposition::Retained),
        decreases dispositions@.len() - i,
    {
        proof {
            lemma_count_of_bound(all.take(i as int), TransactionDisposition::Rooted);
            lemma_count_of_bound(all.take(i as int), TransactionDisposition::Expired);
            lemma_count_of_bound(all.take(i as int), TransactionDisposition::Retried);
            lemma_count_of_bound(all.take(i as int), TransactionDisposition::Failed);
            lemma_count_of_bound(all.take(i as int), TransactionDisposition::Retained);
            lemma_count_of_push(
                all.take(i as int),
                all[i as int],
                TransactionDisposition::Rooted,
            );
            lemma_count_of_push(
                all.take(i as int),
                all[i as int],
                TransactionDisposition::Expired,
            );
            lemma_count_of_push(
                all.take(i as int),
                all[i as int],
                TransactionDisposition::Retried,
            );
            lemma_count_of_push(
                all.take(i as int),
                all[i as int],
                TransactionDisposition::Failed,
            );
            lemma_count_of_push(
                all.take(i as int),
                all[i as int],
                TransactionDisposition::Retained,
            );
            assert(all.take(i + 1) =~= all.take(i as int).push(all[i as int]));
        }
        match dispositions[i] {
            TransactionDisposition::Rooted => {
                r.rooted = r.rooted + 1;
            },
            TransactionDisposition::Expired => {
                r.expired = r.expired + 1;
            },
            TransactionDisposition::Retried => {
                r.retried = r.retried + 1;
            },
            TransactionDisposition::Failed => {
                r.failed = r.failed + 1;
            },
            TransactionDisposition::Retained => {
                r.retained = r.retained + 1;
            },
        }
        i += 1;
    }
    proof {
        assert(all.take(all.len() as int) =~= all);
    }
    r
}

/// One status sweep over the pending queue: decides every transaction's
/// disposition from its report, keeps exactly the retried and retained
/// ones in their original order, and tallies the outcome.
pub fn process_transactions(
    transactions: Vec<TransactionInfo>,
    reports: &[StatusReport],
) -> (r: (ProcessTransactionsResult, Vec<TransactionInfo>))
    requires
        transactions@.len() == reports@.len(),
    ensures
        ({
            let ds = Seq::new(
                reports@.len(),
                |i: int| disposition_spec(transactions@[i].last_valid_slot, reports@[i]),
            );
            &&& r.0.rooted == count_of(ds, TransactionDisposition::Rooted)
            &&& r.0.expired == count_of(ds, TransactionDisposition::Expired)
            &&& r.0.retried == count_of(ds, TransactionDisposition::Retried)
            &&& r.0.failed == count_of(ds, TransactionDisposition::Failed)
            &&& r.0.retained == count_of(ds, TransactionDisposition::Retained)
        }),
{
    let mut dispositions: Vec<TransactionDisposition> = Vec::new();
    let mut kept: Vec<TransactionInfo> = Vec::new();
    let mut i: usize = 0;
    let ghost ds = Seq::new(
        reports@.len(),
        |i: int| disposition_spec(transactions@[i].last_valid_slot, reports@[i]),
    );
    let mut txs = transactions;
    proof {
        assert(ds.take(0) =~= Seq::<TransactionDisposition>::empty());
    }
    while i < reports.len()
        invariant
            i <= reports@.len(),
            txs@.len() == reports@.len() - i,
            forall|j: int| 0 <= j < txs@.len() ==> txs@[j] == transactions@[j + i],
            ds == Seq::new(
                reports@.len(),
                |i: int| disposition_spec(transactions@[i].last_valid_slot, reports@[i]),
            ),
            dispositions@ == ds.take(i as int),
        decreases reports@.len() - i,
    {
        let tx = txs.remove(0);
        let d = transaction_disposition(tx.last_valid_slot, reports[i]);
        dispositions.push(d);
        match d {
            TransactionDisposition::Retried => {
                kept.push(tx);
            },
            TransactionDisposition::Retained => {
                kept.push(tx);
            },
            _ => {},
        }
        proof {
            assert(ds.take(i + 1) =~= ds.take(i as int).push(ds[i as int]));
        }
        i += 1;
    }
    proof {
        assert(ds.take(ds.len() as int) =~= ds);
    }
    let counts = count_dispositions(dispositions.as_slice());
    (counts, kept)
}

} // verus!
