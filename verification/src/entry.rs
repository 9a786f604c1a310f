//! One link of the Proof-of-History chain: an entry carries the number of
//! hash applications since the previous entry, the resulting chain value,
//! and the transactions observed before it was produced.
use vstd::prelude::*;
use crate::codec::{sat_u64, txs_encoded_len, BLOB_DATA_SIZE};
use crate::hashing::{advance, advance_spec, mix, mix_spec, sha256, sha256_of, HashValue};
use crate::transaction::{collect_sig_bytes, sig_concat, txs_view, Transaction, TxView};

verus! {

/// The abstract value of an entry.
pub ghost struct EntryView {
    pub num_hashes: u64,
    pub hash: Seq<u8>,
    pub transactions: Seq<TxView>,
}

/// One link in the chain. `num_hashes` counts the hash applications since
/// the previous entry; `hash` is the chain value they produce; an empty
/// transaction list makes the entry a tick.
#[derive(Debug, Clone)]
pub struct Entry {
    pub num_hashes: u64,
    pub hash: HashValue,
    pub transactions: Vec<Transaction>,
}

impl View for Entry {
    type V = EntryView;

    open spec fn view(&self) -> EntryView {
        EntryView {
            num_hashes: self.num_hashes,
            hash: self.hash@,
            transactions: txs_view(self.transactions@),
        }
    }
}

/// Every transaction in the sequence is well formed.
pub open spec fn txs_all_wf(ts: Seq<TxView>) -> bool {
    forall|i: int, j: int|
        0 <= i < ts.len() && 0 <= j < (#[trigger] ts[i]).signatures.len() ==> (
        #[trigger] ts[i].signatures[j]).len() == crate::transaction::SIGNATURE_BYTES
}

/// A well-formed entry: a full-width hash, well-formed transactions, and a
/// serialized size within one network unit's payload.
pub open spec fn entry_wf(e: EntryView) -> bool {
    &&& e.hash.len() == crate::hashing::HASH_BYTES
    &&& txs_all_wf(e.transactions)
    &&& 56 + txs_encoded_len(e.transactions) <= BLOB_DATA_SIZE
}

/// How many hash applications an entry built with `num_hashes` records: a
/// request for zero hashes with transactions present is promoted to one.
pub open spec fn effective_num_hashes(num_hashes: u64, ntxs: nat) -> u64 {
    if num_hashes == 0 && ntxs > 0 {
        1
    } else {
        num_hashes
    }
}

/// The chain value `num_hashes` applications after `start`, with the
/// transaction digest mixed in as the final application when a transaction
/// carries a signature. With no hashes and no transactions, `start` itself.
pub open spec fn next_hash_spec(start: Seq<u8>, num_hashes: u64, txs: Seq<TxView>) -> Seq<u8> {
    if num_hashes == 0 && txs.len() == 0 {
        start
    } else if txs.len() == 0 {
        advance_spec(start, num_hashes as nat)
    } else {
        let n = if num_hashes == 0 {
            1nat
        } else {
            num_hashes as nat
        };
        if sig_concat(txs).len() == 0 {
            advance_spec(start, (n - 1) as nat)
        } else {
            mix_spec(advance_spec(start, (n - 1) as nat), sha256_of(sig_concat(txs)))
        }
    }
}

/// Whether an entry's hash is exactly what recomputation from `start` gives.
pub open spec fn verify_spec(e: EntryView, start: Seq<u8>) -> bool {
    e.hash == next_hash_spec(start, e.num_hashes, e.transactions)
}

/// The digest that binds an ordered transaction sequence to the chain: the
/// hash of the first signature of each transaction, in sequence order.
pub fn hash_transactions(transactions: &[Transaction]) -> (r: HashValue)
    ensures
        r@ == sha256_of(sig_concat(txs_view(transactions@))),
        r.wf(),
{
    let sig_bytes = collect_sig_bytes(transactions);
    sha256(sig_bytes.as_slice())
}

/// The chain value `num_hashes` applications after `start_hash`, mixing in
/// the transaction digest as the final application when one is present.
pub fn next_hash(start_hash: &HashValue, num_hashes: u64, transactions: &[Transaction]) -> (r: HashValue)
    ensures
        r@ == next_hash_spec(start_hash@, num_hashes, txs_view(transactions@)),
        start_hash.wf() ==> r.wf(),
{
    if num_hashes == 0 && transactions.len() == 0 {
        return start_hash.dup();
    }
    let n: u64 = if num_hashes == 0 {
        1
    } else {
        num_hashes
    };
    if transactions.len() == 0 {
        advance(start_hash, n)
    } else {
        let sig_bytes = collect_sig_bytes(transactions);
        let pre = advance(start_hash, n - 1);
        if sig_bytes.len() == 0 {
            pre
        } else {
            let digest = sha256(sig_bytes.as_slice());
            mix(&pre, &digest)
        }
    }
}

impl Entry {
    /// The serialized byte size of a single-entry network unit carrying the
    /// given transactions, capped at the largest `u64` value.
    pub fn serialized_to_blob_size(transactions: &[Transaction]) -> (r: u64)
        ensures
            r as int == sat_u64(56 + txs_encoded_len(txs_view(transactions@))),
    {
        let ghost all = txs_view(transactions@);
        let mut acc: u64 = 56;
        let mut i: usize = 0;
        proof {
            assert(all.take(0) =~= Seq::<TxView>::empty());
        }
        while i < transactions.len()
            invariant
                i <= transactions@.len(),
                all == txs_view(transactions@),
                acc as int == sat_u64(56 + txs_encoded_len(all.take(i as int))),
            decreases transactions@.len() - i,
        {
            let tx = &transactions[i];
            let nsigs = tx.signatures.len() as u64;
            let sig_bytes: u64 = if nsigs > u64::MAX / 64 {
                u64::MAX
            } else {
                64 * nsigs
            };
            let tx_len = 16u64.saturating_add(sig_bytes).saturating_add(
                tx.message.len() as u64,
            );
            proof {
                crate::codec::lemma_txs_encoded_len_nonneg(all.take(i as int));
                assert(tx_len as int == sat_u64(crate::codec::tx_encoded_len(all[i as int])));
            }
            acc = acc.saturating_add(tx_len);
            proof {
                crate::codec::lemma_txs_encoded_len_take_succ(all, i as int);
            }
            i += 1;
        }
        proof {
            assert(all.take(transactions@.len() as int) =~= all);
        }
        acc
    }

    /// Creates the next entry `num_hashes` after `prev_hash`, carrying the
    /// given transactions. A request for zero hashes with transactions
    /// present performs exactly one hash application, which also mixes in
    /// the transaction digest. The new entry verifies against `prev_hash`.
    pub fn new(prev_hash: &HashValue, num_hashes: u64, transactions: Vec<Transaction>) -> (r: Entry)
        requires
            prev_hash.wf(),
            txs_all_wf(txs_view(transactions@)),
            56 + txs_encoded_len(txs_view(transactions@)) <= BLOB_DATA_SIZE,
        ensures
            r@.num_hashes == effective_num_hashes(num_hashes, txs_view(transactions@).len()),
            r@.hash == next_hash_spec(prev_hash@, num_hashes, txs_view(transactions@)),
            r@.transactions == txs_view(transactions@),
            entry_wf(r@),
            verify_spec(r@, prev_hash@),
    {
        let hash = next_hash(prev_hash, num_hashes, transactions.as_slice());
        let num_hashes_eff: u64 = if num_hashes == 0 && transactions.len() > 0 {
            1
        } else {
            num_hashes
        };
        Entry { num_hashes: num_hashes_eff, hash, transactions }
    }

    /// Creates the next entry as `new` does, then moves the cursor forward:
    /// the start hash becomes the new entry's hash and the pending hash
    /// count resets to zero.
    pub fn new_mut(start_hash: &mut HashValue, num_hashes: &mut u64, transactions: Vec<Transaction>)
        -> (r: Entry)
        requires
            old(start_hash).wf(),
            txs_all_wf(txs_view(transactions@)),
            56 + txs_encoded_len(txs_view(transactions@)) <= BLOB_DATA_SIZE,
        ensures
            r@.num_hashes == effective_num_hashes(
                *old(num_hashes),
                txs_view(transactions@).len(),
            ),
            r@.hash == next_hash_spec(old(start_hash)@, *old(num_hashes), txs_view(transactions@)),
            r@.transactions == txs_view(transactions@),
            entry_wf(r@),
            verify_spec(r@, old(start_hash)@),
            final(start_hash)@ == r@.hash,
            final(start_hash).wf(),
            *final(num_hashes) == 0,
    {
        let entry = Self::new(start_hash, *num_hashes, transactions);
        *start_hash = entry.hash.dup();
        *num_hashes = 0;
        entry
    }

    /// An entry with the given hash count and hash value and no
    /// transactions, taken verbatim.
    pub fn new_tick(num_hashes: u64, hash: &HashValue) -> (r: Entry)
        ensures
            r@.num_hashes == num_hashes,
            r@.hash == hash@,
            r@.transactions.len() == 0,
    {
        let r = Entry { num_hashes, hash: hash.dup(), transactions: Vec::new() };
        proof {
            assert(r@.transactions =~= Seq::<TxView>::empty());
        }
        r
    }

    /// Whether this entry's hash is the result of recomputing the chain
    /// from `start_hash` over this entry's own hash count and transactions.
    pub fn verify(&self, start_hash: &HashValue) -> (r: bool)
        ensures
            r == verify_spec(self@, start_hash@),
    {
        let ref_hash = next_hash(start_hash, self.num_hashes, self.transactions.as_slice());
        crate::hashing::bytes_eq(self.hash.bytes.as_slice(), ref_hash.bytes.as_slice())
    }

    /// Whether this entry is a tick: it carries no transactions.
    pub fn is_tick(&self) -> (r: bool)
        ensures
            r == (self@.transactions.len() == 0),
    {
        self.transactions.len() == 0
    }

    /// An exact copy of this entry.
    pub fn dup(&self) -> (r: Entry)
        ensures
            r@ == self@,
    {
        let mut transactions: Vec<Transaction> = Vec::new();
        let mut i: usize = 0;
        while i < self.transactions.len()
            invariant
                i <= self.transactions@.len(),
                transactions@.len() == i,
                forall|j: int| 0 <= j < i ==> (#[trigger] transactions@[j])@
                    == self.transactions@[j]@,
            decreases self.transactions@.len() - i,
        {
            transactions.push(self.transactions[i].dup());
            i += 1;
        }
        let r = Entry { num_hashes: self.num_hashes, hash: self.hash.dup(), transactions };
        proof {
            assert(r@.transactions =~= self@.transactions);
            assert(r@ == self@);
        }
        r
    }
}

impl PartialEq for Entry {
    fn eq(&self, other: &Entry) -> (r: bool) {
        if self.num_hashes != other.num_hashes {
            return false;
        }
        if !crate::hashing::bytes_eq(self.hash.bytes.as_slice(), other.hash.bytes.as_slice()) {
            return false;
        }
        if self.transactions.len() != other.transactions.len() {
            proof {
                assert(self@.transactions.len() != other@.transactions.len());
            }
            return false;
        }
        let mut i: usize = 0;
        while i < self.transactions.len()
            invariant
                i <= self.transactions@.len(),
                self.transactions@.len() == other.transactions@.len(),
                self@.transactions.len() == other@.transactions.len(),
                forall|j: int| 0 <= j < i ==> #[trigger] self@.transactions[j]
                    == other@.transactions[j],
            decreases self.transactions@.len() - i,
        {
            if !self.transactions[i].eq(&other.transactions[i]) {
                proof {
                    assert(self@.transactions[i as int] != other@.transactions[i as int]);
                    assert(self@ != other@);
                }
                return false;
            }
            i += 1;
        }
        proof {
            assert(self@.transactions =~= other@.transactions);
            assert(self@ == other@);
        }
        true
    }
}

impl Eq for Entry {}

impl vstd::std_specs::cmp::PartialEqSpecImpl for Entry {
    open spec fn obeys_eq_spec() -> bool {
        true
    }

    open spec fn eq_spec(&self, other: &Entry) -> bool {
        self@ == other@
    }
}

/// Creates the next entry `num_hashes` after `prev_hash`. A transaction-
/// bearing entry must record at least one hash application.
pub fn next_entry(prev_hash: &HashValue, num_hashes: u64, transactions: Vec<Transaction>) -> (r: Entry)
    requires
        prev_hash.wf(),
        num_hashes > 0 || transactions@.len() == 0,
        txs_all_wf(txs_view(transactions@)),
        56 + txs_encoded_len(txs_view(transactions@)) <= BLOB_DATA_SIZE,
    ensures
        r@.num_hashes == num_hashes,
        r@.hash == next_hash_spec(prev_hash@, num_hashes, txs_view(transactions@)),
        r@.transactions == txs_view(transactions@),
        entry_wf(r@),
        verify_spec(r@, prev_hash@),
{
    Entry::new(prev_hash, num_hashes, transactions)
}

/// Creates the next entry and moves the start hash to the new entry's hash.
pub fn next_entry_mut(start: &mut HashValue, num_hashes: u64, transactions: Vec<Transaction>) -> (r:
    Entry)
    requires
        old(start).wf(),
        txs_all_wf(txs_view(transactions@)),
        56 + txs_encoded_len(txs_view(transactions@)) <= BLOB_DATA_SIZE,
    ensures
        r@.num_hashes == effective_num_hashes(num_hashes, txs_view(transactions@).len()),
        r@.hash == next_hash_spec(old(start)@, num_hashes, txs_view(transactions@)),
        r@.transactions == txs_view(transactions@),
        entry_wf(r@),
        verify_spec(r@, old(start)@),
        final(start)@ == r@.hash,
        final(start).wf(),
{
    let entry = Entry::new(start, num_hashes, transactions);
    *start = entry.hash.dup();
    entry
}

/// The abstract values of a sequence of entries.
pub open spec fn entries_view(es: Seq<Entry>) -> Seq<EntryView> {
    es.map_values(|e: Entry| e@)
}

/// The hash an entry at position `i` must chain from: the starting hash for
/// the first entry, and the previous entry's hash for every later one.
pub open spec fn prev_of(entries: Seq<EntryView>, start: Seq<u8>, i: int) -> Seq<u8> {
    if i == 0 {
        start
    } else {
        entries[i - 1].hash
    }
}

/// A sequence of entries verifies against a starting hash when every entry
/// verifies against its immediate predecessor's hash. The empty sequence
/// verifies trivially.
pub open spec fn slice_verified(entries: Seq<EntryView>, start: Seq<u8>) -> bool {
    forall|i: int| 0 <= i < entries.len() ==> verify_spec(
        #[trigger] entries[i],
        prev_of(entries, start, i),
    )
}

/// Verifies a whole sequence of entries against a starting hash: every
/// adjacent pair must chain correctly, and any single break fails the whole
/// sequence.
pub fn verify_slice(entries: &[Entry], start_hash: &HashValue) -> (r: bool)
    ensures
        r == slice_verified(entries_view(entries@), start_hash@),
{
    let ghost views = entries_view(entries@);
    let mut i: usize = 0;
    while i < entries.len()
        invariant
            i <= entries@.len(),
            views == entries_view(entries@),
            forall|j: int| 0 <= j < i ==> verify_spec(#[trigger] views[j], prev_of(
                views,
                start_hash@,
                j,
            )),
        decreases entries@.len() - i,
    {
        let ok = if i == 0 {
            entries[i].verify(start_hash)
        } else {
            entries[i].verify(&entries[i - 1].hash)
        };
        if !ok {
            proof {
                assert(!verify_spec(views[i as int], prev_of(views, start_hash@, i as int)));
            }
            return false;
        }
        i += 1;
    }
    true
}

/// Creates `num_ticks` consecutive tick entries, each recording one hash
/// application, chained from `hash`.
pub fn create_ticks(num_ticks: u64, hash: HashValue) -> (r: Vec<Entry>)
    requires
        hash.wf(),
    ensures
        r@.len() == num_ticks,
        forall|i: int| 0 <= i < num_ticks ==> {
            &&& (#[trigger] entries_view(r@)[i]).num_hashes == 1
            &&& entries_view(r@)[i].transactions.len() == 0
            &&& entries_view(r@)[i].hash == advance_spec(hash@, (i + 1) as nat)
        },
        slice_verified(entries_view(r@), hash@),
{
    let ghost start = hash@;
    let mut cur = hash;
    let mut ticks: Vec<Entry> = Vec::new();
    let mut i: u64 = 0;
    while i < num_ticks
        invariant
            i <= num_ticks,
            ticks@.len() == i,
            cur.wf(),
            cur@ == advance_spec(start, i as nat),
            forall|j: int| 0 <= j < i ==> {
                &&& (#[trigger] entries_view(ticks@)[j]).num_hashes == 1
                &&& entries_view(ticks@)[j].transactions.len() == 0
                &&& entries_view(ticks@)[j].hash == advance_spec(start, (j + 1) as nat)
            },
        decreases num_ticks - i,
    {
        let ghost before = entries_view(ticks@);
        let new_tick = next_entry_mut(&mut cur, 1, Vec::new());
        proof {
            assert(txs_view(Seq::<Transaction>::empty()) =~= Seq::<TxView>::empty());
            assert(new_tick@.hash == advance_spec(advance_spec(start, i as nat), 1nat));
            assert(advance_spec(advance_spec(start, i as nat), 1nat) == advance_spec(
                start,
                (i + 1) as nat,
            )) by {
                crate::hashing::lemma_advance_add(start, i as nat, 1nat);
            }
        }
        ticks.push(new_tick);
        proof {
            assert(entries_view(ticks@) =~= before.push(new_tick@));
        }
        i += 1;
    }
    proof {
        let views = entries_view(ticks@);
        assert forall|i: int| 0 <= i < views.len() implies verify_spec(
            #[trigger] views[i],
            prev_of(views, start, i),
        ) by {
            assert(prev_of(views, start, i) == advance_spec(start, i as nat));
            assert(next_hash_spec(advance_spec(start, i as nat), 1, views[i].transactions)
                == advance_spec(advance_spec(start, i as nat), 1nat));
            crate::hashing::lemma_advance_add(start, i as nat, 1nat);
        }
    }
    ticks
}

/// An entry built by the construction rule verifies against the hash it was
/// built from, whatever hash count and transactions were supplied: the
/// promoted hash count recomputes the same chain value as the original one.
pub proof fn lemma_construction_verifies(start: Seq<u8>, num_hashes: u64, txs: Seq<TxView>)
    ensures
        next_hash_spec(start, effective_num_hashes(num_hashes, txs.len()), txs) == next_hash_spec(
            start,
            num_hashes,
            txs,
        ),
{
}

/// A degenerate link, with no hash applications and no transactions,
/// verifies against exactly one starting hash: the hash it carries.
pub proof fn lemma_degenerate_entry_pins_start(e: EntryView, start: Seq<u8>)
    requires
        e.num_hashes == 0,
        e.transactions.len() == 0,
    ensures
        verify_spec(e, start) <==> start == e.hash,
{
}

/// Corrupting the hash of any one entry of a verified sequence, while
/// keeping its hash count and transactions, makes the sequence fail
/// verification.
pub proof fn lemma_corrupt_hash_breaks_slice(
    entries: Seq<EntryView>,
    corrupted: Seq<EntryView>,
    start: Seq<u8>,
    i: int,
)
    requires
        slice_verified(entries, start),
        0 <= i < entries.len(),
        corrupted.len() == entries.len(),
        forall|j: int| 0 <= j < entries.len() && j != i ==> corrupted[j] == #[trigger] entries[j],
        corrupted[i].num_hashes == entries[i].num_hashes,
        corrupted[i].transactions == entries[i].transactions,
        corrupted[i].hash != entries[i].hash,
    ensures
        !slice_verified(corrupted, start),
{
    assert(prev_of(corrupted, start, i) == prev_of(entries, start, i));
    assert(verify_spec(entries[i], prev_of(entries, start, i)));
    assert(!verify_spec(corrupted[i], prev_of(corrupted, start, i)));
}

} // verus!

verus! {

/// Copies a run of transactions.
fn dup_transactions(transactions: &[Transaction]) -> (r: Vec<Transaction>)
    ensures
        txs_view(r@) == txs_view(transactions@),
{
    let mut out: Vec<Transaction> = Vec::new();
    let mut i: usize = 0;
    while i < transactions.len()
        invariant
            i <= transactions@.len(),
            out@.len() == i,
            forall|j: int| 0 <= j < i ==> (#[trigger] out@[j])@ == transactions@[j]@,
        decreases transactions@.len() - i,
    {
        out.push(transactions[i].dup());
        i += 1;
    }
    proof {
        assert(txs_view(out@) =~= txs_view(transactions@));
    }
    out
}

/// How a run of entries packs an ordered transaction sequence: the entries'
/// transaction runs concatenate back to the sequence, each entry chains from
/// its predecessor by the construction rule, the first one spending the
/// initial pending hash count and every later one a single hash application,
/// and no entry could have taken the transaction that follows it.
pub open spec fn next_entries_post(
    es: Seq<EntryView>,
    chunks: Seq<Seq<TxView>>,
    start: Seq<u8>,
    num0: u64,
    txs: Seq<TxView>,
) -> bool {
    &&& chunks.flatten() == txs
    &&& es.len() == chunks.len()
    &&& forall|i: int| 0 <= i < chunks.len() ==> (#[trigger] chunks[i]).len() > 0
    &&& forall|i: int| 0 <= i < es.len() ==> (#[trigger] es[i]).transactions == chunks[i]
    &&& forall|i: int|
        0 <= i < es.len() ==> (#[trigger] es[i]).num_hashes == effective_num_hashes(
            if i == 0 {
                num0
            } else {
                0
            },
            chunks[i].len(),
        )
    &&& forall|i: int|
        0 <= i < es.len() ==> (#[trigger] es[i]).hash == next_hash_spec(
            if i == 0 {
                start
            } else {
                es[i - 1].hash
            },
            if i == 0 {
                num0
            } else {
                0
            },
            chunks[i],
        )
    &&& forall|i: int| 0 <= i < es.len() ==> entry_wf(#[trigger] es[i])
    &&& forall|i: int|
        0 <= i < es.len() - 1 ==> 56 + txs_encoded_len((#[trigger] chunks[i]).push(
            chunks[i + 1][0],
        )) > BLOB_DATA_SIZE
}

/// Packs the transactions into consecutive entries, each as full as the
/// network unit's payload allows, chained from the cursor: the cursor's
/// hash moves to the last entry's hash and its pending count is spent by
/// the first entry. No transactions give no entries and leave the cursor
/// untouched.
#[verifier::loop_isolation(false)]
#[verifier::rlimit(60)]
pub fn next_entries_mut(
    start_hash: &mut HashValue,
    num_hashes: &mut u64,
    transactions: Vec<Transaction>,
) -> (r: Vec<Entry>)
    requires
        old(start_hash).wf(),
        txs_all_wf(txs_view(transactions@)),
        forall|i: int|
            0 <= i < transactions@.len() ==> 56 + crate::codec::tx_encoded_len(
                #[trigger] txs_view(transactions@)[i],
            ) <= BLOB_DATA_SIZE,
    ensures
        exists|chunks: Seq<Seq<TxView>>|
            next_entries_post(
                entries_view(r@),
                chunks,
                old(start_hash)@,
                *old(num_hashes),
                txs_view(transactions@),
            ),
        slice_verified(entries_view(r@), old(start_hash)@),
        (r@.len() == 0) <==> (transactions@.len() == 0),
        final(start_hash).wf(),
        r@.len() == 0 ==> final(start_hash)@ == old(start_hash)@ && *final(num_hashes) == *old(
            num_hashes,
        ),
        r@.len() > 0 ==> final(start_hash)@ == entries_view(r@).last().hash && *final(num_hashes)
            == 0,
{
    let ghost txs = txs_view(transactions@);
    let ghost start0 = old(start_hash)@;
    let ghost num0 = *old(num_hashes);
    let size_fn = |s: &[Transaction]| -> (r: u64)
        ensures
            r as int == crate::codec::sat_u64(56 + txs_encoded_len(txs_view(s@))),
        { Entry::serialized_to_blob_size(s) };
    let mut out: Vec<Entry> = Vec::new();
    let ghost mut chunks: Seq<Seq<TxView>> = Seq::empty();
    let mut chunk_start: usize = 0;
    proof {
        assert(chunks.flatten() =~= txs.take(0));
    }
    while chunk_start < transactions.len()
        invariant
            chunk_start <= transactions@.len(),
            chunks.flatten() == txs.take(chunk_start as int),
            out@.len() == chunks.len(),
            (out@.len() == 0) <==> (chunk_start == 0),
            forall|i: int| 0 <= i < chunks.len() ==> (#[trigger] chunks[i]).len() > 0,
            forall|i: int|
                0 <= i < out@.len() ==> (#[trigger] entries_view(out@)[i]).transactions
                    == chunks[i],
            forall|i: int|
                0 <= i < out@.len() ==> (#[trigger] entries_view(out@)[i]).num_hashes
                    == effective_num_hashes(
                    if i == 0 {
                        num0
                    } else {
                        0
                    },
                    chunks[i].len(),
                ),
            forall|i: int|
                0 <= i < out@.len() ==> (#[trigger] entries_view(out@)[i]).hash == next_hash_spec(
                    if i == 0 {
                        start0
                    } else {
                        entries_view(out@)[i - 1].hash
                    },
                    if i == 0 {
                        num0
                    } else {
                        0
                    },
                    chunks[i],
                ),
            forall|i: int| 0 <= i < out@.len() ==> entry_wf(#[trigger] entries_view(out@)[i]),
            forall|i: int|
                0 <= i < out@.len() - 1 ==> 56 + txs_encoded_len((#[trigger] chunks[i]).push(
                    chunks[i + 1][0],
                )) > BLOB_DATA_SIZE,
            chunks.len() > 0 && chunk_start < txs.len() ==> 56 + txs_encoded_len(
                chunks[chunks.len() - 1].push(txs[chunk_start as int]),
            ) > BLOB_DATA_SIZE,
            start_hash.wf(),
            out@.len() == 0 ==> start_hash@ == start0 && *num_hashes == num0,
            out@.len() > 0 ==> start_hash@ == entries_view(out@).last().hash && *num_hashes == 0,
        decreases transactions@.len() - chunk_start,
    {
        let remaining = &transactions[chunk_start..transactions.len()];
        let ghost rem = txs_view(remaining@);
        proof {
            assert(rem =~= txs.skip(chunk_start as int));
        }
        let fit = crate::chunking::num_will_fit(
            remaining,
            BLOB_DATA_SIZE as u64,
            size_fn,
        );
        proof {
            if fit == 0 {
                let r0 = choose|r: u64|
                    crate::chunking::measured_size(size_fn, remaining@.take(1), r) && r
                        > BLOB_DATA_SIZE as u64;
                assert(txs_view(remaining@.take(1)) =~= seq![txs[chunk_start as int]]);
                assert(seq![txs[chunk_start as int]][0] == txs[chunk_start as int]);
                assert(seq![txs[chunk_start as int]].drop_first() =~= Seq::<TxView>::empty());
                assert(txs_encoded_len(Seq::<TxView>::empty()) == 0);
                assert(txs_encoded_len(seq![txs[chunk_start as int]])
                    == crate::codec::tx_encoded_len(txs[chunk_start as int]));
                assert(r0 as int == crate::codec::sat_u64(
                    56 + crate::codec::tx_encoded_len(txs[chunk_start as int]),
                ));
                assert(false);
            }
        }
        let chunk_end = chunk_start + fit;
        let chunk_slice = &transactions[chunk_start..chunk_end];
        let ghost this_chunk = txs_view(chunk_slice@);
        proof {
            assert(this_chunk =~= rem.take(fit as int));
            assert(this_chunk =~= txs.subrange(chunk_start as int, chunk_end as int));
            assert(crate::chunking::prefix_fits(
                size_fn,
                remaining@,
                fit as int,
                BLOB_DATA_SIZE as u64,
            ));
            let ghost taken = remaining@.take(fit as int);
            let rf = choose|r: u64|
                crate::chunking::measured_size(size_fn, taken, r) && r <= BLOB_DATA_SIZE as u64;
            assert(txs_view(taken) =~= this_chunk);
            assert(rf as int == crate::codec::sat_u64(56 + txs_encoded_len(this_chunk)));
            crate::codec::lemma_txs_encoded_len_nonneg(this_chunk);
            assert(56 + txs_encoded_len(this_chunk) <= BLOB_DATA_SIZE);
            assert(txs_all_wf(this_chunk));
        }
        let chunk_txs = dup_transactions(chunk_slice);
        let ghost old_out = out@;
        let ghost prev_hash_val = start_hash@;
        let ghost prev_num = *num_hashes;
        let entry = Entry::new_mut(start_hash, num_hashes, chunk_txs);
        out.push(entry);
        proof {
            let old_chunks = chunks;
            chunks = chunks.push(this_chunk);
            old_chunks.lemma_flatten_push(this_chunk);
            assert(chunks.flatten() =~= txs.take(chunk_end as int));
            assert(entries_view(out@) =~= entries_view(old_out).push(out@.last()@));
            if chunk_end < txs.len() {
                assert(crate::chunking::prefix_exceeds(
                    size_fn,
                    remaining@,
                    fit as int + 1,
                    BLOB_DATA_SIZE as u64,
                ));
                let ghost ext = remaining@.take(fit as int + 1);
                let re = choose|r: u64|
                    crate::chunking::measured_size(size_fn, ext, r) && r > BLOB_DATA_SIZE as u64;
                assert(txs_view(ext) =~= this_chunk.push(txs[chunk_end as int]));
                assert(re as int == crate::codec::sat_u64(
                    56 + txs_encoded_len(this_chunk.push(txs[chunk_end as int])),
                ));
                assert(56 + txs_encoded_len(this_chunk.push(txs[chunk_end as int]))
                    > BLOB_DATA_SIZE);
            }
            assert forall|i: int| 0 <= i < out@.len() - 1 implies 56 + txs_encoded_len(
                (#[trigger] chunks[i]).push(chunks[i + 1][0]),
            ) > BLOB_DATA_SIZE by {
                if i < old_chunks.len() - 1 {
                    assert(chunks[i] == old_chunks[i]);
                    assert(chunks[i + 1] == old_chunks[i + 1]);
                } else {
                    assert(chunks[i] == old_chunks[old_chunks.len() - 1]);
                    assert(chunks[i + 1] == this_chunk);
                    assert(this_chunk[0] == rem[0]);
                    assert(rem[0] == txs[chunk_start as int]);
                }
            }
        }
        chunk_start = chunk_end;
    }
    proof {
        assert(txs.take(chunk_start as int) =~= txs);
        assert(next_entries_post(entries_view(out@), chunks, start0, num0, txs));
        let es = entries_view(out@);
        assert forall|i: int| 0 <= i < es.len() implies verify_spec(
            #[trigger] es[i],
            prev_of(es, start0, i),
        ) by {
            lemma_construction_verifies(
                prev_of(es, start0, i),
                if i == 0 {
                    num0
                } else {
                    0
                },
                chunks[i],
            );
        }
    }
    out
}

/// Packs the transactions into consecutive entries chained from
/// `start_hash`, the first entry spending `num_hashes` hash applications.
pub fn next_entries(start_hash: &HashValue, num_hashes: u64, transactions: Vec<Transaction>) -> (r:
    Vec<Entry>)
    requires
        start_hash.wf(),
        txs_all_wf(txs_view(transactions@)),
        forall|i: int|
            0 <= i < transactions@.len() ==> 56 + crate::codec::tx_encoded_len(
                #[trigger] txs_view(transactions@)[i],
            ) <= BLOB_DATA_SIZE,
    ensures
        exists|chunks: Seq<Seq<TxView>>|
            next_entries_post(
                entries_view(r@),
                chunks,
                start_hash@,
                num_hashes,
                txs_view(transactions@),
            ),
        slice_verified(entries_view(r@), start_hash@),
        (r@.len() == 0) <==> (transactions@.len() == 0),
{
    let mut hash = start_hash.dup();
    let mut num = num_hashes;
    next_entries_mut(&mut hash, &mut num, transactions)
}

} // verus!
