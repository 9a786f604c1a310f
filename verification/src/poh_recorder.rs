//! The recorder: the lock-guarded mediator between the tick thread and
//! transaction-recording callers. It owns the chain cursor, interleaves
//! ticks and data entries in chain order, and tracks the working context
//! of the block being produced.
use vstd::prelude::*;
use crate::entry::{effective_num_hashes, next_hash_spec, verify_spec, Entry};
use crate::hashing::{advance_spec, lemma_advance_add, sha256_of, HashValue};
use crate::poh::Poh;
use crate::transaction::{sig_concat, txs_view, Transaction};

verus! {

/// The working context: which slot the recorder is producing entries for,
/// and the tick-height bounds of that block.
#[derive(Debug, Clone, Copy, PartialEq, Eq, Structural)]
pub struct WorkingBank {
    pub slot: u64,
    pub min_tick_height: u64,
    pub max_tick_height: u64,
}

/// Why a record request was rejected: the caller must retry on a new block.
#[derive(Debug, Clone, Copy, PartialEq, Eq, Structural)]
pub enum PohRecorderError {
    /// No working context is installed.
    NoWorkingBank,
    /// The request names a slot other than the working context's.
    SlotMismatch,
    /// The block already reached its maximum tick height.
    MaxHeightReached,
}

/// The recorder's state: the chain cursor, the tick height reached so far,
/// and the working context, if a block is being produced. The ghost
/// `last_emitted` value is the chain hash of the last emitted entry, which
/// every new emission verifies against.
pub struct PohRecorder {
    pub poh: Poh,
    pub tick_height: u64,
    pub working_bank: Option<WorkingBank>,
    pub last_emitted: Ghost<Seq<u8>>,
}

impl PohRecorder {
    /// The cursor holds exactly the hashes accumulated since the last
    /// emission, applied to the last emitted chain value.
    pub open spec fn wf(&self) -> bool {
        &&& self.poh.wf()
        &&& self.poh.hash@ == advance_spec(self.last_emitted@, self.poh.num_hashes as nat)
    }

    /// A fresh recorder at the given tick height whose chain continues from
    /// `last_entry_hash`, with no working context installed.
    pub fn new(tick_height: u64, last_entry_hash: HashValue) -> (r: PohRecorder)
        requires
            last_entry_hash.wf(),
        ensures
            r.tick_height == tick_height,
            r.poh.hash@ == last_entry_hash@,
            r.poh.num_hashes == 0,
            r.working_bank is None,
            r.last_emitted@ == last_entry_hash@,
            r.wf(),
    {
        let ghost view = last_entry_hash@;
        let poh = Poh::new(last_entry_hash);
        PohRecorder { poh, tick_height, working_bank: None, last_emitted: Ghost(view) }
    }

    /// Installs the working context for the block being produced; records
    /// can succeed for its slot from here on.
    pub fn set_working_bank(&mut self, working_bank: WorkingBank)
        requires
            old(self).wf(),
        ensures
            final(self).working_bank == Some(working_bank),
            final(self).poh == old(self).poh,
            final(self).tick_height == old(self).tick_height,
            final(self).last_emitted == old(self).last_emitted,
            final(self).wf(),
    {
        self.working_bank = Some(working_bank);
    }

    /// Advances the cursor by `n` hash applications without emitting: the
    /// tick thread calls this in bounded batches to keep lock hold times
    /// short.
    pub fn hash(&mut self, n: u64)
        requires
            old(self).wf(),
            old(self).poh.num_hashes + n <= u64::MAX,
        ensures
            final(self).poh.hash@ == advance_spec(old(self).poh.hash@, n as nat),
            final(self).poh.num_hashes == old(self).poh.num_hashes + n,
            final(self).tick_height == old(self).tick_height,
            final(self).working_bank == old(self).working_bank,
            final(self).last_emitted == old(self).last_emitted,
            final(self).wf(),
    {
        self.poh.hash(n);
        proof {
            lemma_advance_add(
                self.last_emitted@,
                old(self).poh.num_hashes as nat,
                n as nat,
            );
        }
    }

    /// Emits the tick that closes the current interval: a tick entry
    /// carrying every hash accumulated since the last emission, which
    /// verifies against that emission's hash. Advances the tick height;
    /// reaching the working context's maximum tick height completes the
    /// block and clears the context, after which records are rejected
    /// until a new context is installed.
    pub fn tick(&mut self) -> (r: Entry)
        requires
            old(self).wf(),
            old(self).poh.num_hashes < u64::MAX,
            old(self).tick_height < u64::MAX,
        ensures
            r@.num_hashes == old(self).poh.num_hashes + 1,
            r@.transactions.len() == 0,
            r@.hash == advance_spec(old(self).poh.hash@, 1nat),
            verify_spec(r@, old(self).last_emitted@),
            final(self).tick_height == old(self).tick_height + 1,
            final(self).poh.num_hashes == 0,
            final(self).poh.hash@ == r@.hash,
            final(self).last_emitted@ == r@.hash,
            final(self).working_bank == (match old(self).working_bank {
                Some(wb) => if old(self).tick_height + 1 >= wb.max_tick_height {
                    None::<WorkingBank>
                } else {
                    Some(wb)
                },
                None => None::<WorkingBank>,
            }),
            final(self).wf(),
    {
        let poh_entry = self.poh.tick();
        let entry = Entry {
            num_hashes: poh_entry.num_hashes,
            hash: poh_entry.hash,
            transactions: Vec::new(),
        };
        proof {
            lemma_advance_add(self.last_emitted@, old(self).poh.num_hashes as nat, 1nat);
            assert(entry@.transactions =~= Seq::<crate::transaction::TxView>::empty());
        }
        self.last_emitted = Ghost(entry.hash@);
        self.tick_height = self.tick_height + 1;
        let clear = match &self.working_bank {
            Some(wb) => self.tick_height >= wb.max_tick_height,
            None => false,
        };
        if clear {
            self.working_bank = None;
        }
        entry
    }

    /// Records a transaction batch into the chain: when `slot` matches the
    /// working context of a block that is not yet complete, consumes the
    /// pending hash count, mixes `mixin` into the chain as the final
    /// application, and emits the data entry. When `mixin` is the digest of
    /// the transactions' signatures and one of them carries a signature,
    /// that entry verifies against the last emission. Rejected, leaving the
    /// state untouched, exactly when no context is installed, the slot does
    /// not match, or the block is complete.
    pub fn record(&mut self, slot: u64, mixin: &HashValue, transactions: Vec<Transaction>) -> (r:
        Result<Entry, PohRecorderError>)
        requires
            old(self).wf(),
            old(self).poh.num_hashes < u64::MAX,
        ensures
            r matches Err(PohRecorderError::NoWorkingBank) <==> old(self).working_bank is None,
            r matches Err(PohRecorderError::SlotMismatch) <==> (old(self).working_bank matches Some(
                wb,
            ) && wb.slot != slot),
            r matches Err(PohRecorderError::MaxHeightReached) <==> (old(
                self,
            ).working_bank matches Some(wb) && wb.slot == slot && old(self).tick_height
                >= wb.max_tick_height),
            r is Err ==> *final(self) == *old(self),
            r matches Ok(entry) ==> {
                &&& entry@.num_hashes == old(self).poh.num_hashes + 1
                &&& entry@.hash == crate::hashing::mix_spec(old(self).poh.hash@, mixin@)
                &&& entry@.transactions == txs_view(transactions@)
                &&& final(self).poh.num_hashes == 0
                &&& final(self).poh.hash@ == entry@.hash
                &&& final(self).last_emitted@ == entry@.hash
                &&& final(self).tick_height == old(self).tick_height
                &&& final(self).working_bank == old(self).working_bank
                &&& ((mixin@ == sha256_of(sig_concat(txs_view(transactions@))) && sig_concat(
                    txs_view(transactions@),
                ).len() > 0) ==> verify_spec(entry@, old(self).last_emitted@))
            },
            final(self).wf(),
    {
        let max_reached: bool;
        match &self.working_bank {
            None => {
                return Err(PohRecorderError::NoWorkingBank);
            },
            Some(wb) => {
                if wb.slot != slot {
                    return Err(PohRecorderError::SlotMismatch);
                }
                max_reached = self.tick_height >= wb.max_tick_height;
            },
        }
        if max_reached {
            return Err(PohRecorderError::MaxHeightReached);
        }
        let poh_entry = self.poh.record(mixin);
        let entry = Entry {
            num_hashes: poh_entry.num_hashes,
            hash: poh_entry.hash,
            transactions,
        };
        self.last_emitted = Ghost(entry.hash@);
        proof {
            let txs = txs_view(entry.transactions@);
            if mixin@ == sha256_of(sig_concat(txs)) && sig_concat(txs).len() > 0 {
                assert(entry@.num_hashes == old(self).poh.num_hashes + 1);
                assert(txs.len() > 0) by {
                    if txs.len() == 0 {
                        assert(sig_concat(txs).len() == 0);
                    }
                }
                assert(next_hash_spec(old(self).last_emitted@, entry@.num_hashes, txs)
                    == crate::hashing::mix_spec(
                    advance_spec(old(self).last_emitted@, old(self).poh.num_hashes as nat),
                    sha256_of(sig_concat(txs)),
                ));
            }
        }
        Ok(entry)
    }
}

} // verus!
