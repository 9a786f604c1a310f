//! The chain cursor: the current hash and the count of hash applications
//! accumulated since the last emitted entry.
use vstd::prelude::*;
use crate::hashing::{advance, advance_spec, mix, mix_spec, HashValue};

verus! {

/// What one advance of the cursor hands back: the hash count the entry
/// records and the chain value it carries.
pub struct PohEntry {
    pub num_hashes: u64,
    pub hash: HashValue,
}

/// The hash chain's cursor: `hash` is the current chain value, `num_hashes`
/// the applications accumulated since the last emission.
pub struct Poh {
    pub hash: HashValue,
    pub num_hashes: u64,
}

impl Poh {
    pub open spec fn wf(&self) -> bool {
        self.hash.wf()
    }

    /// A fresh cursor at the given chain value with nothing accumulated.
    pub fn new(hash: HashValue) -> (r: Poh)
        requires
            hash.wf(),
        ensures
            r.hash@ == hash@,
            r.num_hashes == 0,
            r.wf(),
    {
        Poh { hash, num_hashes: 0 }
    }

    /// Advances the cursor by `n` hash applications without emitting.
    pub fn hash(&mut self, n: u64)
        requires
            old(self).wf(),
            old(self).num_hashes + n <= u64::MAX,
        ensures
            final(self).hash@ == advance_spec(old(self).hash@, n as nat),
            final(self).num_hashes == old(self).num_hashes + n,
            final(self).wf(),
    {
        let new_hash = advance(&self.hash, n);
        self.hash = new_hash;
        self.num_hashes = self.num_hashes + n;
    }

    /// One final plain hash application that closes a tick: hands back all
    /// accumulated applications and resets the count.
    pub fn tick(&mut self) -> (r: PohEntry)
        requires
            old(self).wf(),
            old(self).num_hashes < u64::MAX,
        ensures
            final(self).hash@ == advance_spec(old(self).hash@, 1nat),
            final(self).num_hashes == 0,
            final(self).wf(),
            r.num_hashes == old(self).num_hashes + 1,
            r.hash@ == final(self).hash@,
            r.hash.wf(),
    {
        let new_hash = advance(&self.hash, 1);
        let num_hashes = self.num_hashes + 1;
        self.hash = new_hash;
        self.num_hashes = 0;
        PohEntry { num_hashes, hash: self.hash.dup() }
    }

    /// One final mixing application that closes a data entry: folds `mixin`
    /// into the chain, hands back all accumulated applications and resets
    /// the count.
    pub fn record(&mut self, mixin: &HashValue) -> (r: PohEntry)
        requires
            old(self).wf(),
            old(self).num_hashes < u64::MAX,
        ensures
            final(self).hash@ == mix_spec(old(self).hash@, mixin@),
            final(self).num_hashes == 0,
            final(self).wf(),
            r.num_hashes == old(self).num_hashes + 1,
            r.hash@ == final(self).hash@,
            r.hash.wf(),
    {
        let new_hash = mix(&self.hash, mixin);
        let num_hashes = self.num_hashes + 1;
        self.hash = new_hash;
        self.num_hashes = 0;
        PohEntry { num_hashes, hash: self.hash.dup() }
    }
}

} // verus!
