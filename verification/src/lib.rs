//! Proof-of-History core: a verifiable hash chain of entries, the packing of
//! entry sequences into size-bounded units, and the recorder that interleaves
//! ticks with transaction records.
pub mod blob;
pub mod bs91;
pub mod chunking;
pub mod codec;
pub mod config;
pub mod compression;
pub mod entry;
pub mod hashing;
pub mod history;
pub mod poh;
pub mod poh_recorder;
pub mod poh_service;
pub mod retry;
pub mod short_vec;
pub mod transaction;
