//! The hash-chain primitive: a 256-bit chain value advanced by iterated
//! SHA-256, with a mixing step that folds a digest into the chain.
use vstd::prelude::*;

verus! {

/// The byte length of a chain hash value: the output size of SHA-256.
pub const HASH_BYTES: usize = 32;

/// The SHA-256 digest of a byte sequence, as the `sha2` crate computes it:
/// a function of the input bytes alone.
pub uninterp spec fn sha256_of(bytes: Seq<u8>) -> Seq<u8>;

/// A 256-bit value of the hash chain.
#[derive(Debug, Clone)]
pub struct HashValue {
    pub bytes: Vec<u8>,
}

impl View for HashValue {
    type V = Seq<u8>;

    open spec fn view(&self) -> Seq<u8> {
        self.bytes@
    }
}

/// The all-zero hash value, the conventional seed of a fresh chain.
pub open spec fn zero_hash() -> Seq<u8> {
    Seq::new(HASH_BYTES as nat, |i: int| 0u8)
}

impl HashValue {
    /// A hash value is well formed when it holds exactly `HASH_BYTES` bytes.
    pub open spec fn wf(&self) -> bool {
        self@.len() == HASH_BYTES
    }

    /// Wraps raw bytes as a chain value.
    pub fn from_bytes(bytes: Vec<u8>) -> (r: HashValue)
        requires
            bytes@.len() == HASH_BYTES,
        ensures
            r@ == bytes@,
            r.wf(),
    {
        HashValue { bytes }
    }

    /// An exact copy of this hash value.
    pub fn dup(&self) -> (r: HashValue)
        ensures
            r@ == self@,
    {
        HashValue { bytes: vstd::slice::slice_to_vec(self.bytes.as_slice()) }
    }
}

impl Default for HashValue {
    /// The all-zero hash value.
    fn default() -> (r: HashValue)
        ensures
            r@ == zero_hash(),
            r.wf(),
    {
        let mut bytes: Vec<u8> = Vec::new();
        let mut i: usize = 0;
        while i < HASH_BYTES
            invariant
                i <= HASH_BYTES,
                bytes@.len() == i,
                forall|j: int| 0 <= j < i ==> bytes@[j] == 0u8,
            decreases HASH_BYTES - i,
        {
            bytes.push(0u8);
            i += 1;
        }
        proof {
            assert(bytes@ =~= zero_hash());
        }
        HashValue { bytes }
    }
}

impl PartialEq for HashValue {
    fn eq(&self, other: &HashValue) -> (r: bool) {
        bytes_eq(self.bytes.as_slice(), other.bytes.as_slice())
    }
}

impl Eq for HashValue {}

impl vstd::std_specs::cmp::PartialEqSpecImpl for HashValue {
    open spec fn obeys_eq_spec() -> bool {
        true
    }

    open spec fn eq_spec(&self, other: &HashValue) -> bool {
        self@ == other@
    }
}

/// Whether two byte slices hold the same bytes.
pub fn bytes_eq(a: &[u8], b: &[u8]) -> (r: bool)
    ensures
        r == (a@ == b@),
{
    if a.len() != b.len() {
        proof {
            assert(a@.len() != b@.len());
        }
        return false;
    }
    let mut i: usize = 0;
    while i < a.len()
        invariant
            i <= a@.len(),
            a@.len() == b@.len(),
            forall|j: int| 0 <= j < i ==> a@[j] == b@[j],
        decreases a@.len() - i,
    {
        if a[i] != b[i] {
            return false;
        }
        i += 1;
    }
    proof {
        assert(a@ =~= b@);
    }
    true
}

/// Relies on `sha2::Sha256::digest`: the 32-byte SHA-256 digest of the
/// input bytes, a function of the input alone.
#[verifier::external_body]
pub fn sha256(input: &[u8]) -> (r: HashValue)
    ensures
        r@ == sha256_of(input@),
        r.wf(),
{
    HashValue { bytes: <sha2::Sha256 as sha2::Digest>::digest(input).to_vec() }
}

/// The chain value after `n` hash applications starting from `h`, each one
/// the SHA-256 digest of the previous value.
pub open spec fn advance_spec(h: Seq<u8>, n: nat) -> Seq<u8>
    decreases n,
{
    if n == 0 {
        h
    } else {
        sha256_of(advance_spec(h, (n - 1) as nat))
    }
}

/// Applies the one-way hash `n` times starting from `h`.
pub fn advance(h: &HashValue, n: u64) -> (r: HashValue)
    ensures
        r@ == advance_spec(h@, n as nat),
        n > 0 ==> r.wf(),
        h.wf() ==> r.wf(),
{
    let mut cur = h.dup();
    let mut i: u64 = 0;
    while i < n
        invariant
            i <= n,
            cur@ == advance_spec(h@, i as nat),
            i > 0 ==> cur.wf(),
            h.wf() ==> cur.wf(),
        decreases n - i,
    {
        cur = sha256(cur.bytes.as_slice());
        i += 1;
    }
    cur
}

/// Advancing by `m` and then `n` applications equals advancing by `m + n`.
pub proof fn lemma_advance_add(h: Seq<u8>, m: nat, n: nat)
    ensures
        advance_spec(advance_spec(h, m), n) == advance_spec(h, m + n),
    decreases n,
{
    if n > 0 {
        lemma_advance_add(h, m, (n - 1) as nat);
    }
}

/// One hash application whose input is the concatenation of `state` and
/// `data`: the mixing step that folds a digest into the chain.
pub open spec fn mix_spec(state: Seq<u8>, data: Seq<u8>) -> Seq<u8> {
    sha256_of(state + data)
}

/// Folds `data` into `state` by one hash application over their concatenation.
pub fn mix(state: &HashValue, data: &HashValue) -> (r: HashValue)
    ensures
        r@ == mix_spec(state@, data@),
        r.wf(),
{
    let mut input: Vec<u8> = vstd::slice::slice_to_vec(state.bytes.as_slice());
    input.extend_from_slice(data.bytes.as_slice());
    proof {
        assert(input@ =~= state@ + data@);
    }
    sha256(input.as_slice())
}

} // verus!
