//! The transaction records an entry carries: each is an ordered list of
//! signatures plus an opaque message body. The chain reads only the first
//! signature of each transaction; the message matters only for byte size.
use vstd::prelude::*;

verus! {

/// The byte length of a signature.
pub const SIGNATURE_BYTES: usize = 64;

/// The byte length of an account address.
pub const PUBKEY_BYTES: usize = 32;

/// A transaction signature: 64 raw bytes.
#[derive(Debug, Clone)]
pub struct Signature {
    pub bytes: Vec<u8>,
}

impl View for Signature {
    type V = Seq<u8>;

    open spec fn view(&self) -> Seq<u8> {
        self.bytes@
    }
}

impl Signature {
    pub open spec fn wf(&self) -> bool {
        self@.len() == SIGNATURE_BYTES
    }

    pub fn from_bytes(bytes: Vec<u8>) -> (r: Signature)
        requires
            bytes@.len() == SIGNATURE_BYTES,
        ensures
            r@ == bytes@,
            r.wf(),
    {
        Signature { bytes }
    }

    pub fn dup(&self) -> (r: Signature)
        ensures
            r@ == self@,
    {
        Signature { bytes: vstd::slice::slice_to_vec(self.bytes.as_slice()) }
    }
}

impl Default for Signature {
    /// The all-zero signature.
    fn default() -> (r: Signature)
        ensures
            r@ == Seq::new(SIGNATURE_BYTES as nat, |i: int| 0u8),
            r.wf(),
    {
        let bytes = zero_bytes(SIGNATURE_BYTES);
        Signature { bytes }
    }
}

impl PartialEq for Signature {
    fn eq(&self, other: &Signature) -> (r: bool) {
        crate::hashing::bytes_eq(self.bytes.as_slice(), other.bytes.as_slice())
    }
}

impl Eq for Signature {}

impl vstd::std_specs::cmp::PartialEqSpecImpl for Signature {
    open spec fn obeys_eq_spec() -> bool {
        true
    }

    open spec fn eq_spec(&self, other: &Signature) -> bool {
        self@ == other@
    }
}

/// An account address: 32 raw bytes.
#[derive(Debug, Clone)]
pub struct Pubkey {
    pub bytes: Vec<u8>,
}

impl View for Pubkey {
    type V = Seq<u8>;

    open spec fn view(&self) -> Seq<u8> {
        self.bytes@
    }
}

impl Pubkey {
    pub open spec fn wf(&self) -> bool {
        self@.len() == PUBKEY_BYTES
    }

    pub fn from_bytes(bytes: Vec<u8>) -> (r: Pubkey)
        requires
            bytes@.len() == PUBKEY_BYTES,
        ensures
            r@ == bytes@,
            r.wf(),
    {
        Pubkey { bytes }
    }

    pub fn dup(&self) -> (r: Pubkey)
        ensures
            r@ == self@,
    {
        Pubkey { bytes: vstd::slice::slice_to_vec(self.bytes.as_slice()) }
    }
}

impl Default for Pubkey {
    /// The all-zero address.
    fn default() -> (r: Pubkey)
        ensures
            r@ == Seq::new(PUBKEY_BYTES as nat, |i: int| 0u8),
            r.wf(),
    {
        let bytes = zero_bytes(PUBKEY_BYTES);
        Pubkey { bytes }
    }
}

impl PartialEq for Pubkey {
    fn eq(&self, other: &Pubkey) -> (r: bool) {
        crate::hashing::bytes_eq(self.bytes.as_slice(), other.bytes.as_slice())
    }
}

impl Eq for Pubkey {}

impl vstd::std_specs::cmp::PartialEqSpecImpl for Pubkey {
    open spec fn obeys_eq_spec() -> bool {
        true
    }

    open spec fn eq_spec(&self, other: &Pubkey) -> bool {
        self@ == other@
    }
}

/// A vector of `n` zero bytes.
pub fn zero_bytes(n: usize) -> (r: Vec<u8>)
    ensures
        r@ == Seq::new(n as nat, |i: int| 0u8),
{
    let mut bytes: Vec<u8> = Vec::new();
    let mut i: usize = 0;
    while i < n
        invariant
            i <= n,
            bytes@.len() == i,
            forall|j: int| 0 <= j < i ==> bytes@[j] == 0u8,
        decreases n - i,
    {
        bytes.push(0u8);
        i += 1;
    }
    proof {
        assert(bytes@ =~= Seq::new(n as nat, |i: int| 0u8));
    }
    bytes
}

/// The abstract value of a transaction.
pub ghost struct TxView {
    pub signatures: Seq<Seq<u8>>,
    pub message: Seq<u8>,
}

/// A transaction record: its signatures, in order, and its message bytes.
#[derive(Debug, Clone)]
pub struct Transaction {
    pub signatures: Vec<Signature>,
    pub message: Vec<u8>,
}

impl View for Transaction {
    type V = TxView;

    open spec fn view(&self) -> TxView {
        TxView {
            signatures: self.signatures@.map_values(|s: Signature| s@),
            message: self.message@,
        }
    }
}

impl Transaction {
    pub open spec fn wf(&self) -> bool {
        forall|i: int| 0 <= i < self@.signatures.len() ==> (#[trigger] self@.signatures[i]).len()
            == SIGNATURE_BYTES
    }

    pub fn new(signatures: Vec<Signature>, message: Vec<u8>) -> (r: Transaction)
        ensures
            r.signatures@ == signatures@,
            r.message@ == message@,
            r@.signatures == signatures@.map_values(|s: Signature| s@),
            r@.message == message@,
    {
        Transaction { signatures, message }
    }

    pub fn dup(&self) -> (r: Transaction)
        ensures
            r@ == self@,
    {
        let mut signatures: Vec<Signature> = Vec::new();
        let mut i: usize = 0;
        while i < self.signatures.len()
            invariant
                i <= self.signatures@.len(),
                signatures@.len() == i,
                forall|j: int| 0 <= j < i ==> (#[trigger] signatures@[j])@
                    == self.signatures@[j]@,
            decreases self.signatures@.len() - i,
        {
            signatures.push(self.signatures[i].dup());
            i += 1;
        }
        let message = vstd::slice::slice_to_vec(self.message.as_slice());
        let r = Transaction { signatures, message };
        proof {
            assert(r@.signatures =~= self@.signatures);
            assert(r@ == self@);
        }
        r
    }
}

impl PartialEq for Transaction {
    fn eq(&self, other: &Transaction) -> (r: bool) {
        if self.signatures.len() != other.signatures.len() {
            proof {
                assert(self@.signatures.len() != other@.signatures.len());
            }
            return false;
        }
        let mut i: usize = 0;
        while i < self.signatures.len()
            invariant
                i <= self.signatures@.len(),
                self.signatures@.len() == other.signatures@.len(),
                self@.signatures.len() == other@.signatures.len(),
                forall|j: int| 0 <= j < i ==> #[trigger] self@.signatures[j]
                    == other@.signatures[j],
            decreases self.signatures@.len() - i,
        {
            if !crate::hashing::bytes_eq(
                self.signatures[i].bytes.as_slice(),
                other.signatures[i].bytes.as_slice(),
            ) {
                proof {
                    assert(self@.signatures[i as int] != other@.signatures[i as int]);
                    assert(self@ != other@);
                }
                return false;
            }
            i += 1;
        }
        let msgs = crate::hashing::bytes_eq(self.message.as_slice(), other.message.as_slice());
        proof {
            if msgs {
                assert(self@.signatures =~= other@.signatures);
                assert(self@ == other@);
            }
        }
        msgs
    }
}

impl Eq for Transaction {}

impl vstd::std_specs::cmp::PartialEqSpecImpl for Transaction {
    open spec fn obeys_eq_spec() -> bool {
        true
    }

    open spec fn eq_spec(&self, other: &Transaction) -> bool {
        self@ == other@
    }
}

/// The bytes of the first signature of a transaction, or nothing when it
/// carries no signature.
pub open spec fn first_sig(t: TxView) -> Seq<u8> {
    if t.signatures.len() == 0 {
        Seq::empty()
    } else {
        t.signatures[0]
    }
}

/// The concatenation, in sequence order, of the first signature of every
/// transaction that carries one.
pub open spec fn sig_concat(txs: Seq<TxView>) -> Seq<u8>
    decreases txs.len(),
{
    if txs.len() == 0 {
        Seq::empty()
    } else {
        first_sig(txs[0]) + sig_concat(txs.drop_first())
    }
}

/// Appending one transaction extends the signature concatenation at the end.
pub proof fn lemma_sig_concat_push(txs: Seq<TxView>, t: TxView)
    ensures
        sig_concat(txs.push(t)) == sig_concat(txs) + first_sig(t),
    decreases txs.len(),
{
    if txs.len() == 0 {
        assert(txs.push(t)[0] == t);
        assert(txs.push(t).drop_first() =~= Seq::<TxView>::empty());
        assert(sig_concat(txs.push(t)) == first_sig(t) + sig_concat(Seq::<TxView>::empty()));
        assert(first_sig(t) + Seq::<u8>::empty() =~= first_sig(t));
        assert(sig_concat(txs) + first_sig(t) =~= first_sig(t));
    } else {
        assert(txs.push(t).drop_first() =~= txs.drop_first().push(t));
        assert(txs.push(t)[0] == txs[0]);
        lemma_sig_concat_push(txs.drop_first(), t);
        assert(sig_concat(txs.push(t)) == first_sig(txs[0]) + (sig_concat(txs.drop_first())
            + first_sig(t)));
        assert(first_sig(txs[0]) + (sig_concat(txs.drop_first()) + first_sig(t)) =~= (first_sig(
            txs[0],
        ) + sig_concat(txs.drop_first())) + first_sig(t));
    }
}

/// The abstract values of a vector of transactions.
pub open spec fn txs_view(txs: Seq<Transaction>) -> Seq<TxView> {
    txs.map_values(|t: Transaction| t@)
}

/// Collects, in order, the bytes of the first signature of every transaction
/// that carries one.
pub fn collect_sig_bytes(transactions: &[Transaction]) -> (r: Vec<u8>)
    ensures
        r@ == sig_concat(txs_view(transactions@)),
{
    let ghost all = txs_view(transactions@);
    let mut acc: Vec<u8> = Vec::new();
    let mut i: usize = 0;
    proof {
        assert(txs_view(transactions@.take(0)) =~= Seq::<TxView>::empty());
    }
    while i < transactions.len()
        invariant
            i <= transactions@.len(),
            acc@ == sig_concat(txs_view(transactions@.take(i as int))),
        decreases transactions@.len() - i,
    {
        let tx = &transactions[i];
        if tx.signatures.len() > 0 {
            acc.extend_from_slice(tx.signatures[0].bytes.as_slice());
        }
        proof {
            lemma_sig_concat_push(txs_view(transactions@.take(i as int)), transactions@[i as int]@);
            assert(txs_view(transactions@.take(i + 1 as int)) =~= txs_view(
                transactions@.take(i as int),
            ).push(transactions@[i as int]@));
            assert(acc@ =~= sig_concat(txs_view(transactions@.take(i + 1 as int))));
        }
        i += 1;
    }
    proof {
        assert(transactions@.take(transactions@.len() as int) =~= transactions@);
    }
    acc
}

} // verus!

verus! {

/// When every transaction carries a full-width first signature, the
/// signature concatenation lays them out at fixed offsets: the bytes at
/// position `64 * k` are exactly the `k`-th transaction's first signature.
pub proof fn lemma_sig_concat_indexed(txs: Seq<TxView>)
    requires
        forall|k: int| 0 <= k < txs.len() ==> (#[trigger] first_sig(txs[k])).len() == 64,
    ensures
        sig_concat(txs).len() == 64 * txs.len(),
        forall|k: int|
            0 <= k < txs.len() ==> sig_concat(txs).subrange(64 * k, 64 * k + 64) == #[trigger]
            first_sig(txs[k]),
    decreases txs.len(),
{
    if txs.len() > 0 {
        assert forall|k: int| 0 <= k < txs.drop_first().len() implies (#[trigger] first_sig(
            txs.drop_first()[k],
        )).len() == 64 by {
            assert(txs.drop_first()[k] == txs[k + 1]);
        }
        lemma_sig_concat_indexed(txs.drop_first());
        let head = first_sig(txs[0]);
        let rest = sig_concat(txs.drop_first());
        assert(sig_concat(txs) == head + rest);
        assert forall|k: int| 0 <= k < txs.len() implies sig_concat(txs).subrange(
            64 * k,
            64 * k + 64,
        ) == #[trigger] first_sig(txs[k]) by {
            if k == 0 {
                assert((head + rest).subrange(0, 64) =~= head);
            } else {
                assert(txs.drop_first()[k - 1] == txs[k]);
                assert((head + rest).subrange(64 * k, 64 * k + 64) =~= rest.subrange(
                    64 * (k - 1),
                    64 * (k - 1) + 64,
                ));
            }
        }
    }
}

/// Swapping two transactions whose first signatures differ changes the
/// digest input that chain verification recomputes: an adversary reordering
/// the transactions of an entry changes what is hashed, so the recorded
/// hash no longer matches unless the digest itself collides.
pub proof fn lemma_reorder_changes_digest_input(txs: Seq<TxView>, i: int, j: int)
    requires
        0 <= i < j < txs.len(),
        forall|k: int| 0 <= k < txs.len() ==> (#[trigger] first_sig(txs[k])).len() == 64,
        first_sig(txs[i]) != first_sig(txs[j]),
    ensures
        sig_concat(txs.update(i, txs[j]).update(j, txs[i])) != sig_concat(txs),
{
    let swapped = txs.update(i, txs[j]).update(j, txs[i]);
    assert(swapped.len() == txs.len());
    assert forall|k: int| 0 <= k < swapped.len() implies (#[trigger] first_sig(
        swapped[k],
    )).len() == 64 by {
        if k == i {
            assert(swapped[k] == txs[j]);
        } else if k == j {
            assert(swapped[k] == txs[i]);
        } else {
            assert(swapped[k] == txs[k]);
        }
    }
    lemma_sig_concat_indexed(txs);
    lemma_sig_concat_indexed(swapped);
    assert(swapped[i] == txs[j]);
    assert(sig_concat(swapped).subrange(64 * i, 64 * i + 64) == first_sig(txs[j]));
    assert(sig_concat(txs).subrange(64 * i, 64 * i + 64) == first_sig(txs[i]));
    if sig_concat(swapped) == sig_concat(txs) {
        assert(first_sig(txs[j]) == first_sig(txs[i]));
    }
}

} // verus!
