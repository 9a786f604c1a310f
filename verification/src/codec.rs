//! The wire format of entries: fixed-width little-endian lengths and raw
//! bytes, and the byte sizes that the chunking algorithm measures.
use vstd::prelude::*;
use crate::transaction::TxView;

verus! {

/// The maximum number of data bytes one network unit may carry.
pub const BLOB_DATA_SIZE: usize = 64 * 1024 - 128;

/// The encoded length of one transaction: an 8-byte signature count, the
/// signatures at 64 raw bytes each, an 8-byte message length, and the
/// message bytes.
pub open spec fn tx_encoded_len(t: TxView) -> int {
    8 + 64 * (t.signatures.len() as int) + 8 + (t.message.len() as int)
}

/// The total encoded length of a sequence of transactions.
pub open spec fn txs_encoded_len(ts: Seq<TxView>) -> int
    decreases ts.len(),
{
    if ts.len() == 0 {
        0
    } else {
        tx_encoded_len(ts[0]) + txs_encoded_len(ts.drop_first())
    }
}

/// Appending one transaction adds exactly its own encoded length.
pub proof fn lemma_txs_encoded_len_push(ts: Seq<TxView>, t: TxView)
    ensures
        txs_encoded_len(ts.push(t)) == txs_encoded_len(ts) + tx_encoded_len(t),
    decreases ts.len(),
{
    if ts.len() == 0 {
        assert(ts.push(t)[0] == t);
        assert(ts.push(t).drop_first() =~= Seq::<TxView>::empty());
        assert(txs_encoded_len(ts.push(t)) == tx_encoded_len(t) + txs_encoded_len(
            Seq::<TxView>::empty(),
        ));
        assert(txs_encoded_len(Seq::<TxView>::empty()) == 0);
    } else {
        assert(ts.push(t)[0] == ts[0]);
        assert(ts.push(t).drop_first() =~= ts.drop_first().push(t));
        lemma_txs_encoded_len_push(ts.drop_first(), t);
    }
}

/// No transaction encodes to fewer than 16 bytes.
pub proof fn lemma_txs_encoded_len_nonneg(ts: Seq<TxView>)
    ensures
        txs_encoded_len(ts) >= 0,
        ts.len() > 0 ==> txs_encoded_len(ts) >= 16,
    decreases ts.len(),
{
    if ts.len() > 0 {
        lemma_txs_encoded_len_nonneg(ts.drop_first());
    }
}

/// Each transaction's encoded length is part of the total, and the total
/// grows by at least 16 bytes per transaction.
pub proof fn lemma_txs_encoded_len_bounds(ts: Seq<TxView>)
    ensures
        txs_encoded_len(ts) >= 16 * ts.len(),
        forall|i: int| 0 <= i < ts.len() ==> tx_encoded_len(#[trigger] ts[i]) <= txs_encoded_len(
            ts,
        ),
    decreases ts.len(),
{
    if ts.len() > 0 {
        lemma_txs_encoded_len_bounds(ts.drop_first());
        assert forall|i: int| 0 <= i < ts.len() implies tx_encoded_len(#[trigger] ts[i])
            <= txs_encoded_len(ts) by {
            if i == 0 {
                lemma_txs_encoded_len_nonneg(ts.drop_first());
            } else {
                assert(ts.drop_first()[i - 1] == ts[i]);
                assert(tx_encoded_len(ts[i]) <= txs_encoded_len(ts.drop_first()));
            }
        }
    }
}

/// The encoded length of a prefix of a transaction sequence.
pub proof fn lemma_txs_encoded_len_take_succ(ts: Seq<TxView>, i: int)
    requires
        0 <= i < ts.len(),
    ensures
        txs_encoded_len(ts.take(i + 1)) == txs_encoded_len(ts.take(i)) + tx_encoded_len(ts[i]),
{
    assert(ts.take(i + 1) =~= ts.take(i).push(ts[i]));
    lemma_txs_encoded_len_push(ts.take(i), ts[i]);
}

/// `x` capped at the largest `u64` value.
pub open spec fn sat_u64(x: int) -> int {
    if x > u64::MAX as int {
        u64::MAX as int
    } else {
        x
    }
}

} // verus!
use crate::entry::{entries_view, Entry, EntryView};

use crate::transaction::{Signature, Transaction};
use vstd::bytes::{
    lemma_auto_spec_u64_to_from_le_bytes, spec_u64_from_le_bytes, spec_u64_to_le_bytes,
    u64_from_le_bytes, u64_to_le_bytes,
};

verus! {

/// Why a byte sequence could not be decoded into entries: the data never
/// reached a decodable entry sequence, so no chain claim was attempted.
#[derive(Debug, Clone, Copy, PartialEq, Eq)]
pub enum DecodeError {
    /// The bytes are not the exact encoding of an entry sequence.
    Malformed,
}

/// The raw signatures of a transaction, concatenated in order.
pub open spec fn sigs_encoded(ss: Seq<Seq<u8>>) -> Seq<u8>
    decreases ss.len(),
{
    if ss.len() == 0 {
        Seq::empty()
    } else {
        ss[0] + sigs_encoded(ss.drop_first())
    }
}

/// Appending one signature extends the concatenation at the end.
pub proof fn lemma_sigs_encoded_push(ss: Seq<Seq<u8>>, s: Seq<u8>)
    ensures
        sigs_encoded(ss.push(s)) == sigs_encoded(ss) + s,
    decreases ss.len(),
{
    if ss.len() == 0 {
        assert(ss.push(s)[0] == s);
        assert(ss.push(s).drop_first() =~= Seq::<Seq<u8>>::empty());
        assert(sigs_encoded(Seq::<Seq<u8>>::empty()) == Seq::<u8>::empty());
        assert(sigs_encoded(ss.push(s)) == s + Seq::<u8>::empty());
        assert(s + Seq::<u8>::empty() =~= s);
        assert(sigs_encoded(ss) + s =~= s);
    } else {
        assert(ss.push(s)[0] == ss[0]);
        assert(ss.push(s).drop_first() =~= ss.drop_first().push(s));
        lemma_sigs_encoded_push(ss.drop_first(), s);
        assert(sigs_encoded(ss.push(s)) == ss[0] + (sigs_encoded(ss.drop_first()) + s));
        assert(ss[0] + (sigs_encoded(ss.drop_first()) + s) =~= (ss[0] + sigs_encoded(
            ss.drop_first(),
        )) + s);
    }
}

/// The encoding of one transaction: signature count, raw signatures,
/// message length, message bytes.
pub open spec fn tx_encoded(t: TxView) -> Seq<u8> {
    spec_u64_to_le_bytes(t.signatures.len() as u64) + sigs_encoded(t.signatures)
        + spec_u64_to_le_bytes(t.message.len() as u64) + t.message
}

/// The encodings of a transaction sequence, concatenated in order.
pub open spec fn txs_encoded(ts: Seq<TxView>) -> Seq<u8>
    decreases ts.len(),
{
    if ts.len() == 0 {
        Seq::empty()
    } else {
        tx_encoded(ts[0]) + txs_encoded(ts.drop_first())
    }
}

/// Appending one transaction extends the encoding at the end.
pub proof fn lemma_txs_encoded_push(ts: Seq<TxView>, t: TxView)
    ensures
        txs_encoded(ts.push(t)) == txs_encoded(ts) + tx_encoded(t),
    decreases ts.len(),
{
    if ts.len() == 0 {
        assert(ts.push(t)[0] == t);
        assert(ts.push(t).drop_first() =~= Seq::<TxView>::empty());
        assert(txs_encoded(Seq::<TxView>::empty()) == Seq::<u8>::empty());
        assert(txs_encoded(ts.push(t)) == tx_encoded(t) + Seq::<u8>::empty());
        assert(tx_encoded(t) + Seq::<u8>::empty() =~= tx_encoded(t));
        assert(txs_encoded(ts) + tx_encoded(t) =~= tx_encoded(t));
    } else {
        assert(ts.push(t)[0] == ts[0]);
        assert(ts.push(t).drop_first() =~= ts.drop_first().push(t));
        lemma_txs_encoded_push(ts.drop_first(), t);
        assert(txs_encoded(ts.push(t)) == tx_encoded(ts[0]) + (txs_encoded(ts.drop_first())
            + tx_encoded(t)));
        assert(tx_encoded(ts[0]) + (txs_encoded(ts.drop_first()) + tx_encoded(t)) =~= (tx_encoded(
            ts[0],
        ) + txs_encoded(ts.drop_first())) + tx_encoded(t));
    }
}

/// The encoding of one entry: hash count, raw hash, transaction count,
/// transaction encodings.
pub open spec fn entry_encoded(e: EntryView) -> Seq<u8> {
    spec_u64_to_le_bytes(e.num_hashes) + e.hash + spec_u64_to_le_bytes(
        e.transactions.len() as u64,
    ) + txs_encoded(e.transactions)
}

/// The encodings of an entry sequence, concatenated in order.
pub open spec fn entries_body(es: Seq<EntryView>) -> Seq<u8>
    decreases es.len(),
{
    if es.len() == 0 {
        Seq::empty()
    } else {
        entry_encoded(es[0]) + entries_body(es.drop_first())
    }
}

/// Appending one entry extends the encoding at the end.
pub proof fn lemma_entries_body_push(es: Seq<EntryView>, e: EntryView)
    ensures
        entries_body(es.push(e)) == entries_body(es) + entry_encoded(e),
    decreases es.len(),
{
    if es.len() == 0 {
        assert(es.push(e)[0] == e);
        assert(es.push(e).drop_first() =~= Seq::<EntryView>::empty());
        assert(entries_body(Seq::<EntryView>::empty()) == Seq::<u8>::empty());
        assert(entries_body(es.push(e)) == entry_encoded(e) + Seq::<u8>::empty());
        assert(entry_encoded(e) + Seq::<u8>::empty() =~= entry_encoded(e));
        assert(entries_body(es) + entry_encoded(e) =~= entry_encoded(e));
    } else {
        assert(es.push(e)[0] == es[0]);
        assert(es.push(e).drop_first() =~= es.drop_first().push(e));
        lemma_entries_body_push(es.drop_first(), e);
        assert(entries_body(es.push(e)) == entry_encoded(es[0]) + (entries_body(es.drop_first())
            + entry_encoded(e)));
        assert(entry_encoded(es[0]) + (entries_body(es.drop_first()) + entry_encoded(e)) =~= (
        entry_encoded(es[0]) + entries_body(es.drop_first())) + entry_encoded(e));
    }
}

/// The encoding of a whole entry sequence as one network unit's data:
/// the entry count followed by each entry's encoding.
pub open spec fn entries_encoded(es: Seq<EntryView>) -> Seq<u8> {
    spec_u64_to_le_bytes(es.len() as u64) + entries_body(es)
}

/// Reads a little-endian count from the front of `b`.
pub open spec fn parse_u64(b: Seq<u8>) -> Option<(u64, Seq<u8>)> {
    if b.len() < 8 {
        None
    } else {
        Some((spec_u64_from_le_bytes(b.take(8)), b.skip(8)))
    }
}

/// Reads `n` raw 64-byte signatures from the front of `b`.
pub open spec fn parse_sigs(b: Seq<u8>, n: nat) -> Option<(Seq<Seq<u8>>, Seq<u8>)>
    decreases n,
{
    if n == 0 {
        Some((Seq::empty(), b))
    } else if b.len() < 64 {
        None
    } else {
        match parse_sigs(b.skip(64), (n - 1) as nat) {
            None => None,
            Some((ss, rest)) => Some((seq![b.take(64)] + ss, rest)),
        }
    }
}

/// Reads one transaction from the front of `b`.
pub open spec fn parse_tx(b: Seq<u8>) -> Option<(TxView, Seq<u8>)> {
    match parse_u64(b) {
        None => None,
        Some((nsigs, b1)) => match parse_sigs(b1, nsigs as nat) {
            None => None,
            Some((ss, b2)) => match parse_u64(b2) {
                None => None,
                Some((msg_len, b3)) => if b3.len() < msg_len as nat {
                    None
                } else {
                    Some(
                        (
                            TxView { signatures: ss, message: b3.take(msg_len as int) },
                            b3.skip(msg_len as int),
                        ),
                    )
                },
            },
        },
    }
}

/// Reads `n` transactions from the front of `b`.
pub open spec fn parse_txs(b: Seq<u8>, n: nat) -> Option<(Seq<TxView>, Seq<u8>)>
    decreases n,
{
    if n == 0 {
        Some((Seq::empty(), b))
    } else {
        match parse_tx(b) {
            None => None,
            Some((t, rest)) => match parse_txs(rest, (n - 1) as nat) {
                None => None,
                Some((ts, rest2)) => Some((seq![t] + ts, rest2)),
            },
        }
    }
}

/// Reads one entry from the front of `b`.
pub open spec fn parse_entry(b: Seq<u8>) -> Option<(EntryView, Seq<u8>)> {
    match parse_u64(b) {
        None => None,
        Some((num_hashes, b1)) => if b1.len() < 32 {
            None
        } else {
            let hash = b1.take(32);
            let b2 = b1.skip(32);
            match parse_u64(b2) {
                None => None,
                Some((ntx, b3)) => match parse_txs(b3, ntx as nat) {
                    None => None,
                    Some((ts, rest)) => Some(
                        (EntryView { num_hashes, hash, transactions: ts }, rest),
                    ),
                },
            }
        },
    }
}

/// Reads `n` entries from the front of `b`.
pub open spec fn parse_entries(b: Seq<u8>, n: nat) -> Option<(Seq<EntryView>, Seq<u8>)>
    decreases n,
{
    if n == 0 {
        Some((Seq::empty(), b))
    } else {
        match parse_entry(b) {
            None => None,
            Some((e, rest)) => match parse_entries(rest, (n - 1) as nat) {
                None => None,
                Some((es, rest2)) => Some((seq![e] + es, rest2)),
            },
        }
    }
}

/// Decodes a whole unit: the entry count, then exactly that many entries,
/// with nothing left over.
pub open spec fn parse_blob(b: Seq<u8>) -> Option<Seq<EntryView>> {
    match parse_u64(b) {
        None => None,
        Some((count, b1)) => match parse_entries(b1, count as nat) {
            None => None,
            Some((es, rest)) => if rest.len() == 0 {
                Some(es)
            } else {
                None
            },
        },
    }
}

} // verus!

verus! {

/// A transaction whose encoding round-trips: full-width signatures and
/// counts that fit the length prefixes.
pub open spec fn tx_ok(t: TxView) -> bool {
    &&& t.signatures.len() <= u64::MAX
    &&& t.message.len() <= u64::MAX
    &&& forall|j: int| 0 <= j < t.signatures.len() ==> (#[trigger] t.signatures[j]).len() == 64
}

/// An entry whose encoding round-trips: a full-width hash and transactions
/// that round-trip.
pub open spec fn entry_ok(e: EntryView) -> bool {
    &&& e.hash.len() == 32
    &&& e.transactions.len() <= u64::MAX
    &&& forall|i: int| 0 <= i < e.transactions.len() ==> tx_ok(#[trigger] e.transactions[i])
}

/// An entry sequence whose encoding round-trips.
pub open spec fn entries_ok(es: Seq<EntryView>) -> bool {
    &&& es.len() <= u64::MAX
    &&& forall|i: int| 0 <= i < es.len() ==> entry_ok(#[trigger] es[i])
}

/// Reading a count from its own encoding gives the count back.
pub proof fn lemma_parse_u64_enc(x: u64, rest: Seq<u8>)
    ensures
        parse_u64(spec_u64_to_le_bytes(x) + rest) == Some((x, rest)),
{
    lemma_auto_spec_u64_to_from_le_bytes();
    let b = spec_u64_to_le_bytes(x) + rest;
    assert(b.take(8) =~= spec_u64_to_le_bytes(x));
    assert(b.skip(8) =~= rest);
}

/// Reading signatures from their own encoding gives them back.
pub proof fn lemma_parse_sigs_enc(ss: Seq<Seq<u8>>, rest: Seq<u8>)
    requires
        forall|j: int| 0 <= j < ss.len() ==> (#[trigger] ss[j]).len() == 64,
    ensures
        parse_sigs(sigs_encoded(ss) + rest, ss.len()) == Some((ss, rest)),
    decreases ss.len(),
{
    let b = sigs_encoded(ss) + rest;
    if ss.len() == 0 {
        assert(b =~= rest);
        assert(parse_sigs(rest, 0) == Some((Seq::<Seq<u8>>::empty(), rest)));
        assert(ss =~= Seq::<Seq<u8>>::empty());
    } else {
        assert(sigs_encoded(ss) == ss[0] + sigs_encoded(ss.drop_first()));
        assert(b =~= ss[0] + (sigs_encoded(ss.drop_first()) + rest));
        assert(b.len() >= 64);
        assert(b.take(64) =~= ss[0]);
        assert(b.skip(64) =~= sigs_encoded(ss.drop_first()) + rest);
        lemma_parse_sigs_enc(ss.drop_first(), rest);
        assert(parse_sigs(b.skip(64), (ss.len() - 1) as nat) == Some((ss.drop_first(), rest)));
        assert(seq![b.take(64)] + ss.drop_first() =~= ss);
    }
}

/// Reading one transaction from its own encoding gives it back.
pub proof fn lemma_parse_tx_enc(t: TxView, rest: Seq<u8>)
    requires
        tx_ok(t),
    ensures
        parse_tx(tx_encoded(t) + rest) == Some((t, rest)),
{
    let b = tx_encoded(t) + rest;
    let tail1 = sigs_encoded(t.signatures) + (spec_u64_to_le_bytes(t.message.len() as u64) + (
    t.message + rest));
    assert(b =~= spec_u64_to_le_bytes(t.signatures.len() as u64) + tail1);
    lemma_parse_u64_enc(t.signatures.len() as u64, tail1);
    assert(parse_u64(b) == Some((t.signatures.len() as u64, tail1)));
    let tail2 = spec_u64_to_le_bytes(t.message.len() as u64) + (t.message + rest);
    lemma_parse_sigs_enc(t.signatures, tail2);
    assert(sigs_encoded(t.signatures) + tail2 =~= tail1);
    assert(parse_sigs(tail1, t.signatures.len()) == Some((t.signatures, tail2)));
    let tail3 = t.message + rest;
    lemma_parse_u64_enc(t.message.len() as u64, tail3);
    assert(parse_u64(tail2) == Some((t.message.len() as u64, tail3)));
    assert(tail3.len() >= t.message.len());
    assert(tail3.take(t.message.len() as int) =~= t.message);
    assert(tail3.skip(t.message.len() as int) =~= rest);
    assert(parse_tx(b) == Some((TxView { signatures: t.signatures, message: t.message }, rest)));
    assert(TxView { signatures: t.signatures, message: t.message } == t);
}

/// Reading a run of transactions from their own encoding gives them back.
pub proof fn lemma_parse_txs_enc(ts: Seq<TxView>, rest: Seq<u8>)
    requires
        forall|i: int| 0 <= i < ts.len() ==> tx_ok(#[trigger] ts[i]),
    ensures
        parse_txs(txs_encoded(ts) + rest, ts.len()) == Some((ts, rest)),
    decreases ts.len(),
{
    let b = txs_encoded(ts) + rest;
    if ts.len() == 0 {
        assert(b =~= rest);
        assert(ts =~= Seq::<TxView>::empty());
    } else {
        assert(txs_encoded(ts) == tx_encoded(ts[0]) + txs_encoded(ts.drop_first()));
        let tail = txs_encoded(ts.drop_first()) + rest;
        assert(b =~= tx_encoded(ts[0]) + tail);
        lemma_parse_tx_enc(ts[0], tail);
        assert(parse_tx(b) == Some((ts[0], tail)));
        lemma_parse_txs_enc(ts.drop_first(), rest);
        assert(parse_txs(tail, (ts.len() - 1) as nat) == Some((ts.drop_first(), rest)));
        assert(seq![ts[0]] + ts.drop_first() =~= ts);
    }
}

/// Reading one entry from its own encoding gives it back.
pub proof fn lemma_parse_entry_enc(e: EntryView, rest: Seq<u8>)
    requires
        entry_ok(e),
    ensures
        parse_entry(entry_encoded(e) + rest) == Some((e, rest)),
{
    let b = entry_encoded(e) + rest;
    let tail1 = e.hash + (spec_u64_to_le_bytes(e.transactions.len() as u64) + (txs_encoded(
        e.transactions,
    ) + rest));
    assert(b =~= spec_u64_to_le_bytes(e.num_hashes) + tail1);
    lemma_parse_u64_enc(e.num_hashes, tail1);
    assert(parse_u64(b) == Some((e.num_hashes, tail1)));
    assert(tail1.len() >= 32);
    assert(tail1.take(32) =~= e.hash);
    let tail2 = spec_u64_to_le_bytes(e.transactions.len() as u64) + (txs_encoded(e.transactions)
        + rest);
    assert(tail1.skip(32) =~= tail2);
    let tail3 = txs_encoded(e.transactions) + rest;
    lemma_parse_u64_enc(e.transactions.len() as u64, tail3);
    assert(parse_u64(tail2) == Some((e.transactions.len() as u64, tail3)));
    lemma_parse_txs_enc(e.transactions, rest);
    assert(parse_txs(tail3, e.transactions.len()) == Some((e.transactions, rest)));
    assert(parse_entry(b) == Some(
        (
            EntryView {
                num_hashes: e.num_hashes,
                hash: e.hash,
                transactions: e.transactions,
            },
            rest,
        ),
    ));
    assert(EntryView { num_hashes: e.num_hashes, hash: e.hash, transactions: e.transactions }
        == e);
}

/// Reading a run of entries from their own encoding gives them back.
pub proof fn lemma_parse_entries_enc(es: Seq<EntryView>, rest: Seq<u8>)
    requires
        forall|i: int| 0 <= i < es.len() ==> entry_ok(#[trigger] es[i]),
    ensures
        parse_entries(entries_body(es) + rest, es.len()) == Some((es, rest)),
    decreases es.len(),
{
    let b = entries_body(es) + rest;
    if es.len() == 0 {
        assert(b =~= rest);
        assert(es =~= Seq::<EntryView>::empty());
    } else {
        assert(entries_body(es) == entry_encoded(es[0]) + entries_body(es.drop_first()));
        let tail = entries_body(es.drop_first()) + rest;
        assert(b =~= entry_encoded(es[0]) + tail);
        lemma_parse_entry_enc(es[0], tail);
        assert(parse_entry(b) == Some((es[0], tail)));
        lemma_parse_entries_enc(es.drop_first(), rest);
        assert(parse_entries(tail, (es.len() - 1) as nat) == Some((es.drop_first(), rest)));
        assert(seq![es[0]] + es.drop_first() =~= es);
    }
}

/// Decoding the encoding of an entry sequence gives exactly that sequence:
/// the wire format loses nothing and invents nothing.
pub proof fn lemma_parse_blob_enc(es: Seq<EntryView>)
    requires
        entries_ok(es),
    ensures
        parse_blob(entries_encoded(es)) == Some(es),
{
    let b = entries_encoded(es);
    lemma_parse_u64_enc(es.len() as u64, entries_body(es));
    assert(parse_u64(b) == Some((es.len() as u64, entries_body(es))));
    lemma_parse_entries_enc(es, Seq::empty());
    assert(entries_body(es) + Seq::<u8>::empty() =~= entries_body(es));
    assert(parse_entries(entries_body(es), es.len()) == Some((es, Seq::<u8>::empty())));
}

} // verus!

verus! {

/// Appends the encoding of one transaction to `out`.
fn encode_tx_append(out: &mut Vec<u8>, tx: &Transaction)
    ensures
        final(out)@ == old(out)@ + tx_encoded(tx@),
{
    let ghost base = out@;
    let mut count_bytes = u64_to_le_bytes(tx.signatures.len() as u64);
    out.append(&mut count_bytes);
    let ghost sig_views = tx@.signatures;
    let mut j: usize = 0;
    proof {
        assert(sig_views.take(0) =~= Seq::<Seq<u8>>::empty());
        assert(out@ =~= base + spec_u64_to_le_bytes(tx@.signatures.len() as u64) + sigs_encoded(
            sig_views.take(0),
        ));
    }
    while j < tx.signatures.len()
        invariant
            j <= tx.signatures@.len(),
            sig_views == tx@.signatures,
            sig_views.len() == tx.signatures@.len(),
            out@ == base + spec_u64_to_le_bytes(tx@.signatures.len() as u64) + sigs_encoded(
                sig_views.take(j as int),
            ),
        decreases tx.signatures@.len() - j,
    {
        out.extend_from_slice(tx.signatures[j].bytes.as_slice());
        proof {
            lemma_sigs_encoded_push(sig_views.take(j as int), sig_views[j as int]);
            assert(sig_views.take(j + 1) =~= sig_views.take(j as int).push(sig_views[j as int]));
            assert(out@ =~= base + spec_u64_to_le_bytes(tx@.signatures.len() as u64)
                + sigs_encoded(sig_views.take(j + 1)));
        }
        j += 1;
    }
    proof {
        assert(sig_views.take(sig_views.len() as int) =~= sig_views);
    }
    let mut msg_len_bytes = u64_to_le_bytes(tx.message.len() as u64);
    out.append(&mut msg_len_bytes);
    out.extend_from_slice(tx.message.as_slice());
    proof {
        assert(out@ =~= old(out)@ + tx_encoded(tx@));
    }
}

/// Appends the encoding of one entry to `out`.
fn encode_entry_append(out: &mut Vec<u8>, entry: &Entry)
    ensures
        final(out)@ == old(out)@ + entry_encoded(entry@),
{
    let ghost base = out@;
    let mut nh_bytes = u64_to_le_bytes(entry.num_hashes);
    out.append(&mut nh_bytes);
    out.extend_from_slice(entry.hash.bytes.as_slice());
    let mut ntx_bytes = u64_to_le_bytes(entry.transactions.len() as u64);
    out.append(&mut ntx_bytes);
    let ghost tx_views = entry@.transactions;
    let ghost header = base + spec_u64_to_le_bytes(entry@.num_hashes) + entry@.hash
        + spec_u64_to_le_bytes(entry@.transactions.len() as u64);
    let mut j: usize = 0;
    proof {
        assert(tx_views.take(0) =~= Seq::<TxView>::empty());
        assert(out@ =~= header + txs_encoded(tx_views.take(0)));
    }
    while j < entry.transactions.len()
        invariant
            j <= entry.transactions@.len(),
            tx_views == entry@.transactions,
            tx_views.len() == entry.transactions@.len(),
            tx_views == crate::transaction::txs_view(entry.transactions@),
            out@ == header + txs_encoded(tx_views.take(j as int)),
        decreases entry.transactions@.len() - j,
    {
        encode_tx_append(out, &entry.transactions[j]);
        proof {
            lemma_txs_encoded_push(tx_views.take(j as int), tx_views[j as int]);
            assert(tx_views.take(j + 1) =~= tx_views.take(j as int).push(tx_views[j as int]));
            assert(out@ =~= header + txs_encoded(tx_views.take(j + 1)));
        }
        j += 1;
    }
    proof {
        assert(tx_views.take(tx_views.len() as int) =~= tx_views);
        assert(out@ =~= old(out)@ + entry_encoded(entry@));
    }
}

/// Encodes an entry sequence as one network unit's data: the entry count
/// followed by each entry's encoding, in order.
pub fn encode_entries(entries: &[Entry]) -> (r: Vec<u8>)
    ensures
        r@ == entries_encoded(entries_view(entries@)),
{
    let ghost views = entries_view(entries@);
    let mut out = u64_to_le_bytes(entries.len() as u64);
    let ghost header = spec_u64_to_le_bytes(views.len() as u64);
    let mut i: usize = 0;
    proof {
        assert(views.take(0) =~= Seq::<EntryView>::empty());
        assert(out@ =~= header + entries_body(views.take(0)));
    }
    while i < entries.len()
        invariant
            i <= entries@.len(),
            views == entries_view(entries@),
            views.len() == entries@.len(),
            out@ == header + entries_body(views.take(i as int)),
        decreases entries@.len() - i,
    {
        encode_entry_append(&mut out, &entries[i]);
        proof {
            lemma_entries_body_push(views.take(i as int), views[i as int]);
            assert(views.take(i + 1) =~= views.take(i as int).push(views[i as int]));
            assert(out@ =~= header + entries_body(views.take(i + 1)));
        }
        i += 1;
    }
    proof {
        assert(views.take(views.len() as int) =~= views);
        assert(out@ =~= entries_encoded(views));
    }
    out
}

} // verus!

verus! {

/// The abstract values of a vector of signatures.
pub open spec fn sig_views(ss: Seq<Signature>) -> Seq<Seq<u8>> {
    ss.map_values(|s: Signature| s@)
}

/// Reads a little-endian count at byte position `pos`.
fn read_u64(bytes: &[u8], pos: usize) -> (r: Result<(u64, usize), DecodeError>)
    requires
        pos <= bytes@.len(),
    ensures
        match r {
            Ok((v, npos)) => {
                &&& npos == pos + 8
                &&& npos <= bytes@.len()
                &&& parse_u64(bytes@.skip(pos as int)) == Some((v, bytes@.skip(npos as int)))
            },
            Err(_) => parse_u64(bytes@.skip(pos as int)) is None,
        },
{
    if bytes.len() - pos < 8 {
        return Err(DecodeError::Malformed);
    }
    let s = vstd::slice::slice_subrange(bytes, pos, pos + 8);
    let v = u64_from_le_bytes(s);
    proof {
        assert(bytes@.skip(pos as int).take(8) =~= bytes@.subrange(pos as int, pos as int + 8));
        assert(bytes@.skip(pos as int).skip(8) =~= bytes@.skip(pos as int + 8));
    }
    Ok((v, pos + 8))
}

/// Reads one transaction at byte position `pos`.
#[verifier::loop_isolation(false)]
fn decode_tx(bytes: &[u8], pos: usize) -> (r: Result<(Transaction, usize), DecodeError>)
    requires
        pos <= bytes@.len(),
    ensures
        match r {
            Ok((tx, npos)) => {
                &&& pos <= npos <= bytes@.len()
                &&& parse_tx(bytes@.skip(pos as int)) == Some((tx@, bytes@.skip(npos as int)))
            },
            Err(_) => parse_tx(bytes@.skip(pos as int)) is None,
        },
{
    let ghost b0 = bytes@.skip(pos as int);
    let (nsigs, p1) = match read_u64(bytes, pos) {
        Ok(v) => v,
        Err(e) => {
            return Err(e);
        },
    };
    let mut sigs: Vec<Signature> = Vec::new();
    let mut p = p1;
    let mut k: u64 = 0;
    proof {
        assert(sig_views(sigs@) =~= Seq::<Seq<u8>>::empty());
        match parse_sigs(bytes@.skip(p as int), nsigs as nat) {
            None => {},
            Some((ss, rest)) => {
                assert(sig_views(sigs@) + ss =~= ss);
            },
        }
    }
    while k < nsigs
        invariant
            k <= nsigs,
            p1 <= p <= bytes@.len(),
            sigs@.len() == k,
            forall|j: int| 0 <= j < k ==> (#[trigger] sigs@[j])@.len() == 64,
            ({
                let full = parse_sigs(bytes@.skip(p1 as int), nsigs as nat);
                match parse_sigs(bytes@.skip(p as int), (nsigs - k) as nat) {
                    None => full is None,
                    Some((ss, rest)) => full == Some((sig_views(sigs@) + ss, rest)),
                }
            }),
        decreases nsigs - k,
    {
        if bytes.len() - p < 64 {
            proof {
                assert(bytes@.skip(p as int).len() < 64);
                assert(parse_sigs(bytes@.skip(p as int), (nsigs - k) as nat) is None);
                assert(parse_sigs(bytes@.skip(p1 as int), nsigs as nat) is None);
                assert(parse_tx(b0) is None);
            }
            return Err(DecodeError::Malformed);
        }
        let sig_slice = vstd::slice::slice_subrange(bytes, p, p + 64);
        let sig = Signature::from_bytes(vstd::slice::slice_to_vec(sig_slice));
        let ghost old_sigs = sigs@;
        sigs.push(sig);
        proof {
            let rem = bytes@.skip(p as int);
            assert(rem.take(64) =~= bytes@.subrange(p as int, p as int + 64));
            assert(rem.skip(64) =~= bytes@.skip(p as int + 64));
            assert(sig@ == rem.take(64));
            let m = (nsigs - k) as nat;
            match parse_sigs(bytes@.skip(p as int + 64), (m - 1) as nat) {
                None => {
                    assert(parse_sigs(rem, m) is None);
                },
                Some((ss2, rest2)) => {
                    assert(parse_sigs(rem, m) == Some((seq![rem.take(64)] + ss2, rest2)));
                    assert(sig_views(sigs@) =~= sig_views(old_sigs).push(sig@));
                    assert(sig_views(old_sigs) + (seq![rem.take(64)] + ss2) =~= sig_views(sigs@)
                        + ss2);
                },
            }
        }
        p += 64;
        k += 1;
    }
    proof {
        assert(parse_sigs(bytes@.skip(p as int), 0) == Some(
            (Seq::<Seq<u8>>::empty(), bytes@.skip(p as int)),
        ));
        assert(sig_views(sigs@) + Seq::<Seq<u8>>::empty() =~= sig_views(sigs@));
        assert(parse_sigs(bytes@.skip(p1 as int), nsigs as nat) == Some(
            (sig_views(sigs@), bytes@.skip(p as int)),
        ));
    }
    let (msg_len, p2) = match read_u64(bytes, p) {
        Ok(v) => v,
        Err(e) => {
            return Err(e);
        },
    };
    if ((bytes.len() - p2) as u64) < msg_len {
        proof {
            assert(bytes@.skip(p2 as int).len() < msg_len as nat);
        }
        return Err(DecodeError::Malformed);
    }
    let msg_end = p2 + (msg_len as usize);
    let msg = vstd::slice::slice_to_vec(vstd::slice::slice_subrange(bytes, p2, msg_end));
    let tx = Transaction { signatures: sigs, message: msg };
    proof {
        let b3 = bytes@.skip(p2 as int);
        assert(b3.take(msg_len as int) =~= bytes@.subrange(p2 as int, msg_end as int));
        assert(b3.skip(msg_len as int) =~= bytes@.skip(msg_end as int));
        assert(tx@.signatures == sig_views(tx.signatures@));
        assert(tx@ == TxView { signatures: sig_views(tx.signatures@), message: b3.take(msg_len as int) });
        assert(parse_tx(b0) == Some((tx@, bytes@.skip(msg_end as int))));
    }
    Ok((tx, msg_end))
}

/// Reads one entry at byte position `pos`.
#[verifier::loop_isolation(false)]
fn decode_entry(bytes: &[u8], pos: usize) -> (r: Result<(Entry, usize), DecodeError>)
    requires
        pos <= bytes@.len(),
    ensures
        match r {
            Ok((entry, npos)) => {
                &&& pos <= npos <= bytes@.len()
                &&& parse_entry(bytes@.skip(pos as int)) == Some(
                    (entry@, bytes@.skip(npos as int)),
                )
            },
            Err(_) => parse_entry(bytes@.skip(pos as int)) is None,
        },
{
    let ghost b0 = bytes@.skip(pos as int);
    let (num_hashes, p1) = match read_u64(bytes, pos) {
        Ok(v) => v,
        Err(e) => {
            return Err(e);
        },
    };
    if bytes.len() - p1 < 32 {
        proof {
            assert(bytes@.skip(p1 as int).len() < 32);
        }
        return Err(DecodeError::Malformed);
    }
    let hash = crate::hashing::HashValue::from_bytes(
        vstd::slice::slice_to_vec(vstd::slice::slice_subrange(bytes, p1, p1 + 32)),
    );
    let p2 = p1 + 32;
    proof {
        assert(bytes@.skip(p1 as int).take(32) =~= bytes@.subrange(p1 as int, p1 as int + 32));
        assert(bytes@.skip(p1 as int).skip(32) =~= bytes@.skip(p2 as int));
    }
    let (ntx, p3) = match read_u64(bytes, p2) {
        Ok(v) => v,
        Err(e) => {
            return Err(e);
        },
    };
    let mut txs: Vec<Transaction> = Vec::new();
    let mut p = p3;
    let mut k: u64 = 0;
    proof {
        assert(crate::transaction::txs_view(txs@) =~= Seq::<TxView>::empty());
        match parse_txs(bytes@.skip(p as int), ntx as nat) {
            None => {},
            Some((ts, rest)) => {
                assert(crate::transaction::txs_view(txs@) + ts =~= ts);
            },
        }
    }
    while k < ntx
        invariant
            k <= ntx,
            p3 <= p <= bytes@.len(),
            txs@.len() == k,
            ({
                let full = parse_txs(bytes@.skip(p3 as int), ntx as nat);
                match parse_txs(bytes@.skip(p as int), (ntx - k) as nat) {
                    None => full is None,
                    Some((ts, rest)) => full == Some(
                        (crate::transaction::txs_view(txs@) + ts, rest),
                    ),
                }
            }),
        decreases ntx - k,
    {
        let ghost old_txs = txs@;
        let (tx, npos) = match decode_tx(bytes, p) {
            Ok(v) => v,
            Err(e) => {
                proof {
                    assert(parse_txs(bytes@.skip(p as int), (ntx - k) as nat) is None);
                    assert(parse_txs(bytes@.skip(p3 as int), ntx as nat) is None);
                    assert(parse_entry(b0) is None);
                }
                return Err(e);
            },
        };
        txs.push(tx);
        proof {
            let m = (ntx - k) as nat;
            match parse_txs(bytes@.skip(npos as int), (m - 1) as nat) {
                None => {
                    assert(parse_txs(bytes@.skip(p as int), m) is None);
                },
                Some((ts2, rest2)) => {
                    assert(parse_txs(bytes@.skip(p as int), m) == Some(
                        (seq![tx@] + ts2, rest2),
                    ));
                    assert(crate::transaction::txs_view(txs@) =~= crate::transaction::txs_view(
                        old_txs,
                    ).push(tx@));
                    assert(crate::transaction::txs_view(old_txs) + (seq![tx@] + ts2)
                        =~= crate::transaction::txs_view(txs@) + ts2);
                },
            }
        }
        p = npos;
        k += 1;
    }
    proof {
        assert(parse_txs(bytes@.skip(p as int), 0) == Some(
            (Seq::<TxView>::empty(), bytes@.skip(p as int)),
        ));
        assert(crate::transaction::txs_view(txs@) + Seq::<TxView>::empty()
            =~= crate::transaction::txs_view(txs@));
        assert(parse_txs(bytes@.skip(p3 as int), ntx as nat) == Some(
            (crate::transaction::txs_view(txs@), bytes@.skip(p as int)),
        ));
    }
    let entry = Entry { num_hashes, hash, transactions: txs };
    proof {
        assert(entry@ == EntryView {
            num_hashes,
            hash: bytes@.skip(p1 as int).take(32),
            transactions: crate::transaction::txs_view(entry.transactions@),
        });
        assert(parse_entry(b0) == Some((entry@, bytes@.skip(p as int))));
    }
    Ok((entry, p))
}

/// Decodes one network unit's data back into the entry sequence it encodes.
/// Succeeds exactly on byte sequences that `parse_blob` accepts: the entry
/// count, that many entries, and nothing left over; anything else is
/// malformed data, reported without any chain claim.
#[verifier::loop_isolation(false)]
pub fn decode_entries(bytes: &[u8]) -> (r: Result<Vec<Entry>, DecodeError>)
    ensures
        match parse_blob(bytes@) {
            Some(vs) => r matches Ok(es) && entries_view(es@) == vs,
            None => r is Err,
        },
{
    proof {
        assert(bytes@.skip(0) =~= bytes@);
    }
    let (count, p0) = match read_u64(bytes, 0) {
        Ok(v) => v,
        Err(e) => {
            return Err(e);
        },
    };
    let mut entries: Vec<Entry> = Vec::new();
    let mut p = p0;
    let mut k: u64 = 0;
    proof {
        assert(entries_view(entries@) =~= Seq::<EntryView>::empty());
        match parse_entries(bytes@.skip(p as int), count as nat) {
            None => {},
            Some((es, rest)) => {
                assert(entries_view(entries@) + es =~= es);
            },
        }
    }
    while k < count
        invariant
            k <= count,
            p0 <= p <= bytes@.len(),
            entries@.len() == k,
            ({
                let full = parse_entries(bytes@.skip(p0 as int), count as nat);
                match parse_entries(bytes@.skip(p as int), (count - k) as nat) {
                    None => full is None,
                    Some((es, rest)) => full == Some((entries_view(entries@) + es, rest)),
                }
            }),
        decreases count - k,
    {
        let ghost old_entries = entries@;
        let (entry, npos) = match decode_entry(bytes, p) {
            Ok(v) => v,
            Err(e) => {
                proof {
                    assert(parse_entries(bytes@.skip(p as int), (count - k) as nat) is None);
                    assert(parse_entries(bytes@.skip(p0 as int), count as nat) is None);
                    assert(parse_blob(bytes@) is None);
                }
                return Err(e);
            },
        };
        entries.push(entry);
        proof {
            let m = (count - k) as nat;
            match parse_entries(bytes@.skip(npos as int), (m - 1) as nat) {
                None => {
                    assert(parse_entries(bytes@.skip(p as int), m) is None);
                },
                Some((es2, rest2)) => {
                    assert(parse_entries(bytes@.skip(p as int), m) == Some(
                        (seq![entry@] + es2, rest2),
                    ));
                    assert(entries_view(entries@) =~= entries_view(old_entries).push(entry@));
                    assert(entries_view(old_entries) + (seq![entry@] + es2) =~= entries_view(
                        entries@,
                    ) + es2);
                },
            }
        }
        p = npos;
        k += 1;
    }
    proof {
        assert(parse_entries(bytes@.skip(p as int), 0) == Some(
            (Seq::<EntryView>::empty(), bytes@.skip(p as int)),
        ));
        assert(entries_view(entries@) + Seq::<EntryView>::empty() =~= entries_view(entries@));
        assert(parse_entries(bytes@.skip(p0 as int), count as nat) == Some(
            (entries_view(entries@), bytes@.skip(p as int)),
        ));
    }
    if p != bytes.len() {
        proof {
            assert(bytes@.skip(p as int).len() != 0);
        }
        return Err(DecodeError::Malformed);
    }
    proof {
        assert(bytes@.skip(p as int).len() == 0);
    }
    Ok(entries)
}

} // verus!

verus! {

/// The encoded length of one entry: the fixed header plus its transactions.
pub open spec fn entry_encoded_len(e: EntryView) -> int {
    48 + txs_encoded_len(e.transactions)
}

/// The total encoded length of a run of entries, header excluded.
pub open spec fn entries_body_len(es: Seq<EntryView>) -> int
    decreases es.len(),
{
    if es.len() == 0 {
        0
    } else {
        entry_encoded_len(es[0]) + entries_body_len(es.drop_first())
    }
}

/// Appending one entry adds exactly its own encoded length.
pub proof fn lemma_entries_body_len_push(es: Seq<EntryView>, e: EntryView)
    ensures
        entries_body_len(es.push(e)) == entries_body_len(es) + entry_encoded_len(e),
    decreases es.len(),
{
    if es.len() == 0 {
        assert(es.push(e)[0] == e);
        assert(es.push(e).drop_first() =~= Seq::<EntryView>::empty());
        assert(entries_body_len(Seq::<EntryView>::empty()) == 0);
        assert(entries_body_len(es.push(e)) == entry_encoded_len(e));
        assert(entries_body_len(es) == 0);
    } else {
        assert(es.push(e)[0] == es[0]);
        assert(es.push(e).drop_first() =~= es.drop_first().push(e));
        lemma_entries_body_len_push(es.drop_first(), e);
        assert(entries_body_len(es.push(e)) == entry_encoded_len(es[0]) + (entries_body_len(
            es.drop_first(),
        ) + entry_encoded_len(e)));
    }
}

/// No entry encodes to fewer than 48 bytes; no run has a negative length.
pub proof fn lemma_entries_body_len_nonneg(es: Seq<EntryView>)
    ensures
        entries_body_len(es) >= 0,
    decreases es.len(),
{
    if es.len() > 0 {
        lemma_txs_encoded_len_nonneg(es[0].transactions);
        lemma_entries_body_len_nonneg(es.drop_first());
    }
}

/// Well-formed signatures concatenate to exactly 64 bytes each.
pub proof fn lemma_sigs_encoded_bytes_len(ss: Seq<Seq<u8>>)
    requires
        forall|j: int| 0 <= j < ss.len() ==> (#[trigger] ss[j]).len() == 64,
    ensures
        sigs_encoded(ss).len() == 64 * ss.len(),
    decreases ss.len(),
{
    if ss.len() > 0 {
        lemma_sigs_encoded_bytes_len(ss.drop_first());
    }
}

/// A well-formed transaction's encoding has exactly its computed length.
pub proof fn lemma_tx_encoded_bytes_len(t: TxView)
    requires
        forall|j: int| 0 <= j < t.signatures.len() ==> (#[trigger] t.signatures[j]).len() == 64,
    ensures
        tx_encoded(t).len() == tx_encoded_len(t),
{
    lemma_auto_spec_u64_to_from_le_bytes();
    lemma_sigs_encoded_bytes_len(t.signatures);
}

/// A well-formed transaction run's encoding has exactly its computed length.
pub proof fn lemma_txs_encoded_bytes_len(ts: Seq<TxView>)
    requires
        forall|i: int, j: int|
            0 <= i < ts.len() && 0 <= j < (#[trigger] ts[i]).signatures.len() ==> (
            #[trigger] ts[i].signatures[j]).len() == 64,
    ensures
        txs_encoded(ts).len() == txs_encoded_len(ts),
    decreases ts.len(),
{
    if ts.len() > 0 {
        lemma_tx_encoded_bytes_len(ts[0]);
        lemma_txs_encoded_bytes_len(ts.drop_first());
    }
}

/// A well-formed entry's encoding has exactly its computed length.
pub proof fn lemma_entry_encoded_bytes_len(e: EntryView)
    requires
        e.hash.len() == 32,
        forall|i: int, j: int|
            0 <= i < e.transactions.len() && 0 <= j < (
            #[trigger] e.transactions[i]).signatures.len() ==> (
            #[trigger] e.transactions[i].signatures[j]).len() == 64,
    ensures
        entry_encoded(e).len() == entry_encoded_len(e),
{
    lemma_auto_spec_u64_to_from_le_bytes();
    lemma_txs_encoded_bytes_len(e.transactions);
}

/// A run of well-formed entries encodes to exactly its computed length.
pub proof fn lemma_entries_body_bytes_len(es: Seq<EntryView>)
    requires
        forall|i: int| 0 <= i < es.len() ==> crate::entry::entry_wf(#[trigger] es[i]),
    ensures
        entries_body(es).len() == entries_body_len(es),
    decreases es.len(),
{
    if es.len() > 0 {
        lemma_entry_encoded_bytes_len(es[0]);
        lemma_entries_body_bytes_len(es.drop_first());
    }
}

/// The byte size of the network unit that would carry the given entries:
/// the count prefix plus every entry's encoded length, capped at `u64::MAX`.
pub fn entries_blob_size(entries: &[Entry]) -> (r: u64)
    ensures
        r as int == sat_u64(8 + entries_body_len(entries_view(entries@))),
{
    let ghost all = entries_view(entries@);
    let mut acc: u64 = 8;
    let mut i: usize = 0;
    proof {
        assert(all.take(0) =~= Seq::<EntryView>::empty());
    }
    while i < entries.len()
        invariant
            i <= entries@.len(),
            all == entries_view(entries@),
            all.len() == entries@.len(),
            acc as int == sat_u64(8 + entries_body_len(all.take(i as int))),
        decreases entries@.len() - i,
    {
        let txs_part = Entry::serialized_to_blob_size(entries[i].transactions.as_slice());
        proof {
            lemma_entries_body_len_nonneg(all.take(i as int));
            lemma_txs_encoded_len_nonneg(all[i as int].transactions);
            assert(all[i as int].transactions == crate::transaction::txs_view(
                entries@[i as int].transactions@,
            ));
        }
        let entry_part = if txs_part >= 8 {
            txs_part - 8
        } else {
            0
        };
        proof {
            let tlen = txs_encoded_len(all[i as int].transactions);
            assert(txs_part as int == sat_u64(56 + tlen));
            assert(txs_part >= 56);
            assert(entry_part as int == sat_u64(56 + tlen) - 8);
        }
        acc = acc.saturating_add(entry_part);
        proof {
            let prev = entries_body_len(all.take(i as int));
            let tlen = txs_encoded_len(all[i as int].transactions);
            lemma_entries_body_len_push(all.take(i as int), all[i as int]);
            assert(all.take(i + 1) =~= all.take(i as int).push(all[i as int]));
            assert(entries_body_len(all.take(i + 1)) == prev + 48 + tlen);
            assert(acc as int == sat_u64(8 + prev + 48 + tlen));
        }
        i += 1;
    }
    proof {
        assert(all.take(all.len() as int) =~= all);
    }
    acc
}

} // verus!
