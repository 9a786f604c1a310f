//! The compute core of the transaction-history store: grouping a block's
//! signatures by the addresses they touch, and the fixed byte layouts of
//! the stored records. Reading and writing the files themselves is left to
//! the caller.
use vstd::prelude::*;
use crate::compression::{method_index, CompressionMethod};
use crate::transaction::{Pubkey, Signature};
use vstd::bytes::{spec_u32_to_le_bytes, spec_u64_to_le_bytes, u32_to_le_bytes, u64_to_le_bytes};

verus! {

/// One transaction of a confirmed block, as the history store reads it:
/// its primary signature and the account addresses it touches.
#[derive(Debug, Clone)]
pub struct BlockTransaction {
    pub signature: Signature,
    pub addresses: Vec<Pubkey>,
}

/// The stored locator of a transaction: its slot and its index within the
/// block, both little-endian.
pub fn encode_locator(slot: u64, index: u32) -> (r: Vec<u8>)
    ensures
        r@ == spec_u64_to_le_bytes(slot) + spec_u32_to_le_bytes(index),
{
    let mut out = u64_to_le_bytes(slot);
    let mut idx = u32_to_le_bytes(index);
    out.append(&mut idx);
    out
}

/// The stored tag of a compression codec: its index, little-endian.
pub fn encode_method_tag(method: CompressionMethod) -> (r: Vec<u8>)
    ensures
        r@ == spec_u32_to_le_bytes(method_index(method) as u32),
{
    let tag: u32 = match method {
        CompressionMethod::NoCompression => 0,
        CompressionMethod::Bzip2 => 1,
        CompressionMethod::Gzip => 2,
        CompressionMethod::Zstd => 3,
    };
    u32_to_le_bytes(tag)
}

/// Whether the transaction touches the address.
pub open spec fn tx_mentions(t: BlockTransaction, addr: Seq<u8>) -> bool {
    exists|j: int| 0 <= j < t.addresses@.len() && (#[trigger] t.addresses@[j])@ == addr
}

/// The signatures, in block order, of the transactions that touch the
/// address.
pub open spec fn sigs_for(txs: Seq<BlockTransaction>, addr: Seq<u8>) -> Seq<Seq<u8>>
    decreases txs.len(),
{
    if txs.len() == 0 {
        Seq::empty()
    } else {
        (if tx_mentions(txs[0], addr) {
            seq![txs[0].signature@]
        } else {
            Seq::empty()
        }) + sigs_for(txs.drop_first(), addr)
    }
}

/// Appending one transaction appends its signature to the groups of the
/// addresses it touches.
pub proof fn lemma_sigs_for_push(txs: Seq<BlockTransaction>, t: BlockTransaction, addr: Seq<u8>)
    ensures
        sigs_for(txs.push(t), addr) == sigs_for(txs, addr) + (if tx_mentions(t, addr) {
            seq![t.signature@]
        } else {
            Seq::<Seq<u8>>::empty()
        }),
    decreases txs.len(),
{
    let tail = if tx_mentions(t, addr) {
        seq![t.signature@]
    } else {
        Seq::<Seq<u8>>::empty()
    };
    if txs.len() == 0 {
        assert(txs.push(t)[0] == t);
        assert(txs.push(t).drop_first() =~= Seq::<BlockTransaction>::empty());
        assert(sigs_for(Seq::<BlockTransaction>::empty(), addr) == Seq::<Seq<u8>>::empty());
        assert(sigs_for(txs.push(t), addr) == tail + Seq::<Seq<u8>>::empty());
        assert(tail + Seq::<Seq<u8>>::empty() =~= tail);
        assert(sigs_for(txs, addr) + tail =~= tail);
    } else {
        assert(txs.push(t)[0] == txs[0]);
        assert(txs.push(t).drop_first() =~= txs.drop_first().push(t));
        lemma_sigs_for_push(txs.drop_first(), t, addr);
        let head = if tx_mentions(txs[0], addr) {
            seq![txs[0].signature@]
        } else {
            Seq::<Seq<u8>>::empty()
        };
        assert(sigs_for(txs.push(t), addr) == head + (sigs_for(txs.drop_first(), addr) + tail));
        assert(head + (sigs_for(txs.drop_first(), addr) + tail) =~= (head + sigs_for(
            txs.drop_first(),
            addr,
        )) + tail);
    }
}

/// Whether the address is one of the excluded system addresses.
pub open spec fn addr_excluded(excluded: Seq<Pubkey>, addr: Seq<u8>) -> bool {
    exists|j: int| 0 <= j < excluded.len() && (#[trigger] excluded[j])@ == addr
}

/// Whether the address is one of the collected keys.
pub open spec fn addr_keyed(groups: Seq<(Pubkey, Vec<Signature>)>, addr: Seq<u8>) -> bool {
    exists|j: int| 0 <= j < groups.len() && (#[trigger] groups[j]).0@ == addr
}

/// Whether the address appears among the collected keys.
fn find_key(groups: &Vec<(Pubkey, Vec<Signature>)>, addr: &Pubkey) -> (r: Option<usize>)
    ensures
        match r {
            Some(k) => k < groups@.len() && groups@[k as int].0@ == addr@,
            None => !addr_keyed(groups@, addr@),
        },
{
    let mut k: usize = 0;
    while k < groups.len()
        invariant
            k <= groups@.len(),
            forall|j: int| 0 <= j < k ==> (#[trigger] groups@[j]).0@ != addr@,
        decreases groups@.len() - k,
    {
        if crate::hashing::bytes_eq(groups[k].0.bytes.as_slice(), addr.bytes.as_slice()) {
            return Some(k);
        }
        k += 1;
    }
    None
}

/// Whether the address is excluded.
fn is_excluded(excluded: &[Pubkey], addr: &Pubkey) -> (r: bool)
    ensures
        r == addr_excluded(excluded@, addr@),
{
    let mut k: usize = 0;
    while k < excluded.len()
        invariant
            k <= excluded@.len(),
            forall|j: int| 0 <= j < k ==> (#[trigger] excluded@[j])@ != addr@,
        decreases excluded@.len() - k,
    {
        if crate::hashing::bytes_eq(excluded[k].bytes.as_slice(), addr.bytes.as_slice()) {
            return true;
        }
        k += 1;
    }
    false
}

/// Groups a block's signatures by the addresses they touch, leaving the
/// excluded system addresses out. Each collected key holds, in block
/// order, the signatures of exactly the transactions that touch it; each
/// key appears once; a key is collected exactly when some transaction
/// touches it and it is not excluded. The order of the keys themselves is
/// left open, as the store does not rely on it.
#[verifier::loop_isolation(false)]
#[verifier::rlimit(60)]
pub fn group_signatures_by_address(txs: &[BlockTransaction], excluded: &[Pubkey]) -> (r: Vec<
    (Pubkey, Vec<Signature>),
>)
    ensures
        forall|a: int, b: int| 0 <= a < b < r@.len() ==> (#[trigger] r@[a]).0@ != (
        #[trigger] r@[b]).0@,
        forall|k: int|
            0 <= k < r@.len() ==> !addr_excluded(excluded@, (#[trigger] r@[k]).0@) && exists|t: int|
                0 <= t < txs@.len() && tx_mentions(#[trigger] txs@[t], r@[k].0@),
        forall|t: int, j: int|
            0 <= t < txs@.len() && 0 <= j < (#[trigger] txs@[t]).addresses@.len()
                && !addr_excluded(excluded@, (#[trigger] txs@[t].addresses@[j])@) ==> addr_keyed(
                r@,
                txs@[t].addresses@[j]@,
            ),
        forall|k: int|
            0 <= k < r@.len() ==> (#[trigger] r@[k]).1@.map_values(|s: Signature| s@) == sigs_for(
                txs@,
                r@[k].0@,
            ),
{
    let mut groups: Vec<(Pubkey, Vec<Signature>)> = Vec::new();
    let mut t: usize = 0;
    while t < txs.len()
        invariant
            t <= txs@.len(),
            forall|a: int, b: int| 0 <= a < b < groups@.len() ==> (#[trigger] groups@[a]).0@ != (
            #[trigger] groups@[b]).0@,
            forall|k: int|
                0 <= k < groups@.len() ==> !addr_excluded(excluded@, (#[trigger] groups@[k]).0@)
                    && exists|u: int|
                    0 <= u < t && tx_mentions(#[trigger] txs@[u], groups@[k].0@),
            forall|u: int, j: int|
                0 <= u < t && 0 <= j < (#[trigger] txs@[u]).addresses@.len() && !addr_excluded(
                    excluded@,
                    (#[trigger] txs@[u].addresses@[j])@,
                ) ==> addr_keyed(groups@, txs@[u].addresses@[j]@),
            forall|k: int|
                0 <= k < groups@.len() ==> (#[trigger] groups@[k]).1@.map_values(
                    |s: Signature| s@,
                ) == sigs_for(txs@.take(t as int), groups@[k].0@),
        decreases txs@.len() - t,
    {
        let tx = &txs[t];
        let mut j: usize = 0;
        // register every new, non-excluded address this transaction touches
        while j < tx.addresses.len()
            invariant
                j <= tx.addresses@.len(),
                t < txs@.len(),
                tx == &txs@[t as int],
                forall|a: int, b: int|
                    0 <= a < b < groups@.len() ==> (#[trigger] groups@[a]).0@ != (
                    #[trigger] groups@[b]).0@,
                forall|k: int|
                    0 <= k < groups@.len() ==> !addr_excluded(
                        excluded@,
                        (#[trigger] groups@[k]).0@,
                    ) && exists|u: int|
                        0 <= u <= t && tx_mentions(#[trigger] txs@[u], groups@[k].0@),
                forall|u: int, jj: int|
                    0 <= u < t && 0 <= jj < (#[trigger] txs@[u]).addresses@.len() && !addr_excluded(
                        excluded@,
                        (#[trigger] txs@[u].addresses@[jj])@,
                    ) ==> addr_keyed(groups@, txs@[u].addresses@[jj]@),
                forall|jj: int|
                    0 <= jj < j && !addr_excluded(
                        excluded@,
                        (#[trigger] tx.addresses@[jj])@,
                    ) ==> addr_keyed(groups@, tx.addresses@[jj]@),
                forall|k: int|
                    0 <= k < groups@.len() ==> (#[trigger] groups@[k]).1@.map_values(
                        |s: Signature| s@,
                    ) == sigs_for(txs@.take(t as int), groups@[k].0@),
            decreases tx.addresses@.len() - j,
        {
            let addr = &tx.addresses[j];
            if !is_excluded(excluded, addr) {
                match find_key(&groups, addr) {
                    Some(k0) => {
                        proof {
                            assert(groups@[k0 as int].0@ == addr@);
                            assert(addr_keyed(groups@, addr@));
                        }
                    },
                    None => {
                        let ghost before = groups@;
                        let empty_sigs: Vec<Signature> = Vec::new();
                        groups.push((addr.dup(), empty_sigs));
                        proof {
                            assert forall|a: Seq<u8>| addr_keyed(before, a) implies addr_keyed(
                                groups@,
                                a,
                            ) by {
                                let m = choose|m: int|
                                    0 <= m < before.len() && (#[trigger] before[m]).0@ == a;
                                assert(groups@[m] == before[m]);
                            }
                            assert(groups@.last().0@ == addr@);
                            assert(addr_keyed(groups@, addr@));
                            assert(tx.addresses@[j as int]@ == addr@);
                            assert(tx_mentions(txs@[t as int], addr@));
                            assert(groups@.last().1@.map_values(|s: Signature| s@)
                                =~= Seq::<Seq<u8>>::empty());
                            let prefix = txs@.take(t as int);
                            assert forall|u: int| 0 <= u < prefix.len() implies !tx_mentions(
                                #[trigger] prefix[u],
                                addr@,
                            ) by {
                                if tx_mentions(prefix[u], addr@) {
                                    assert(prefix[u] == txs@[u]);
                                    let jj = choose|jj: int|
                                        0 <= jj < txs@[u].addresses@.len() && (
                                        #[trigger] txs@[u].addresses@[jj])@ == addr@;
                                    assert(addr_keyed(before, addr@));
                                }
                            }
                            lemma_sigs_for_absent(prefix, addr@);
                        }
                    },
                }
            }
            j += 1;
        }
        // append this transaction's signature to every group it touches
        let mut k: usize = 0;
        let ghost pre_groups = groups@;
        while k < groups.len()
            invariant
                k <= groups@.len(),
                t < txs@.len(),
                tx == &txs@[t as int],
                groups@.len() == pre_groups.len(),
                forall|m: int| 0 <= m < groups@.len() ==> (#[trigger] groups@[m]).0@
                    == pre_groups[m].0@,
                forall|m: int|
                    k <= m < groups@.len() ==> (#[trigger] groups@[m]).1@ == pre_groups[m].1@,
                forall|a: int, b: int|
                    0 <= a < b < groups@.len() ==> (#[trigger] groups@[a]).0@ != (
                    #[trigger] groups@[b]).0@,
                forall|m: int|
                    0 <= m < pre_groups.len() ==> (#[trigger] pre_groups[m]).1@.map_values(
                        |s: Signature| s@,
                    ) == sigs_for(txs@.take(t as int), pre_groups[m].0@),
                forall|m: int|
                    0 <= m < k ==> (#[trigger] groups@[m]).1@.map_values(|s: Signature| s@)
                        == sigs_for(txs@.take(t as int + 1), groups@[m].0@),
            decreases groups@.len() - k,
        {
            let ghost old_groups = groups@;
            let touches = {
                let mut found = false;
                let mut jj: usize = 0;
                while jj < tx.addresses.len()
                    invariant
                        jj <= tx.addresses@.len(),
                        t < txs@.len(),
                        tx == &txs@[t as int],
                        k < groups@.len(),
                        found <==> exists|m: int|
                            0 <= m < jj && (#[trigger] tx.addresses@[m])@ == groups@[k as int].0@,
                    decreases tx.addresses@.len() - jj,
                {
                    if crate::hashing::bytes_eq(
                        tx.addresses[jj].bytes.as_slice(),
                        groups[k].0.bytes.as_slice(),
                    ) {
                        found = true;
                    }
                    jj += 1;
                }
                found
            };
            proof {
                assert(touches == tx_mentions(txs@[t as int], groups@[k as int].0@));
            }
            if touches {
                let mut pair = groups.remove(k);
                pair.1.push(tx.signature.dup());
                groups.insert(k, pair);
                proof {
                    assert(groups@.len() == old_groups.len());
                    assert forall|m: int| 0 <= m < groups@.len() && m != k implies groups@[m]
                        == old_groups[m] by {
                        assert(old_groups.remove(k as int).insert(
                            k as int,
                            groups@[k as int],
                        ) =~= groups@);
                    }
                }
            }
            proof {
                lemma_sigs_for_push(
                    txs@.take(t as int),
                    txs@[t as int],
                    groups@[k as int].0@,
                );
                assert(txs@.take(t as int + 1) =~= txs@.take(t as int).push(txs@[t as int]));
                if touches {
                    assert(groups@[k as int].1@.map_values(|s: Signature| s@)
                        =~= old_groups[k as int].1@.map_values(|s: Signature| s@).push(
                        txs@[t as int].signature@,
                    ));
                    assert(old_groups[k as int].1@.map_values(|s: Signature| s@).push(
                        txs@[t as int].signature@,
                    ) =~= sigs_for(txs@.take(t as int), groups@[k as int].0@) + seq![
                        txs@[t as int].signature@,
                    ]);
                } else {
                    assert(sigs_for(txs@.take(t as int), groups@[k as int].0@)
                        + Seq::<Seq<u8>>::empty() =~= sigs_for(
                        txs@.take(t as int),
                        groups@[k as int].0@,
                    ));
                }
            }
            k += 1;
        }
        proof {
            assert forall|u: int, jj: int|
                0 <= u < t + 1 && 0 <= jj < (#[trigger] txs@[u]).addresses@.len() && !addr_excluded(
                    excluded@,
                    (#[trigger] txs@[u].addresses@[jj])@,
                ) implies addr_keyed(groups@, txs@[u].addresses@[jj]@) by {
                assert(addr_keyed(pre_groups, txs@[u].addresses@[jj]@));
                let w = choose|m: int|
                    0 <= m < pre_groups.len() && (#[trigger] pre_groups[m]).0@
                        == txs@[u].addresses@[jj]@;
                assert(groups@[w].0@ == txs@[u].addresses@[jj]@);
            }
            assert forall|kk: int| 0 <= kk < groups@.len() implies (!addr_excluded(
                excluded@,
                (#[trigger] groups@[kk]).0@,
            ) && exists|u: int|
                0 <= u < t + 1 && tx_mentions(#[trigger] txs@[u], groups@[kk].0@)) by {
                assert(groups@[kk].0@ == pre_groups[kk].0@);
                let u = choose|u: int|
                    0 <= u <= t && tx_mentions(#[trigger] txs@[u], pre_groups[kk].0@);
                assert(tx_mentions(txs@[u], groups@[kk].0@));
            }
        }
        t += 1;
    }
    proof {
        assert(txs@.take(txs@.len() as int) =~= txs@);
    }
    groups
}

/// An address no transaction of the sequence touches has no signatures.
pub proof fn lemma_sigs_for_absent(txs: Seq<BlockTransaction>, addr: Seq<u8>)
    requires
        forall|u: int| 0 <= u < txs.len() ==> !tx_mentions(#[trigger] txs[u], addr),
    ensures
        sigs_for(txs, addr) == Seq::<Seq<u8>>::empty(),
    decreases txs.len(),
{
    if txs.len() > 0 {
        assert(txs.drop_first().len() == txs.len() - 1);
        assert forall|u: int| 0 <= u < txs.drop_first().len() implies !tx_mentions(
            #[trigger] txs.drop_first()[u],
            addr,
        ) by {
            assert(txs.drop_first()[u] == txs[u + 1]);
        }
        lemma_sigs_for_absent(txs.drop_first(), addr);
        assert(sigs_for(txs, addr) == Seq::<Seq<u8>>::empty() + Seq::<Seq<u8>>::empty());
        assert(Seq::<Seq<u8>>::empty() + Seq::<Seq<u8>>::empty()
            =~= Seq::<Seq<u8>>::empty());
    }
}

} // verus!
