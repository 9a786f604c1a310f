//! Network units: size-bounded byte buffers that carry encoded entry runs,
//! the packing of entry sequences into such units, and the reconstruction
//! of the entries from a sequence of units.
use vstd::prelude::*;
use crate::chunking::{measured_size, num_will_fit, prefix_exceeds, prefix_fits, size_fn_total};
use crate::codec::{
    decode_entries, encode_entries, entries_blob_size, entries_body_len, entries_encoded,
    entries_ok, entry_encoded_len, entry_ok, lemma_entries_body_bytes_len,
    lemma_entries_body_len_nonneg, lemma_entries_body_len_push, lemma_parse_blob_enc,
    lemma_txs_encoded_len_nonneg, parse_blob, sat_u64, txs_encoded_len, DecodeError,
    BLOB_DATA_SIZE,
};
use crate::entry::{entries_view, entry_wf, Entry, EntryView};

verus! {

/// One network unit: at most `BLOB_DATA_SIZE` bytes of entry data.
#[derive(Debug, Clone)]
pub struct Blob {
    pub data: Vec<u8>,
}

impl View for Blob {
    type V = Seq<u8>;

    open spec fn view(&self) -> Seq<u8> {
        self.data@
    }
}

impl Blob {
    /// A unit is well formed when its data fits the maximum payload.
    pub open spec fn wf(&self) -> bool {
        self@.len() <= BLOB_DATA_SIZE
    }
}

/// A well-formed entry round-trips through the wire format: its views
/// satisfy the codec's bounds.
pub proof fn lemma_wf_entry_ok(e: EntryView)
    requires
        entry_wf(e),
    ensures
        entry_ok(e),
{
    crate::codec::lemma_txs_encoded_len_bounds(e.transactions);
    assert(16 * e.transactions.len() <= txs_encoded_len(e.transactions));
    assert forall|i: int| 0 <= i < e.transactions.len() implies crate::codec::tx_ok(
        #[trigger] e.transactions[i],
    ) by {
        let t = e.transactions[i];
        assert(crate::codec::tx_encoded_len(t) <= txs_encoded_len(e.transactions));
        assert(64 * (t.signatures.len() as int) <= crate::codec::tx_encoded_len(t));
        assert(t.message.len() as int <= crate::codec::tx_encoded_len(t));
    }
}

/// The views of the entries decoded from each unit in order, concatenated;
/// nothing, when any single unit fails to decode.
pub open spec fn decode_units(units: Seq<Seq<u8>>) -> Option<Seq<EntryView>>
    decreases units.len(),
{
    if units.len() == 0 {
        Some(Seq::empty())
    } else {
        match parse_blob(units[0]) {
            None => None,
            Some(es) => match decode_units(units.drop_first()) {
                None => None,
                Some(rest) => Some(es + rest),
            },
        }
    }
}

/// The number of ticks in an entry sequence: entries with no transactions.
pub open spec fn tick_count(es: Seq<EntryView>) -> int
    decreases es.len(),
{
    if es.len() == 0 {
        0int
    } else {
        (if es[0].transactions.len() == 0 {
            1int
        } else {
            0int
        }) + tick_count(es.drop_first())
    }
}

/// Appending one entry raises the tick count by one exactly for a tick.
pub proof fn lemma_tick_count_push(es: Seq<EntryView>, e: EntryView)
    ensures
        tick_count(es.push(e)) == tick_count(es) + (if e.transactions.len() == 0 {
            1int
        } else {
            0int
        }),
    decreases es.len(),
{
    if es.len() == 0 {
        assert(es.push(e)[0] == e);
        assert(es.push(e).drop_first() =~= Seq::<EntryView>::empty());
        assert(tick_count(Seq::<EntryView>::empty()) == 0);
        assert(tick_count(es) == 0);
    } else {
        assert(es.push(e)[0] == es[0]);
        assert(es.push(e).drop_first() =~= es.drop_first().push(e));
        lemma_tick_count_push(es.drop_first(), e);
    }
}

/// The tick count never exceeds the number of entries.
pub proof fn lemma_tick_count_bound(es: Seq<EntryView>)
    ensures
        0 <= tick_count(es) <= es.len(),
    decreases es.len(),
{
    if es.len() > 0 {
        lemma_tick_count_bound(es.drop_first());
    }
}

/// When every unit decodes to a known run, decoding all units in order
/// gives exactly the concatenation of those runs.
pub proof fn lemma_decode_units_pointwise(units: Seq<Seq<u8>>, chunks: Seq<Seq<EntryView>>)
    requires
        units.len() == chunks.len(),
        forall|i: int| 0 <= i < units.len() ==> parse_blob(#[trigger] units[i]) == Some(
            chunks[i],
        ),
    ensures
        decode_units(units) == Some(chunks.flatten()),
    decreases units.len(),
{
    if units.len() == 0 {
        assert(chunks.flatten() =~= Seq::<EntryView>::empty());
    } else {
        lemma_decode_units_pointwise(units.drop_first(), chunks.drop_first());
        assert(chunks.flatten() == chunks[0] + chunks.drop_first().flatten());
    }
}

/// Packing an ordered entry sequence into units at any chunk boundaries,
/// then decoding each unit in order, reproduces the original sequence
/// exactly, in order and content: the round trip loses nothing.
pub proof fn lemma_pack_round_trip(chunks: Seq<Seq<EntryView>>, entries: Seq<EntryView>)
    requires
        chunks.flatten() == entries,
        forall|i: int| 0 <= i < chunks.len() ==> entries_ok(#[trigger] chunks[i]),
    ensures
        decode_units(chunks.map_values(|c: Seq<EntryView>| entries_encoded(c))) == Some(entries),
{
    let units = chunks.map_values(|c: Seq<EntryView>| entries_encoded(c));
    assert forall|i: int| 0 <= i < units.len() implies parse_blob(#[trigger] units[i]) == Some(
        chunks[i],
    ) by {
        lemma_parse_blob_enc(chunks[i]);
    }
    lemma_decode_units_pointwise(units, chunks);
}

/// Encodes one entry as a network unit of its own.
pub fn to_blob(entry: &Entry) -> (r: Blob)
    requires
        entry_wf(entry@),
    ensures
        r@ == entries_encoded(seq![entry@]),
        r.wf(),
        parse_blob(r@) == Some(seq![entry@]),
{
    let mut one: Vec<Entry> = Vec::new();
    one.push(entry.dup());
    let data = encode_entries(one.as_slice());
    proof {
        assert(entries_view(one@) =~= seq![entry@]);
        lemma_wf_entry_ok(entry@);
        assert(entries_ok(seq![entry@]));
        lemma_parse_blob_enc(seq![entry@]);
        lemma_entries_body_bytes_len(seq![entry@]);
        vstd::bytes::lemma_auto_spec_u64_to_from_le_bytes();
        assert(entries_body_len(seq![entry@]) == entry_encoded_len(entry@)) by {
            assert(seq![entry@][0] == entry@);
            assert(seq![entry@].drop_first() =~= Seq::<EntryView>::empty());
            assert(entries_body_len(Seq::<EntryView>::empty()) == 0);
        }
    }
    Blob { data }
}

/// Encodes each entry as a network unit of its own, in order.
pub fn to_single_entry_blobs(entries: &[Entry]) -> (r: Vec<Blob>)
    requires
        forall|i: int| 0 <= i < entries@.len() ==> entry_wf(#[trigger] entries_view(entries@)[i]),
    ensures
        r@.len() == entries@.len(),
        forall|i: int| 0 <= i < r@.len() ==> (#[trigger] r@[i])@ == entries_encoded(
            seq![entries_view(entries@)[i]],
        ) && r@[i].wf() && parse_blob(r@[i]@) == Some(seq![entries_view(entries@)[i]]),
{
    let ghost views = entries_view(entries@);
    let mut out: Vec<Blob> = Vec::new();
    let mut i: usize = 0;
    while i < entries.len()
        invariant
            i <= entries@.len(),
            views == entries_view(entries@),
            views.len() == entries@.len(),
            forall|j: int| 0 <= j < views.len() ==> entry_wf(#[trigger] views[j]),
            out@.len() == i,
            forall|j: int| 0 <= j < i ==> (#[trigger] out@[j])@ == entries_encoded(
                seq![views[j]],
            ) && out@[j].wf() && parse_blob(out@[j]@) == Some(seq![views[j]]),
        decreases entries@.len() - i,
    {
        proof {
            assert(entry_wf(views[i as int]));
            assert(views[i as int] == entries@[i as int]@);
        }
        let blob = to_blob(&entries[i]);
        out.push(blob);
        i += 1;
    }
    out
}

/// Packs an ordered entry sequence into the fewest size-bounded network
/// units that take entries greedily in order: each unit decodes back to
/// its run of entries, the runs concatenate to the input, and no unit
/// could have taken the entry that follows it. Decoding all units in
/// order therefore reproduces the input exactly.
#[verifier::loop_isolation(false)]
pub fn to_blobs(entries: &[Entry]) -> (r: Vec<Blob>)
    requires
        forall|i: int| 0 <= i < entries@.len() ==> entry_wf(#[trigger] entries_view(entries@)[i]),
    ensures
        forall|i: int| 0 <= i < r@.len() ==> (#[trigger] r@[i]).wf(),
        decode_units(r@.map_values(|b: Blob| b@)) == Some(entries_view(entries@)),
        exists|chunks: Seq<Seq<EntryView>>|
            {
                &&& chunks.flatten() == entries_view(entries@)
                &&& r@.len() == chunks.len()
                &&& forall|i: int| 0 <= i < chunks.len() ==> (#[trigger] chunks[i]).len() > 0
                &&& forall|i: int|
                    0 <= i < chunks.len() ==> parse_blob((#[trigger] r@[i])@) == Some(chunks[i])
                &&& forall|i: int|
                    0 <= i < chunks.len() - 1 ==> 8 + entries_body_len(
                        (#[trigger] chunks[i]).push(chunks[i + 1][0]),
                    ) > BLOB_DATA_SIZE
            },
{
    let ghost views = entries_view(entries@);
    let size_fn = |s: &[Entry]| -> (r: u64)
        ensures
            r as int == sat_u64(8 + entries_body_len(entries_view(s@))),
        { entries_blob_size(s) };
    let mut out: Vec<Blob> = Vec::new();
    let ghost mut chunks: Seq<Seq<EntryView>> = Seq::empty();
    let mut chunk_start: usize = 0;
    proof {
        assert(chunks.flatten() =~= views.take(0));
    }
    while chunk_start < entries.len()
        invariant
            chunk_start <= entries@.len(),
            chunks.flatten() == views.take(chunk_start as int),
            out@.len() == chunks.len(),
            forall|i: int| 0 <= i < chunks.len() ==> (#[trigger] chunks[i]).len() > 0,
            forall|i: int| 0 <= i < chunks.len() ==> (#[trigger] out@[i]).wf(),
            forall|i: int|
                0 <= i < chunks.len() ==> parse_blob((#[trigger] out@[i])@) == Some(chunks[i]),
            forall|i: int|
                0 <= i < chunks.len() - 1 ==> 8 + entries_body_len(
                    (#[trigger] chunks[i]).push(chunks[i + 1][0]),
                ) > BLOB_DATA_SIZE,
            chunks.len() > 0 && chunk_start < views.len() ==> 8 + entries_body_len(
                chunks[chunks.len() - 1].push(views[chunk_start as int]),
            ) > BLOB_DATA_SIZE,
        decreases entries@.len() - chunk_start,
    {
        let remaining = &entries[chunk_start..entries.len()];
        let ghost rem = entries_view(remaining@);
        proof {
            assert(rem =~= views.skip(chunk_start as int));
        }
        let fit = num_will_fit(remaining, BLOB_DATA_SIZE as u64, size_fn);
        proof {
            if fit == 0 {
                let r0 = choose|r: u64|
                    measured_size(size_fn, remaining@.take(1), r) && r > BLOB_DATA_SIZE as u64;
                assert(entries_view(remaining@.take(1)) =~= seq![views[chunk_start as int]]);
                lemma_entries_body_len_nonneg(Seq::<EntryView>::empty());
                assert(seq![views[chunk_start as int]].drop_first() =~= Seq::<EntryView>::empty());
                assert(entries_body_len(seq![views[chunk_start as int]]) == entry_encoded_len(
                    views[chunk_start as int],
                ));
                lemma_txs_encoded_len_nonneg(views[chunk_start as int].transactions);
                assert(r0 as int == sat_u64(8 + entry_encoded_len(views[chunk_start as int])));
                assert(8 + entry_encoded_len(views[chunk_start as int]) <= BLOB_DATA_SIZE);
                assert(false);
            }
        }
        let chunk_end = chunk_start + fit;
        let chunk_slice = &entries[chunk_start..chunk_end];
        let ghost this_chunk = entries_view(chunk_slice@);
        let data = encode_entries(chunk_slice);
        proof {
            assert(this_chunk =~= rem.take(fit as int));
            assert(this_chunk =~= views.subrange(chunk_start as int, chunk_end as int));
            assert(forall|j: int| 0 <= j < this_chunk.len() ==> entry_wf(#[trigger] this_chunk[j]));
            // the chunk's measured size is within the bound
            assert(prefix_fits(size_fn, remaining@, fit as int, BLOB_DATA_SIZE as u64));
            let ghost taken = remaining@.take(fit as int);
            let rf = choose|r: u64|
                measured_size(size_fn, taken, r) && r <= BLOB_DATA_SIZE as u64;
            assert(entries_view(taken) =~= this_chunk);
            assert(rf as int == sat_u64(8 + entries_body_len(this_chunk)));
            lemma_entries_body_len_nonneg(this_chunk);
            assert(8 + entries_body_len(this_chunk) <= BLOB_DATA_SIZE);
            lemma_entries_body_bytes_len(this_chunk);
            vstd::bytes::lemma_auto_spec_u64_to_from_le_bytes();
            assert(data@.len() <= BLOB_DATA_SIZE);
            assert forall|j: int| 0 <= j < this_chunk.len() implies entry_ok(
                #[trigger] this_chunk[j],
            ) by {
                lemma_wf_entry_ok(this_chunk[j]);
            }
            lemma_parse_blob_enc(this_chunk);
        }
        out.push(Blob { data });
        proof {
            let old_chunks = chunks;
            chunks = chunks.push(this_chunk);
            old_chunks.lemma_flatten_push(this_chunk);
            assert(chunks.flatten() =~= views.take(chunk_end as int));
            if chunk_end < views.len() {
                assert(prefix_exceeds(
                    size_fn,
                    remaining@,
                    fit as int + 1,
                    BLOB_DATA_SIZE as u64,
                ));
                let ghost ext = remaining@.take(fit as int + 1);
                let re = choose|r: u64|
                    measured_size(size_fn, ext, r) && r > BLOB_DATA_SIZE as u64;
                assert(entries_view(ext) =~= this_chunk.push(views[chunk_end as int]));
                assert(re as int == sat_u64(
                    8 + entries_body_len(this_chunk.push(views[chunk_end as int])),
                ));
                assert(8 + entries_body_len(this_chunk.push(views[chunk_end as int]))
                    > BLOB_DATA_SIZE);
            }
            assert forall|i: int| 0 <= i < chunks.len() - 1 implies 8 + entries_body_len(
                (#[trigger] chunks[i]).push(chunks[i + 1][0]),
            ) > BLOB_DATA_SIZE by {
                if i < old_chunks.len() - 1 {
                    assert(chunks[i] == old_chunks[i]);
                    assert(chunks[i + 1] == old_chunks[i + 1]);
                } else {
                    assert(chunks[i] == old_chunks[old_chunks.len() - 1]);
                    assert(chunks[i + 1] == this_chunk);
                    assert(this_chunk[0] == rem[0]);
                    assert(rem[0] == views[chunk_start as int]);
                }
            }
        }
        chunk_start = chunk_end;
    }
    proof {
        assert(views.take(chunk_start as int) =~= views);
        let unit_seq = out@.map_values(|b: Blob| b@);
        assert(unit_seq.len() == chunks.len());
        assert forall|i: int| 0 <= i < chunks.len() implies parse_blob(#[trigger] unit_seq[i])
            == Some(chunks[i]) by {
            assert(unit_seq[i] == out@[i]@);
        }
        lemma_decode_units_pointwise(unit_seq, chunks);
    }
    out
}

/// Rebuilds the ordered entry sequence carried by a sequence of network
/// units, counting the ticks among them. Fails exactly when some unit is
/// not a well-formed encoding; the entries of every unit, in unit order,
/// otherwise reproduce the packed sequence.
#[verifier::loop_isolation(false)]
pub fn reconstruct_entries_from_blobs(blobs: &[Blob]) -> (r: Result<
    (Vec<Entry>, u64),
    DecodeError,
>)
    ensures
        match decode_units(blobs@.map_values(|b: Blob| b@)) {
            Some(vs) => r matches Ok((es, nticks)) && entries_view(es@) == vs && nticks
                == tick_count(vs),
            None => r is Err,
        },
{
    let ghost units = blobs@.map_values(|b: Blob| b@);
    let mut entries: Vec<Entry> = Vec::new();
    let mut num_ticks: u64 = 0;
    let mut i: usize = 0;
    proof {
        assert(entries_view(entries@) =~= Seq::<EntryView>::empty());
        assert(units.skip(0) =~= units);
        match decode_units(units) {
            None => {},
            Some(vs) => {
                assert(entries_view(entries@) + vs =~= vs);
            },
        }
    }
    while i < blobs.len()
        invariant
            i <= blobs@.len(),
            num_ticks <= entries@.len(),
            num_ticks == tick_count(entries_view(entries@)),
            ({
                let full = decode_units(units);
                match decode_units(units.skip(i as int)) {
                    None => full is None,
                    Some(rest) => full == Some(entries_view(entries@) + rest),
                }
            }),
        decreases blobs@.len() - i,
    {
        let ghost old_entries = entries@;
        let decoded = match decode_entries(blobs[i].data.as_slice()) {
            Ok(v) => v,
            Err(e) => {
                proof {
                    assert(units.skip(i as int)[0] == blobs@[i as int]@);
                    assert(parse_blob(units.skip(i as int)[0]) is None);
                    assert(decode_units(units.skip(i as int)) is None);
                }
                return Err(e);
            },
        };
        let mut j: usize = 0;
        let ghost decoded_views = entries_view(decoded@);
        proof {
            lemma_tick_count_bound(decoded_views);
            assert(decoded_views.take(0) =~= Seq::<EntryView>::empty());
        }
        while j < decoded.len()
            invariant
                j <= decoded@.len(),
                decoded_views == entries_view(decoded@),
                decoded_views.len() == decoded@.len(),
                entries@.len() == old_entries.len() + j,
                entries_view(entries@) == entries_view(old_entries) + decoded_views.take(
                    j as int,
                ),
                num_ticks == tick_count(entries_view(entries@)),
                num_ticks <= entries@.len(),
            decreases decoded@.len() - j,
        {
            let entry = decoded[j].dup();
            let tick_here = entry.is_tick();
            proof {
                lemma_tick_count_push(entries_view(entries@), entry@);
                assert(entries_view(entries@.push(entry)) =~= entries_view(entries@).push(
                    entry@,
                ));
                assert(decoded_views.take(j + 1) =~= decoded_views.take(j as int).push(
                    decoded_views[j as int],
                ));
                assert(entry@ == decoded_views[j as int]);
                assert((entries_view(old_entries) + decoded_views.take(j as int)).push(entry@)
                    =~= entries_view(old_entries) + decoded_views.take(j + 1));
            }
            entries.push(entry);
            if tick_here {
                let n = entries.len();
                proof {
                    lemma_tick_count_bound(entries_view(entries@));
                    assert(entries_view(entries@).len() == n as int);
                    assert(num_ticks + 1 == tick_count(entries_view(entries@)));
                    assert(num_ticks + 1 <= n as int);
                }
                num_ticks = num_ticks + 1;
            }
            j += 1;
        }
        proof {
            assert(decoded_views.take(decoded_views.len() as int) =~= decoded_views);
            let rem_units = units.skip(i as int);
            assert(rem_units[0] == blobs@[i as int]@);
            assert(parse_blob(rem_units[0]) == Some(decoded_views));
            assert(rem_units.drop_first() =~= units.skip(i + 1));
            match decode_units(units.skip(i + 1)) {
                None => {
                    assert(decode_units(rem_units) is None);
                },
                Some(rest2) => {
                    assert(decode_units(rem_units) == Some(decoded_views + rest2));
                    assert(entries_view(old_entries) + (decoded_views + rest2) =~= entries_view(
                        entries@,
                    ) + rest2);
                },
            }
        }
        i += 1;
    }
    proof {
        assert(units.skip(blobs@.len() as int) =~= Seq::<Seq<u8>>::empty());
        assert(decode_units(Seq::<Seq<u8>>::empty()) == Some(Seq::<EntryView>::empty()));
        assert(entries_view(entries@) + Seq::<EntryView>::empty() =~= entries_view(entries@));
    }
    Ok((entries, num_ticks))
}

} // verus!
