//! Packing an ordered sequence into size-bounded contiguous runs: a binary
//! search finds the largest prefix whose measured size fits, so the number
//! of size measurements stays logarithmic, and the splitter applies it
//! repeatedly without ever splitting or duplicating an item.
use vstd::prelude::*;

verus! {

/// The size function may be called on any slice.
pub open spec fn size_fn_total<T, F: Fn(&[T]) -> u64>(f: F) -> bool {
    forall|s: &[T]| call_requires(f, (s,))
}

/// Some call of `f` on a slice holding exactly `s` may return `r`.
pub open spec fn measured_size<T, F: Fn(&[T]) -> u64>(f: F, s: Seq<T>, r: u64) -> bool {
    exists|sl: &[T]| sl@ == s && call_ensures(f, (sl,), r)
}

/// The first `n` items of `items` measured at a size within `max`.
pub open spec fn prefix_fits<T, F: Fn(&[T]) -> u64>(
    f: F,
    items: Seq<T>,
    n: int,
    max: u64,
) -> bool {
    exists|r: u64| measured_size(f, items.take(n), r) && r <= max
}

/// The first `n` items of `items` measured at a size beyond `max`.
pub open spec fn prefix_exceeds<T, F: Fn(&[T]) -> u64>(
    f: F,
    items: Seq<T>,
    n: int,
    max: u64,
) -> bool {
    exists|r: u64| measured_size(f, items.take(n), r) && r > max
}

/// How many leading items of `serializables` fit within `max_size` under the
/// given size function: the returned prefix measured within the bound, and,
/// when it is not the whole input, one more item measured beyond it. An
/// empty input, or a first item measured beyond the bound, gives zero.
/// Finds the boundary with a logarithmic number of size measurements.
pub fn num_will_fit<T, F: Fn(&[T]) -> u64>(
    serializables: &[T],
    max_size: u64,
    serialized_size: F,
) -> (n: usize)
    requires
        size_fn_total(serialized_size),
    ensures
        n <= serializables@.len(),
        serializables@.len() == 0 ==> n == 0,
        n > 0 ==> prefix_fits(serialized_size, serializables@, n as int, max_size),
        serializables@.len() > 0 && n < serializables@.len() ==> prefix_exceeds(
            serialized_size,
            serializables@,
            n as int + 1,
            max_size,
        ),
{
    let len = serializables.len();
    if len == 0 {
        return 0;
    }
    let first_slice = &serializables[0..1];
    let first = serialized_size(first_slice);
    proof {
        assert(first_slice@ == serializables@.take(1));
        assert(call_ensures(serialized_size, (first_slice,), first));
        assert(measured_size(serialized_size, serializables@.take(1), first));
    }
    if first > max_size {
        proof {
            assert(prefix_exceeds(serialized_size, serializables@, 1, max_size));
        }
        return 0;
    }
    let full_slice = &serializables[0..len];
    let full = serialized_size(full_slice);
    proof {
        assert(full_slice@ == serializables@.take(len as int));
        assert(call_ensures(serialized_size, (full_slice,), full));
        assert(measured_size(serialized_size, serializables@.take(len as int), full));
    }
    if full <= max_size {
        proof {
            assert(prefix_fits(serialized_size, serializables@, len as int, max_size));
        }
        return len;
    }
    if len == 1 {
        proof {
            assert(serializables@.take(1) == serializables@.take(len as int));
            assert(prefix_fits(serialized_size, serializables@, 1, max_size));
        }
        return 1;
    }
    proof {
        assert(prefix_fits(serialized_size, serializables@, 1, max_size));
        assert(prefix_exceeds(serialized_size, serializables@, len as int, max_size));
    }
    let mut lo: usize = 1;
    let mut hi: usize = len;
    while hi - lo > 1
        invariant
            1 <= lo < hi <= serializables@.len(),
            size_fn_total(serialized_size),
            prefix_fits(serialized_size, serializables@, lo as int, max_size),
            prefix_exceeds(serialized_size, serializables@, hi as int, max_size),
        decreases hi - lo,
    {
        let mid = lo + (hi - lo) / 2;
        let mid_slice = &serializables[0..mid];
        let sz = serialized_size(mid_slice);
        proof {
            assert(mid_slice@ == serializables@.take(mid as int));
            assert(call_ensures(serialized_size, (mid_slice,), sz));
            assert(measured_size(serialized_size, serializables@.take(mid as int), sz));
        }
        if sz <= max_size {
            proof {
                assert(prefix_fits(serialized_size, serializables@, mid as int, max_size));
            }
            lo = mid;
        } else {
            proof {
                assert(prefix_exceeds(serialized_size, serializables@, mid as int, max_size));
            }
            hi = mid;
        }
    }
    lo
}

/// The run `chunk`, measured alone, fits within `max`.
pub open spec fn chunk_fits<T, F: Fn(&[T]) -> u64>(f: F, chunk: Seq<T>, max: u64) -> bool {
    exists|r: u64| measured_size(f, chunk, r) && r <= max
}

/// The run `chunk`, extended by the one item that follows it, is measured
/// beyond `max`: the run could not have taken one more item.
pub open spec fn boundary_exceeds<T, F: Fn(&[T]) -> u64>(
    f: F,
    chunk: Seq<T>,
    next: T,
    max: u64,
) -> bool {
    exists|r: u64| measured_size(f, chunk.push(next), r) && r > max
}

/// A partition of `items` into contiguous non-empty runs, in order: the runs
/// concatenate back to `items`, every run measured within `max`, and every
/// run but the last measured beyond `max` once extended by the next item.
pub open spec fn is_chunking<T, F: Fn(&[T]) -> u64>(
    f: F,
    items: Seq<T>,
    chunks: Seq<Seq<T>>,
    max: u64,
) -> bool {
    &&& chunks.flatten() == items
    &&& forall|i: int| 0 <= i < chunks.len() ==> (#[trigger] chunks[i]).len() > 0
    &&& forall|i: int| 0 <= i < chunks.len() ==> chunk_fits(f, #[trigger] chunks[i], max)
    &&& forall|i: int|
        0 <= i < chunks.len() - 1 ==> boundary_exceeds(
            f,
            #[trigger] chunks[i],
            chunks[i + 1][0],
            max,
        )
}

/// Every measurement of `item` alone stays within `max`.
pub open spec fn singleton_within<T, F: Fn(&[T]) -> u64>(f: F, item: T, max: u64) -> bool {
    forall|r: u64| measured_size(f, seq![item], r) ==> r <= max
}

/// Every single item of `items`, measured alone, fits within `max`.
pub open spec fn each_item_fits<T, F: Fn(&[T]) -> u64>(f: F, items: Seq<T>, max: u64) -> bool {
    forall|i: int| 0 <= i < items.len() ==> singleton_within(f, #[trigger] items[i], max)
}

/// Splits `serializables` into the ordered runs of a size-bounded chunking
/// and converts each run into one output unit. Total whenever every single
/// item fits the bound on its own; no item is split, dropped or duplicated.
#[verifier::rlimit(60)]
pub fn split_serializable_chunks<T, R, F1: Fn(&[T]) -> u64 + Copy, F2: Fn(&[T]) -> R>(
    serializables: &[T],
    max_size: u64,
    serialized_size: F1,
    converter: F2,
) -> (result: Vec<R>)
    requires
        size_fn_total(serialized_size),
        forall|s: &[T]| call_requires(converter, (s,)),
        each_item_fits(serialized_size, serializables@, max_size),
    ensures
        exists|chunks: Seq<Seq<T>>|
            {
                &&& is_chunking(serialized_size, serializables@, chunks, max_size)
                &&& result@.len() == chunks.len()
                &&& forall|i: int|
                    0 <= i < chunks.len() ==> exists|sl: &[T]|
                        sl@ == chunks[i] && call_ensures(
                            converter,
                            (sl,),
                            #[trigger] result@[i],
                        )
            },
{
    let ghost items = serializables@;
    let mut result: Vec<R> = Vec::new();
    let ghost mut chunks: Seq<Seq<T>> = Seq::empty();
    let mut chunk_start: usize = 0;
    proof {
        assert(chunks.flatten() =~= items.take(0));
    }
    while chunk_start < serializables.len()
        invariant
            chunk_start <= serializables@.len(),
            items == serializables@,
            size_fn_total(serialized_size),
            forall|s: &[T]| call_requires(converter, (s,)),
            each_item_fits(serialized_size, items, max_size),
            chunks.flatten() == items.take(chunk_start as int),
            forall|i: int| 0 <= i < chunks.len() ==> (#[trigger] chunks[i]).len() > 0,
            forall|i: int|
                0 <= i < chunks.len() ==> chunk_fits(serialized_size, #[trigger] chunks[i], max_size),
            forall|i: int|
                0 <= i < chunks.len() - 1 ==> boundary_exceeds(
                    serialized_size,
                    #[trigger] chunks[i],
                    chunks[i + 1][0],
                    max_size,
                ),
            chunks.len() > 0 && chunk_start < items.len() ==> boundary_exceeds(
                serialized_size,
                chunks[chunks.len() - 1],
                items[chunk_start as int],
                max_size,
            ),
            result@.len() == chunks.len(),
            forall|i: int|
                0 <= i < chunks.len() ==> exists|sl: &[T]|
                    sl@ == chunks[i] && call_ensures(converter, (sl,), #[trigger] result@[i]),
        decreases serializables@.len() - chunk_start,
    {
        let remaining = &serializables[chunk_start..serializables.len()];
        let ghost rem = remaining@;
        let fit = num_will_fit(remaining, max_size, serialized_size);
        proof {
            if fit == 0 {
                assert(prefix_exceeds(serialized_size, rem, 1, max_size));
                let r = choose|r: u64| measured_size(serialized_size, rem.take(1), r) && r
                    > max_size;
                assert(rem.take(1) =~= seq![items[chunk_start as int]]);
                assert(measured_size(serialized_size, seq![items[chunk_start as int]], r));
                assert(singleton_within(serialized_size, items[chunk_start as int], max_size));
                assert(false);
            }
        }
        let chunk_end = chunk_start + fit;
        let chunk_slice = &serializables[chunk_start..chunk_end];
        let unit = converter(chunk_slice);
        let ghost this_chunk = chunk_slice@;
        proof {
            assert(this_chunk =~= rem.take(fit as int));
        }
        result.push(unit);
        proof {
            let old_chunks = chunks;
            chunks = chunks.push(this_chunk);
            old_chunks.lemma_flatten_push(this_chunk);
            assert(chunks.flatten() =~= items.take(chunk_end as int));
            assert(prefix_fits(serialized_size, rem, fit as int, max_size));
            let rf = choose|r: u64| measured_size(serialized_size, rem.take(fit as int), r) && r
                <= max_size;
            assert(measured_size(serialized_size, this_chunk, rf));
            assert(chunk_fits(serialized_size, this_chunk, max_size));
            if chunk_end < items.len() {
                assert(prefix_exceeds(serialized_size, rem, fit as int + 1, max_size));
                let ghost ext = rem.take(fit as int + 1);
                let re = choose|r: u64| measured_size(serialized_size, ext, r) && r > max_size;
                assert(ext =~= this_chunk.push(items[chunk_end as int]));
                assert(measured_size(serialized_size, this_chunk.push(items[chunk_end as int]), re));
                assert(boundary_exceeds(serialized_size, this_chunk, items[chunk_end as int], max_size));
            }
            assert forall|i: int| 0 <= i < chunks.len() - 1 implies boundary_exceeds(
                serialized_size,
                #[trigger] chunks[i],
                chunks[i + 1][0],
                max_size,
            ) by {
                if i < old_chunks.len() - 1 {
                    assert(chunks[i] == old_chunks[i]);
                    assert(chunks[i + 1] == old_chunks[i + 1]);
                } else {
                    assert(chunks[i] == old_chunks[old_chunks.len() - 1]);
                    assert(chunks[i + 1] == this_chunk);
                    assert(this_chunk[0] == rem[0]);
                    assert(rem[0] == items[chunk_start as int]);
                }
            }
        }
        chunk_start = chunk_end;
    }
    proof {
        assert(items.take(chunk_start as int) =~= items);
    }
    result
}

} // verus!
