//! Chunk decomposition of a streamed payload.
//!
//! The chip's data interface accepts at most a fixed number of bytes per
//! transfer, so a payload is cut into maximal chunks: every chunk but the
//! last has exactly the chunk size, the last holds the remainder, and the
//! chunks concatenate back to the payload.

use vstd::arithmetic::div_mod::{lemma_basic_div, lemma_div_plus_one};
use vstd::prelude::*;

verus! {

/// The payload `data` cut into chunks of at most `size` bytes, in order.
pub open spec fn chunk_seqs(data: Seq<u8>, size: nat) -> Seq<Seq<u8>>
    decreases data.len(),
{
    if size == 0 || data.len() == 0 {
        Seq::empty()
    } else if data.len() <= size {
        seq![data]
    } else {
        seq![data.take(size as int)] + chunk_seqs(data.skip(size as int), size)
    }
}

/// A non-empty payload's chunking opens with its first maximal chunk.
pub proof fn lemma_chunk_seqs_unfold(data: Seq<u8>, size: nat)
    requires
        size > 0,
        data.len() > 0,
    ensures
        ({
            let head = if data.len() <= size {
                data.len() as int
            } else {
                size as int
            };
            chunk_seqs(data, size) == seq![data.take(head)] + chunk_seqs(data.skip(head), size)
        }),
{
    if data.len() <= size {
        assert(data.take(data.len() as int) =~= data);
        assert(data.skip(data.len() as int) =~= Seq::<u8>::empty());
        assert(chunk_seqs(Seq::<u8>::empty(), size) == Seq::<Seq<u8>>::empty());
        assert(chunk_seqs(data, size) =~= seq![data.take(data.len() as int)] + chunk_seqs(
            data.skip(data.len() as int),
            size,
        ));
    }
}

/// There are exactly `ceil(len / size)` chunks.
pub proof fn lemma_chunk_seqs_count(data: Seq<u8>, size: nat)
    requires
        size > 0,
    ensures
        chunk_seqs(data, size).len() == (data.len() + size - 1) / (size as int),
    decreases data.len(),
{
    if data.len() == 0 {
        lemma_basic_div(size - 1, size as int);
    } else if data.len() <= size {
        lemma_basic_div(data.len() as int - 1, size as int);
        assert((data.len() + size - 1) / (size as int) == 1) by {
            lemma_div_plus_one(data.len() as int - 1, size as int);
        }
    } else {
        lemma_chunk_seqs_count(data.skip(size as int), size);
        assert(data.skip(size as int).len() == data.len() - size);
        lemma_div_plus_one(data.len() as int - 1, size as int);
    }
}

/// The chunks concatenate back to the payload.
pub proof fn lemma_chunk_seqs_flatten(data: Seq<u8>, size: nat)
    requires
        size > 0,
    ensures
        chunk_seqs(data, size).flatten() == data,
    decreases data.len(),
{
    reveal_with_fuel(Seq::flatten, 3);
    if data.len() == 0 {
        assert(chunk_seqs(data, size).flatten() =~= data);
    } else if data.len() <= size {
        assert(chunk_seqs(data, size).flatten() =~= data);
    } else {
        let head = data.take(size as int);
        let tail = data.skip(size as int);
        lemma_chunk_seqs_flatten(tail, size);
        let cs = chunk_seqs(data, size);
        assert(cs.drop_first() =~= chunk_seqs(tail, size));
        assert(cs.flatten() == head + cs.drop_first().flatten());
        assert(head + tail =~= data);
    }
}

/// Every chunk but the last has exactly `size` bytes; the last is
/// non-empty and holds at most `size` bytes.
pub proof fn lemma_chunk_seqs_sizes(data: Seq<u8>, size: nat)
    requires
        size > 0,
    ensures
        forall|i: int|
            0 <= i < chunk_seqs(data, size).len() - 1 ==> #[trigger] chunk_seqs(
                data,
                size,
            )[i].len() == size,
        data.len() > 0 ==> {
            let last = chunk_seqs(data, size).last();
            1 <= last.len() <= size
        },
    decreases data.len(),
{
    if data.len() == 0 || data.len() <= size {
    } else {
        let tail = data.skip(size as int);
        lemma_chunk_seqs_sizes(tail, size);
        let cs = chunk_seqs(data, size);
        assert forall|i: int| 0 <= i < cs.len() - 1 implies #[trigger] cs[i].len() == size by {
            if i > 0 {
                assert(cs[i] == chunk_seqs(tail, size)[i - 1]);
            }
        }
        assert(cs.last() == chunk_seqs(tail, size).last());
    }
}

} // verus!
