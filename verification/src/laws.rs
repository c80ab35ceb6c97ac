//! What holds of whole sequences of reads and writes, stated over the same
//! spec functions as the contracts of the two adapters.

use vstd::prelude::*;
use crate::bits::{expand, pack, pad, lemma_pad, lemma_pack_expand};
use crate::queue::BitQueue;
use crate::packer::{flushed, kept, lemma_write_step, lemma_stream_step, lemma_pack_pad_tail};

verus! {

/// The chunks of bits in a row.
pub open spec fn concat(chunks: Seq<Seq<bool>>) -> Seq<bool>
    decreases chunks.len(),
{
    if chunks.len() == 0 {
        Seq::<bool>::empty()
    } else {
        chunks[0] + concat(chunks.drop_first())
    }
}

/// The sum of the sizes.
pub open spec fn total(sizes: Seq<nat>) -> nat
    decreases sizes.len(),
{
    if sizes.len() == 0 {
        0
    } else {
        sizes[0] + total(sizes.drop_first())
    }
}

/// What successive reads of `sizes[0]`, `sizes[1]`, ... bits return from a
/// reader whose bits still to come are `pending`: each read returns the
/// front of what is pending and leaves the rest.
pub open spec fn reads(pending: Seq<bool>, sizes: Seq<nat>) -> Seq<Seq<bool>>
    decreases sizes.len(),
{
    if sizes.len() == 0 {
        Seq::<Seq<bool>>::empty()
    } else {
        seq![pending.take(sizes[0] as int)] + reads(
            pending.skip(sizes[0] as int),
            sizes.drop_first(),
        )
    }
}

/// The output and the buffered bits of a writer that holds `emitted` and
/// `leftover` after the chunks were written to it one by one.
pub open spec fn writes(emitted: Seq<u8>, leftover: Seq<bool>, chunks: Seq<Seq<bool>>) -> (
    Seq<u8>,
    Seq<bool>,
)
    decreases chunks.len(),
{
    if chunks.len() == 0 {
        (emitted, leftover)
    } else {
        writes(
            emitted + flushed(leftover, chunks[0]),
            kept(leftover, chunks[0]),
            chunks.drop_first(),
        )
    }
}

/// The output of a fresh writer after the chunks were written to it one by
/// one and it was finalized.
pub open spec fn written(chunks: Seq<Seq<bool>>) -> Seq<u8> {
    let end = writes(Seq::<u8>::empty(), Seq::<bool>::empty(), chunks);
    end.0 + pack(pad(end.1))
}

/// Successive successful reads return, in a row, the front of the bits that
/// were pending before the first of them, as long as the sizes read add up
/// to. For a fresh reader over `bytes` the pending bits are `expand(bytes)`.
pub proof fn lemma_reads_are_prefix(pending: Seq<bool>, sizes: Seq<nat>)
    requires
        total(sizes) <= pending.len(),
    ensures
        concat(reads(pending, sizes)) == pending.take(total(sizes) as int),
    decreases sizes.len(),
{
    if sizes.len() == 0 {
        assert(pending.take(0) =~= Seq::<bool>::empty());
    } else {
        let first = sizes[0] as int;
        let rest = sizes.drop_first();
        let tail = reads(pending.skip(first), rest);
        lemma_reads_are_prefix(pending.skip(first), rest);
        let all = reads(pending, sizes);
        assert(all[0] == pending.take(first));
        assert(all.drop_first() =~= tail);
        assert(pending.take(first) + pending.skip(first).take(total(rest) as int)
            =~= pending.take(total(sizes) as int));
    }
}

/// However the bits are cut into chunks, a writer holds them all in order:
/// the bits of its output followed by its buffered bits are what it held
/// before followed by the chunks in a row. Less than a byte stays buffered.
pub proof fn lemma_writes_keep_stream(emitted: Seq<u8>, leftover: Seq<bool>, chunks: Seq<Seq<bool>>)
    requires
        leftover.len() < 8,
    ensures
        expand(writes(emitted, leftover, chunks).0) + writes(emitted, leftover, chunks).1 == (
        expand(emitted) + leftover) + concat(chunks),
        writes(emitted, leftover, chunks).1.len() < 8,
    decreases chunks.len(),
{
    if chunks.len() == 0 {
        assert((expand(emitted) + leftover) + Seq::<bool>::empty() =~= expand(emitted) + leftover);
    } else {
        let next_emitted = emitted + flushed(leftover, chunks[0]);
        let next_leftover = kept(leftover, chunks[0]);
        lemma_write_step(leftover, chunks[0]);
        lemma_stream_step(emitted, leftover, chunks[0]);
        lemma_writes_keep_stream(next_emitted, next_leftover, chunks.drop_first());
        assert(((expand(emitted) + leftover) + chunks[0]) + concat(chunks.drop_first()) =~= (expand(
            emitted,
        ) + leftover) + concat(chunks));
    }
}

/// Writing chunks of bits to a fresh writer and finalizing it gives the
/// packing, most significant bit first, of the chunks in a row, filled up
/// with zero bits to a whole byte.
pub proof fn lemma_written_is_packed(chunks: Seq<Seq<bool>>)
    ensures
        written(chunks) == pack(pad(concat(chunks))),
{
    let none = Seq::<u8>::empty();
    let end = writes(none, Seq::<bool>::empty(), chunks);
    lemma_writes_keep_stream(none, Seq::<bool>::empty(), chunks);
    assert(expand(none) + Seq::<bool>::empty() =~= Seq::<bool>::empty());
    assert(Seq::<bool>::empty() + concat(chunks) =~= concat(chunks));
    lemma_pack_pad_tail(end.0, end.1);
}

/// At the end no read of one bit or more succeeds: a reader for which
/// `end` answers true has no bit left, and a read succeeds only where as
/// many bits as it asks for are left.
pub proof fn lemma_no_read_at_end(reader: BitQueue, amt: usize)
    requires
        reader.at_end(),
        amt >= 1,
    ensures
        !reader.can_read(amt),
{
}

/// Round trip: for bytes cut into reads whose sizes add up to all their
/// bits, writing what the reads return to a fresh writer and finalizing it
/// gives the bytes back.
pub proof fn lemma_round_trip(bytes: Seq<u8>, sizes: Seq<nat>)
    requires
        total(sizes) == 8 * bytes.len(),
    ensures
        written(reads(expand(bytes), sizes)) == bytes,
{
    let bits = expand(bytes);
    lemma_reads_are_prefix(bits, sizes);
    assert(bits.take(total(sizes) as int) =~= bits);
    lemma_written_is_packed(reads(bits, sizes));
    lemma_pad(bits);
    lemma_pack_expand(bytes);
}

} // verus!
