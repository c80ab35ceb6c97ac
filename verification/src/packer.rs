//! The bit packer: bits go in, whole bytes come out. It holds the whole
//! logic of writing; a writer over a stream empties it.

use vstd::prelude::*;
use crate::bitbuf::{BitBuf, max_bits};
use crate::bits::{
    expand, pack, pad, pad_len, zeros, lemma_expand_concat, lemma_expand_pack, lemma_pack_concat,
    lemma_pack_expand,
};

verus! {

/// A packer of bits into a byte sequence. It keeps the bits that do not fill a
/// byte yet, and remembers the size of its last flush.
pub struct BitPacker {
    inner: Vec<u8>,
    /// Bits accepted that do not fill a byte yet.
    leftover: BitBuf,
    /// The size in bits of the last flush; no running total.
    bits_written: usize,
}

/// The bytes that leave the packer when `bits` arrive behind the buffered
/// bits `leftover`: every whole byte of the two in a row.
pub open spec fn flushed(leftover: Seq<bool>, bits: Seq<bool>) -> Seq<u8> {
    pack(leftover + bits)
}

/// The bits that stay buffered when `bits` arrive behind the buffered bits
/// `leftover`: what lies behind the last whole byte of the two in a row.
pub open spec fn kept(leftover: Seq<bool>, bits: Seq<bool>) -> Seq<bool> {
    (leftover + bits).skip(8 * ((leftover.len() + bits.len()) as int / 8))
}

/// Packing sees only whole bytes: the bits behind the last byte boundary do
/// not change what is packed.
pub proof fn lemma_pack_whole(all: Seq<bool>)
    ensures
        pack(all.take(8 * (all.len() as int / 8))) == pack(all),
{
    let count = all.len() as int / 8;
    let whole = all.take(8 * count);
    assert forall|k: int| 0 <= k < count implies pack(all)[k] == pack(whole)[k] by {
        assert(all.subrange(8 * k, 8 * k + 8) =~= whole.subrange(8 * k, 8 * k + 8));
    }
    assert(pack(all) =~= pack(whole));
}

/// One step of writing keeps the bit stream: the bits of the bytes flushed,
/// followed by the bits kept, are the buffered bits followed by the new ones.
/// Less than a byte stays buffered.
pub proof fn lemma_write_step(leftover: Seq<bool>, bits: Seq<bool>)
    ensures
        expand(flushed(leftover, bits)) + kept(leftover, bits) == leftover + bits,
        kept(leftover, bits).len() == (leftover.len() + bits.len()) % 8,
        flushed(leftover, bits).len() == (leftover.len() + bits.len()) / 8,
        leftover.len() + bits.len() < 8 ==> flushed(leftover, bits) == Seq::<u8>::empty() && kept(
            leftover,
            bits,
        ) == leftover + bits,
{
    let all = leftover + bits;
    let count = all.len() as int / 8;
    let whole = all.take(8 * count);
    lemma_pack_whole(all);
    lemma_expand_pack(whole);
    assert(all =~= whole + all.skip(8 * count));
    if all.len() < 8 {
        assert(pack(all) =~= Seq::<u8>::empty());
        assert(all.skip(0) =~= all);
    }
}

/// One step of writing appends the new bits to the bit stream that the
/// packer holds.
pub proof fn lemma_stream_step(emitted: Seq<u8>, leftover: Seq<bool>, bits: Seq<bool>)
    ensures
        expand(emitted + flushed(leftover, bits)) + kept(leftover, bits) == (expand(emitted)
            + leftover) + bits,
{
    lemma_write_step(leftover, bits);
    lemma_expand_concat(emitted, flushed(leftover, bits));
    assert(expand(emitted + flushed(leftover, bits)) + kept(leftover, bits) =~= expand(emitted) + (
    expand(flushed(leftover, bits)) + kept(leftover, bits)));
    assert(expand(emitted) + (leftover + bits) =~= (expand(emitted) + leftover) + bits);
}

/// Writing whole bytes away from a byte boundary flushes as many bytes as
/// were written and keeps as many bits buffered as before.
pub proof fn lemma_write_bytes_step(leftover: Seq<bool>, bytes: Seq<u8>)
    requires
        leftover.len() < 8,
    ensures
        expand(bytes).len() == 8 * bytes.len(),
        kept(leftover, expand(bytes)).len() == leftover.len(),
        (leftover.len() + expand(bytes).len()) as int / 8 == bytes.len(),
        (leftover.len() + expand(bytes).len() < 8) == (bytes.len() == 0),
{
    lemma_write_step(leftover, expand(bytes));
}

/// Writing whole bytes at a byte boundary flushes those bytes and keeps
/// nothing.
pub proof fn lemma_write_aligned(leftover: Seq<bool>, bytes: Seq<u8>)
    requires
        leftover.len() == 0,
    ensures
        flushed(leftover, expand(bytes)) == bytes,
        kept(leftover, expand(bytes)) == Seq::<bool>::empty(),
{
    let bits = expand(bytes);
    assert(leftover + bits =~= bits);
    lemma_pack_expand(bytes);
    assert(bits.skip(8 * (bits.len() as int / 8)) =~= Seq::<bool>::empty());
}

/// Padding a byte-aligned front and a tail pads the tail alone, and the
/// packing of the whole is the bytes of the front followed by the padded
/// tail's.
pub proof fn lemma_pack_pad_tail(bytes: Seq<u8>, tail: Seq<bool>)
    ensures
        pack(pad(expand(bytes) + tail)) == bytes + pack(pad(tail)),
        tail.len() == 0 ==> pack(pad(tail)) == Seq::<u8>::empty(),
{
    let head = expand(bytes);
    assert(pad_len((head + tail).len()) == pad_len(tail.len()));
    assert(pad(head + tail) =~= head + pad(tail));
    lemma_pack_concat(head, pad(tail));
    lemma_pack_expand(bytes);
    if tail.len() == 0 {
        assert(pack(pad(tail)) =~= Seq::<u8>::empty());
    }
}

/// The bytes packed from the bits of `bits`, eight at a time.
fn pack_bits(bits: &BitBuf) -> (r: Vec<u8>)
    ensures
        r@ == pack(bits@),
{
    let count: usize = bits.len() / 8;
    let mut buf: Vec<u8> = Vec::new();
    let mut i: usize = 0;
    while i < count
        invariant
            i <= count,
            count == bits@.len() / 8,
            buf@ == pack(bits@).take(i as int),
        decreases count - i,
    {
        let byte: u8 = bits.byte_at(i);
        buf.push(byte);
        i = i + 1;
        proof {
            assert(buf@ =~= pack(bits@).take(i as int));
        }
    }
    proof {
        assert(buf@ =~= pack(bits@));
    }
    buf
}

impl BitPacker {
    /// The bytes written to the output so far.
    pub closed spec fn emitted(&self) -> Seq<u8> {
        self.inner@
    }

    /// The buffered bits: accepted, not yet part of a byte of the output.
    pub closed spec fn leftover_bits(&self) -> Seq<bool> {
        self.leftover@
    }

    /// The size in bits of the last flush.
    pub closed spec fn last_flush(&self) -> usize {
        self.bits_written
    }

    /// Every bit that the packer holds: the bits of the bytes in the output,
    /// then the buffered bits.
    pub open spec fn stream(&self) -> Seq<bool> {
        expand(self.emitted()) + self.leftover_bits()
    }

    /// The packer is consistent: less than a byte is buffered.
    pub open spec fn wf(&self) -> bool {
        self.leftover_bits().len() < 8
    }

    /// A packer that appends to `inner`, with nothing buffered.
    pub fn new(inner: Vec<u8>) -> (r: Self)
        ensures
            r.wf(),
            r.emitted() == inner@,
            r.leftover_bits() == Seq::<bool>::empty(),
            r.last_flush() == 0,
    {
        BitPacker { inner, leftover: BitBuf::new(), bits_written: 0 }
    }

    /// The bytes written to the output so far.
    pub fn output(&self) -> (r: &Vec<u8>)
        ensures
            r@ == self.emitted(),
    {
        &self.inner
    }

    /// Hands over the bytes written to the output so far and starts the
    /// output anew. The buffered bits stay.
    pub fn take_output(&mut self) -> (r: Vec<u8>)
        ensures
            r@ == old(self).emitted(),
            final(self).emitted() == Seq::<u8>::empty(),
            final(self).leftover_bits() == old(self).leftover_bits(),
            final(self).last_flush() == old(self).last_flush(),
    {
        let mut out: Vec<u8> = Vec::new();
        core::mem::swap(&mut out, &mut self.inner);
        out
    }

    /// The size in bits of the last flush.
    pub fn bits_written(&self) -> (r: usize)
        ensures
            r == self.last_flush(),
    {
        self.bits_written
    }

    /// The number of buffered bits.
    pub fn rest_len(&self) -> (r: usize)
        ensures
            r == self.leftover_bits().len(),
    {
        self.leftover.len()
    }

    /// The buffered bits as booleans, in order.
    pub fn rest(&mut self) -> (r: Vec<bool>)
        ensures
            r@ == old(self).leftover_bits(),
            *final(self) == *old(self),
    {
        self.leftover.to_bools()
    }

    /// Accepts `bits` behind what was written before. The buffered bits and
    /// `bits` in a row are cut at the last byte boundary: the whole bytes in
    /// front of it are packed, most significant bit first, and appended to
    /// the output; the bits behind it stay buffered. The size of the last
    /// flush changes only where a byte was written.
    pub fn write_bits(&mut self, bits: &BitBuf)
        requires
            old(self).wf(),
            old(self).leftover_bits().len() + bits@.len() <= max_bits(),
        ensures
            final(self).wf(),
            final(self).emitted() == old(self).emitted() + flushed(
                old(self).leftover_bits(),
                bits@,
            ),
            final(self).leftover_bits() == kept(old(self).leftover_bits(), bits@),
            final(self).stream() == old(self).stream() + bits@,
            final(self).last_flush() == if old(self).leftover_bits().len() + bits@.len() < 8 {
                old(self).last_flush() as int
            } else {
                8 * ((old(self).leftover_bits().len() + bits@.len()) as int / 8)
            },
    {
        let have: usize = self.leftover.len();
        let more: usize = bits.len();
        let ghost left = self.leftover@;
        proof {
            lemma_write_step(left, bits@);
            lemma_pack_whole(left + bits@);
            lemma_stream_step(self.inner@, left, bits@);
        }
        if have + more < 8 {
            self.leftover.extend_from(bits);
            proof {
                assert(self.inner@ + Seq::<u8>::empty() =~= self.inner@);
            }
            return;
        }
        let mut all = BitBuf::new();
        core::mem::swap(&mut all, &mut self.leftover);
        all.extend_from(bits);
        proof {
            assert(Seq::<bool>::empty() + bits@ =~= bits@);
        }
        let count: usize = (have + more) / 8;
        let tail = all.split_off(count * 8);
        let buf = pack_bits(&all);
        self.bits_written = buf.len() * 8;
        self.leftover = tail;
        self.inner.extend_from_slice(buf.as_slice());
    }

    /// Accepts the bits of `buf` behind what was written before. At a byte
    /// boundary the bytes go to the output as they are; elsewhere they are
    /// written as `8 * buf.len()` bits.
    pub fn write_bytes(&mut self, buf: &[u8])
        requires
            old(self).wf(),
            8 * buf@.len() <= usize::MAX,
            old(self).leftover_bits().len() > 0 ==> old(self).leftover_bits().len() + 8
                * buf@.len() <= max_bits(),
        ensures
            final(self).wf(),
            final(self).emitted() == old(self).emitted() + flushed(
                old(self).leftover_bits(),
                expand(buf@),
            ),
            final(self).leftover_bits() == kept(old(self).leftover_bits(), expand(buf@)),
            final(self).leftover_bits().len() == old(self).leftover_bits().len(),
            final(self).stream() == old(self).stream() + expand(buf@),
            final(self).last_flush() == if old(self).leftover_bits().len() > 0 && buf@.len()
                == 0 {
                old(self).last_flush() as int
            } else {
                8 * buf@.len() as int
            },
    {
        if !self.leftover.is_empty() {
            let bits = BitBuf::from_bytes(buf);
            proof {
                lemma_write_bytes_step(self.leftover@, buf@);
            }
            self.write_bits(&bits);
        } else {
            self.inner.extend_from_slice(buf);
            self.bits_written = buf.len() * 8;
            proof {
                lemma_write_aligned(old(self).leftover@, buf@);
                lemma_write_bytes_step(old(self).leftover@, buf@);
                lemma_stream_step(old(self).inner@, old(self).leftover@, expand(buf@));
            }
        }
    }

    /// Closes the bit stream: where bits are buffered, they are filled up
    /// with zero bits to a whole byte, which is appended to the output.
    /// Afterwards nothing is buffered, and the output is the packing of
    /// everything that was written, padded with zero bits. The size of the
    /// last flush is left as it was.
    pub fn finalize(&mut self)
        requires
            old(self).wf(),
        ensures
            final(self).wf(),
            final(self).leftover_bits() == Seq::<bool>::empty(),
            final(self).emitted() == old(self).emitted() + pack(pad(old(self).leftover_bits())),
            final(self).emitted() == pack(pad(old(self).stream())),
            old(self).leftover_bits().len() == 0 ==> final(self).emitted() == old(self).emitted(),
            final(self).last_flush() == old(self).last_flush(),
    {
        proof {
            lemma_pack_pad_tail(self.inner@, self.leftover@);
            assert(self.inner@ + Seq::<u8>::empty() =~= self.inner@);
        }
        if !self.leftover.is_empty() {
            let have: usize = self.leftover.len();
            let fill = BitBuf::repeat(false, 8 - have);
            proof {
                assert(fill@ =~= zeros(pad_len(have as nat)));
            }
            self.leftover.extend_from(&fill);
            let buf = pack_bits(&self.leftover);
            self.inner.extend_from_slice(buf.as_slice());
            self.leftover = BitBuf::new();
        }
    }
}

} // verus!
