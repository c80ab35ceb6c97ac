//! The writing adapter: bits and bytes packed into a byte stream.

use vstd::prelude::*;
use no_std_io::io::Write;
use crate::bitbuf::{BitBuf, max_bits};
use crate::bits::{expand, pack, pad};
use crate::error::DekuError;
use crate::packer::{
    BitPacker, flushed, kept, lemma_stream_step, lemma_write_step, lemma_write_bytes_step,
    lemma_write_aligned, lemma_pack_pad_tail,
};
use crate::stream::write_all_to;

verus! {

/// A writer of bits into a byte stream. It keeps the bits that do not fill a
/// byte yet, hands every whole byte to the stream as soon as it is full, and
/// remembers the size of its last flush.
pub struct Writer<W> {
    inner: W,
    packer: BitPacker,
    sent: Ghost<Seq<u8>>,
    replies: Ghost<Seq<bool>>,
}

impl<W> Writer<W> {
    /// The stream that the writer hands its bytes to.
    pub closed spec fn sink(&self) -> W {
        self.inner
    }

    /// Every byte that the writer has handed to the stream, in order,
    /// whether the stream took it or not.
    pub closed spec fn handed(&self) -> Seq<u8> {
        self.sent@
    }

    /// What the stream answered each time bytes were handed to it, in order:
    /// whether it took them all.
    pub closed spec fn answers(&self) -> Seq<bool> {
        self.replies@
    }

    /// The buffered bits: accepted, not yet part of a byte handed on.
    pub closed spec fn leftover_bits(&self) -> Seq<bool> {
        self.packer.leftover_bits()
    }

    /// The size in bits of the last flush; no running total.
    pub closed spec fn last_flush(&self) -> usize {
        self.packer.last_flush()
    }

    /// Every bit that the writer has accepted: the bits of the bytes handed
    /// on, then the buffered bits.
    pub open spec fn stream(&self) -> Seq<bool> {
        expand(self.handed()) + self.leftover_bits()
    }

    /// The writer is consistent: less than a byte is buffered, and no whole
    /// byte waits to be handed on.
    pub closed spec fn wf(&self) -> bool {
        &&& self.packer.wf()
        &&& self.packer.emitted().len() == 0
    }

    /// A consistent writer buffers less than eight bits.
    pub proof fn lemma_wf(&self)
        requires
            self.wf(),
        ensures
            self.leftover_bits().len() < 8,
    {
    }
}

impl<W: Write> Writer<W> {
    /// A writer into `inner`, with nothing buffered.
    pub fn new(inner: W) -> (r: Self)
        ensures
            r.wf(),
            r.sink() == inner,
            r.handed() == Seq::<u8>::empty(),
            r.answers() == Seq::<bool>::empty(),
            r.leftover_bits() == Seq::<bool>::empty(),
            r.last_flush() == 0,
    {
        let packer = BitPacker::new(Vec::new());
        Writer {
            inner,
            packer,
            sent: Ghost(Seq::<u8>::empty()),
            replies: Ghost(Seq::<bool>::empty()),
        }
    }

    /// Gives up the writer for its stream. Buffered bits are lost.
    pub fn into_inner(self) -> (r: W)
        ensures
            r == self.sink(),
    {
        self.inner
    }

    /// The size in bits of the last flush.
    pub fn bits_written(&self) -> (r: usize)
        ensures
            r == self.last_flush(),
    {
        self.packer.bits_written()
    }

    /// The buffered bits as booleans, in order.
    pub fn rest(&mut self) -> (r: Vec<bool>)
        ensures
            r@ == old(self).leftover_bits(),
            *final(self) == *old(self),
    {
        self.packer.rest()
    }

    /// Hands the bytes that the packer has produced to the stream, once, and
    /// notes its answer: the call succeeds exactly where the stream took
    /// them.
    fn flush(&mut self) -> (r: Result<(), DekuError>)
        requires
            old(self).packer.wf(),
        ensures
            final(self).wf(),
            final(self).handed() == old(self).handed() + old(self).packer.emitted(),
            final(self).leftover_bits() == old(self).leftover_bits(),
            final(self).last_flush() == old(self).last_flush(),
            handed_once(*old(self), *final(self)),
            (r is Ok) == final(self).answers().last(),
            r matches Err(e) ==> e == DekuError::WriteError,
    {
        let out = self.packer.take_output();
        self.sent = Ghost(self.sent@ + out@);
        let ok = write_all_to(&mut self.inner, out.as_slice());
        self.replies = Ghost(self.replies@.push(ok));
        proof {
            assert(self.replies@.drop_last() =~= old(self).replies@);
        }
        if !ok {
            return Err(DekuError::WriteError);
        }
        Ok(())
    }

    /// Accepts `bits` behind what was written before. The buffered bits and
    /// `bits` in a row are cut at the last byte boundary: the whole bytes in
    /// front of it are packed, most significant bit first, and handed to the
    /// stream; the bits behind it stay buffered. Where no byte is full the
    /// stream is left alone and the call succeeds. The call fails exactly
    /// where the stream does not take the bytes.
    pub fn write_bits(&mut self, bits: &BitBuf) -> (r: Result<(), DekuError>)
        requires
            old(self).wf(),
            old(self).leftover_bits().len() + bits@.len() <= max_bits(),
        ensures
            final(self).wf(),
            r matches Err(e) ==> e == DekuError::WriteError,
            old(self).leftover_bits().len() + bits@.len() < 8 ==> r is Ok && final(self).sink()
                == old(self).sink() && final(self).answers() == old(self).answers(),
            old(self).leftover_bits().len() + bits@.len() >= 8 ==> {
                &&& handed_once(*old(self), *final(self))
                &&& (r is Ok) == final(self).answers().last()
            },
            final(self).leftover_bits().len() == (old(self).leftover_bits().len() + bits@.len())
                % 8,
            final(self).handed() == old(self).handed() + flushed(old(self).leftover_bits(), bits@),
            final(self).leftover_bits() == kept(old(self).leftover_bits(), bits@),
            final(self).stream() == old(self).stream() + bits@,
            final(self).last_flush() == if old(self).leftover_bits().len() + bits@.len() < 8 {
                old(self).last_flush() as int
            } else {
                8 * ((old(self).leftover_bits().len() + bits@.len()) as int / 8)
            },
    {
        let ghost left = self.packer.leftover_bits();
        proof {
            lemma_write_step(left, bits@);
            lemma_stream_step(self.sent@, left, bits@);
            assert(self.sent@ + Seq::<u8>::empty() =~= self.sent@);
            assert(Seq::<u8>::empty() + flushed(left, bits@) =~= flushed(left, bits@));
        }
        let full: bool = self.packer.rest_len() + bits.len() >= 8;
        self.packer.write_bits(bits);
        if full {
            self.flush()
        } else {
            Ok(())
        }
    }

    /// Accepts the bits of `buf` behind what was written before. At a byte
    /// boundary the bytes are handed to the stream as they are; elsewhere
    /// they are written as `8 * buf.len()` bits.
    pub fn write_bytes(&mut self, buf: &[u8]) -> (r: Result<(), DekuError>)
        requires
            old(self).wf(),
            8 * buf@.len() <= usize::MAX,
            old(self).leftover_bits().len() > 0 ==> old(self).leftover_bits().len() + 8
                * buf@.len() <= max_bits(),
        ensures
            final(self).wf(),
            r matches Err(e) ==> e == DekuError::WriteError,
            old(self).leftover_bits().len() > 0 && buf@.len() == 0 ==> {
                &&& r is Ok
                &&& final(self).sink() == old(self).sink()
                &&& final(self).answers() == old(self).answers()
            },
            old(self).leftover_bits().len() == 0 || buf@.len() > 0 ==> {
                &&& handed_once(*old(self), *final(self))
                &&& (r is Ok) == final(self).answers().last()
            },
            final(self).handed().len() == old(self).handed().len() + buf@.len(),
            final(self).handed() == old(self).handed() + flushed(
                old(self).leftover_bits(),
                expand(buf@),
            ),
            old(self).leftover_bits().len() == 0 ==> final(self).handed() == old(self).handed()
                + buf@,
            final(self).leftover_bits() == kept(old(self).leftover_bits(), expand(buf@)),
            final(self).leftover_bits().len() == old(self).leftover_bits().len(),
            final(self).stream() == old(self).stream() + expand(buf@),
            final(self).last_flush() == if old(self).leftover_bits().len() > 0 && buf@.len()
                == 0 {
                old(self).last_flush() as int
            } else {
                8 * buf@.len() as int
            },
    {
        let ghost left = self.packer.leftover_bits();
        proof {
            lemma_write_bytes_step(left, buf@);
            lemma_stream_step(self.sent@, left, expand(buf@));
            if left.len() == 0 {
                lemma_write_aligned(left, buf@);
            }
            assert(self.sent@ + Seq::<u8>::empty() =~= self.sent@);
            assert(Seq::<u8>::empty() + flushed(left, expand(buf@)) =~= flushed(
                left,
                expand(buf@),
            ));
        }
        let quiet: bool = self.packer.rest_len() > 0 && buf.len() == 0;
        self.packer.write_bytes(buf);
        if quiet {
            Ok(())
        } else {
            self.flush()
        }
    }

    /// Closes the bit stream: where bits are buffered, they are filled up
    /// with zero bits to a whole byte, which is handed to the stream.
    /// Afterwards nothing is buffered, and the bytes handed on are the
    /// packing of everything that was written, padded with zero bits. With
    /// nothing buffered the stream is left alone and the call succeeds. The
    /// size of the last flush is left as it was.
    pub fn finalize(&mut self) -> (r: Result<(), DekuError>)
        requires
            old(self).wf(),
        ensures
            final(self).wf(),
            r matches Err(e) ==> e == DekuError::WriteError,
            old(self).leftover_bits().len() == 0 ==> {
                &&& r is Ok
                &&& final(self).sink() == old(self).sink()
                &&& final(self).handed() == old(self).handed()
                &&& final(self).answers() == old(self).answers()
            },
            old(self).leftover_bits().len() > 0 ==> {
                &&& handed_once(*old(self), *final(self))
                &&& (r is Ok) == final(self).answers().last()
            },
            final(self).leftover_bits() == Seq::<bool>::empty(),
            final(self).handed() == old(self).handed() + pack(pad(old(self).leftover_bits())),
            final(self).handed() == pack(pad(old(self).stream())),
            final(self).last_flush() == old(self).last_flush(),
    {
        let ghost left = self.packer.leftover_bits();
        proof {
            lemma_pack_pad_tail(self.sent@, left);
            lemma_pack_pad_tail(Seq::<u8>::empty(), left);
            assert(self.sent@ + Seq::<u8>::empty() =~= self.sent@);
            assert(Seq::<u8>::empty() + pack(pad(left)) =~= pack(pad(left)));
        }
        let idle: bool = self.packer.rest_len() == 0;
        self.packer.finalize();
        if idle {
            Ok(())
        } else {
            self.flush()
        }
    }
}

/// Between the two states of a writer bytes were handed to the stream
/// once: its answer is the last of the answers noted, behind those noted
/// before.
pub open spec fn handed_once<W>(before: Writer<W>, after: Writer<W>) -> bool {
    &&& after.answers().len() == before.answers().len() + 1
    &&& after.answers().drop_last() == before.answers()
}

} // verus!
