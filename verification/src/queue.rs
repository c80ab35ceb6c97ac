//! The bit queue: bytes go in at the back, bits come out at the front. It
//! holds the whole logic of reading; a reader over a stream fills it.

use vstd::prelude::*;
use vstd::slice::slice_subrange;
use crate::bitbuf::BitBuf;
use crate::bits::{expand, byte_bits, lemma_expand_concat, lemma_expand_one};
use crate::container::{ContainerRet, MAX_BITS_AMT};
use crate::error::{DekuError, NeedSize};
use crate::stream::ReadOutcome;

verus! {

/// A queue of bits over a byte sequence. It keeps the bits of a byte that a
/// read has begun and not used up, and counts the bits it has handed out.
pub struct BitQueue {
    inner: Vec<u8>,
    pos: usize,
    /// Bits taken from the input that no read has returned yet.
    leftover: BitBuf,
    /// The number of bits handed out by `read_bits` and `read_bytes`.
    bits_read: usize,
}

/// The number of bytes that a read of `amt` bits takes from the input when
/// `have` bits are buffered.
pub open spec fn bytes_needed(have: nat, amt: nat) -> nat {
    if amt <= have {
        0
    } else {
        ((amt - have + 7) / 8) as nat
    }
}

/// A read that the buffered bits satisfy: its result is the front of the
/// buffered bits, and what is left of them stays in front of the input.
pub proof fn lemma_read_from_buffer(leftover: Seq<bool>, rest: Seq<u8>, amt: int)
    requires
        0 <= amt <= leftover.len(),
    ensures
        leftover.take(amt) == (leftover + expand(rest)).take(amt),
        leftover.skip(amt) + expand(rest) == (leftover + expand(rest)).skip(amt),
{
    assert(leftover.take(amt) =~= (leftover + expand(rest)).take(amt));
    assert(leftover.skip(amt) + expand(rest) =~= (leftover + expand(rest)).skip(amt));
}

/// A read that goes beyond the buffered bits: with `count` whole bytes
/// taken from the input, the buffered bits followed by the front of the new
/// bytes' bits are the front of what was pending, and the bits not asked
/// for, less than a byte, stay in front of the rest of the input.
pub proof fn lemma_read_across(leftover: Seq<bool>, rest: Seq<u8>, amt: int, count: int)
    requires
        leftover.len() < amt,
        count == bytes_needed(leftover.len(), amt as nat),
        count <= rest.len(),
    ensures
        amt - leftover.len() <= expand(rest.take(count)).len(),
        leftover + expand(rest.take(count)).take(amt - leftover.len()) == (leftover + expand(
            rest,
        )).take(amt),
        expand(rest.take(count)).skip(amt - leftover.len()) + expand(rest.skip(count)) == (leftover
            + expand(rest)).skip(amt),
        expand(rest.take(count)).skip(amt - leftover.len()).len() < 8,
        amt <= (leftover + expand(rest)).len(),
{
    let fresh = expand(rest.take(count));
    let need = amt - leftover.len();
    assert(rest =~= rest.take(count) + rest.skip(count));
    lemma_expand_concat(rest.take(count), rest.skip(count));
    assert(leftover + fresh.take(need) =~= (leftover + expand(rest)).take(amt));
    assert(fresh.skip(need) + expand(rest.skip(count)) =~= (leftover + expand(rest)).skip(amt));
}

impl BitQueue {
    /// The buffered bits: taken from the input, not yet handed out.
    pub closed spec fn leftover_bits(&self) -> Seq<bool> {
        self.leftover@
    }

    /// The bytes of the input that have not been taken yet.
    pub closed spec fn remaining(&self) -> Seq<u8> {
        self.inner@.skip(self.pos as int)
    }

    /// The bit counter: the number of bits handed out since the queue was
    /// made or last skipped bits.
    pub closed spec fn count(&self) -> usize {
        self.bits_read
    }

    /// Every bit that is still to be handed out: the buffered bits, then the
    /// bits of the input that has not been taken.
    pub open spec fn pending(&self) -> Seq<bool> {
        self.leftover_bits() + expand(self.remaining())
    }

    /// Whether nothing is left to read: no buffered bit and no input.
    pub open spec fn at_end(&self) -> bool {
        self.pending().len() == 0
    }

    /// Whether a read of `amt` bits succeeds: as many bits are left.
    pub open spec fn can_read(&self, amt: usize) -> bool {
        amt <= self.pending().len()
    }

    /// The queue is consistent: at most one byte is buffered.
    pub closed spec fn wf(&self) -> bool {
        &&& self.pos <= self.inner@.len()
        &&& self.leftover@.len() <= 8
    }

    /// Every consistent queue buffers at most eight bits.
    pub proof fn lemma_wf(&self)
        requires
            self.wf(),
        ensures
            self.leftover_bits().len() <= 8,
    {
    }

    /// A queue over `inner`, with nothing buffered and nothing counted.
    pub fn new(inner: Vec<u8>) -> (r: Self)
        ensures
            r.wf(),
            r.leftover_bits() == Seq::<bool>::empty(),
            r.remaining() == inner@,
            r.pending() == expand(inner@),
            r.count() == 0,
    {
        let r = BitQueue { inner, pos: 0, leftover: BitBuf::new(), bits_read: 0 };
        proof {
            assert(r.inner@.skip(0) =~= r.inner@);
            assert(r.pending() =~= expand(inner@));
        }
        r
    }

    /// The number of bytes that the input lacks for a read of `amt` bits:
    /// zero exactly where the read succeeds.
    pub fn missing_bytes(&self, amt: usize) -> (r: usize)
        requires
            self.wf(),
        ensures
            r == if bytes_needed(self.leftover_bits().len(), amt as nat) <= self.remaining().len() {
                0
            } else {
                bytes_needed(self.leftover_bits().len(), amt as nat) - self.remaining().len()
            },
            (r == 0) == self.can_read(amt),
    {
        let have: usize = self.leftover.len();
        if amt <= have {
            return 0;
        }
        let bits_left: usize = amt - have;
        let mut bytes_len: usize = bits_left / 8;
        if bits_left % 8 != 0 {
            bytes_len += 1;
        }
        let there: usize = self.inner.len() - self.pos;
        if bytes_len <= there {
            0
        } else {
            bytes_len - there
        }
    }

    /// Appends `bytes` to the input that has not been taken. Input that has
    /// been taken is let go of first, once none is left that has not.
    pub fn feed(&mut self, bytes: &[u8])
        requires
            old(self).wf(),
        ensures
            final(self).wf(),
            final(self).leftover_bits() == old(self).leftover_bits(),
            final(self).remaining() == old(self).remaining() + bytes@,
            final(self).pending() == old(self).pending() + expand(bytes@),
            final(self).count() == old(self).count(),
    {
        if self.pos == self.inner.len() {
            self.inner.clear();
            self.pos = 0;
        }
        proof {
            assert(self.remaining() =~= old(self).remaining());
        }
        self.inner.extend_from_slice(bytes);
        proof {
            assert(self.remaining() =~= old(self).remaining() + bytes@);
            lemma_expand_concat(old(self).remaining(), bytes@);
            assert(self.pending() =~= old(self).pending() + expand(bytes@));
        }
    }

    /// Takes in what a byte source answered to a request for `buf.len()`
    /// bytes. Only a filled buffer is appended to the input. At the end of
    /// the stream, and where the source failed in another way, nothing is
    /// taken, so that the read that asked fails.
    pub fn supply(&mut self, outcome: ReadOutcome, buf: &[u8]) -> (taken: bool)
        requires
            old(self).wf(),
        ensures
            final(self).wf(),
            taken == (outcome == ReadOutcome::Filled),
            !taken ==> *final(self) == *old(self),
            taken ==> {
                &&& final(self).leftover_bits() == old(self).leftover_bits()
                &&& final(self).remaining() == old(self).remaining() + buf@
                &&& final(self).pending() == old(self).pending() + expand(buf@)
                &&& final(self).count() == old(self).count()
            },
    {
        match outcome {
            ReadOutcome::Filled => {
                self.feed(buf);
                true
            },
            ReadOutcome::EndOfStream => false,
            ReadOutcome::Failed => false,
        }
    }

    /// The number of bits handed out since the queue was made or last
    /// skipped bits.
    pub fn bits_read(&self) -> (r: usize)
        ensures
            r == self.count(),
    {
        self.bits_read
    }

    /// Whether the queue stands at a byte boundary: no bit is buffered.
    pub fn is_aligned(&self) -> (r: bool)
        ensures
            r == (self.leftover_bits().len() == 0),
    {
        self.leftover.is_empty()
    }

    /// Gives up the queue for the input that it has not taken. Buffered bits
    /// are lost.
    pub fn inner(self) -> (r: Vec<u8>)
        requires
            self.wf(),
        ensures
            r@ == self.remaining(),
    {
        let mut all = self.inner;
        let rest = all.split_off(self.pos);
        rest
    }

    /// Whether nothing is left: no buffered bit and no byte of input. Where
    /// nothing is buffered and the input has a byte, that byte is taken and
    /// buffered, so the bits still to come stay the same.
    pub fn end(&mut self) -> (r: bool)
        requires
            old(self).wf(),
        ensures
            final(self).wf(),
            r == old(self).at_end(),
            final(self).pending() == old(self).pending(),
            final(self).count() == old(self).count(),
            r || old(self).leftover_bits().len() > 0 ==> {
                &&& final(self).leftover_bits() == old(self).leftover_bits()
                &&& final(self).remaining() == old(self).remaining()
            },
            !r && old(self).leftover_bits().len() == 0 ==> {
                &&& final(self).leftover_bits() == byte_bits(old(self).remaining()[0])
                &&& final(self).remaining() == old(self).remaining().skip(1)
            },
    {
        if !self.leftover.is_empty() {
            false
        } else if self.pos == self.inner.len() {
            proof {
                assert(self.remaining().len() == 0);
            }
            true
        } else {
            let byte = slice_subrange(self.inner.as_slice(), self.pos, self.pos + 1);
            self.leftover = BitBuf::from_bytes(byte);
            self.pos = self.pos + 1;
            proof {
                let rem = old(self).remaining();
                assert(byte@ =~= seq![rem[0]]);
                lemma_expand_one(rem[0]);
                assert(self.remaining() =~= rem.skip(1));
                assert(rem =~= seq![rem[0]] + rem.skip(1));
                lemma_expand_concat(seq![rem[0]], rem.skip(1));
                assert(old(self).pending() =~= expand(rem));
            }
            false
        }
    }

    /// Takes `amt` bits and throws them away, then sets the bit counter to
    /// zero. Fails, as a read does, where fewer than `amt` bits are left.
    pub fn skip_bits(&mut self, amt: usize) -> (r: Result<(), DekuError>)
        requires
            old(self).wf(),
            amt <= MAX_BITS_AMT,
        ensures
            final(self).wf(),
            (r is Ok) == old(self).can_read(amt),
            r matches Err(e) ==> e == DekuError::Incomplete(NeedSize { bits: amt }) && *final(self)
                == *old(self),
            r is Ok ==> {
                &&& final(self).pending() == old(self).pending().skip(amt as int)
                &&& final(self).remaining() == old(self).remaining().skip(
                    bytes_needed(old(self).leftover_bits().len(), amt as nat) as int,
                )
                &&& final(self).count() == 0
                &&& (amt > 0 || old(self).leftover_bits().len() < 8)
                    ==> final(self).leftover_bits().len() < 8
            },
    {
        match self.take_bits(amt) {
            Err(e) => Err(e),
            Ok(_) => {
                self.bits_read = 0;
                Ok(())
            },
        }
    }

    /// Takes the next `amt` bits off the queue, in the order of the input,
    /// without counting them: the splice that reading and skipping share.
    fn take_bits(&mut self, amt: usize) -> (r: Result<Option<BitBuf>, DekuError>)
        requires
            old(self).wf(),
            amt <= MAX_BITS_AMT,
        ensures
            final(self).wf(),
            (r is Ok) == old(self).can_read(amt),
            r matches Err(e) ==> e == DekuError::Incomplete(NeedSize { bits: amt }) && *final(self)
                == *old(self),
            (r matches Ok(None)) == (amt == 0),
            amt == 0 ==> *final(self) == *old(self),
            final(self).count() == old(self).count(),
            r matches Ok(Some(bits)) ==> {
                &&& bits@ == old(self).pending().take(amt as int)
                &&& final(self).pending() == old(self).pending().skip(amt as int)
                &&& final(self).remaining() == old(self).remaining().skip(
                    bytes_needed(old(self).leftover_bits().len(), amt as nat) as int,
                )
                &&& final(self).leftover_bits().len() < 8
            },
    {
        if amt == 0 {
            return Ok(None);
        }
        let have: usize = self.leftover.len();
        let ghost rem = self.remaining();
        let ghost left = self.leftover@;
        let mut ret = BitBuf::new();
        if amt == have {
            core::mem::swap(&mut ret, &mut self.leftover);
            proof {
                lemma_read_from_buffer(left, rem, amt as int);
                assert(left.take(amt as int) =~= left);
                assert(left.skip(amt as int) =~= Seq::<bool>::empty());
                assert(rem.skip(0) =~= rem);
            }
        } else if amt > have {
            let bits_left: usize = amt - have;
            let mut bytes_len: usize = bits_left / 8;
            if bits_left % 8 != 0 {
                bytes_len += 1;
            }
            if bytes_len > self.inner.len() - self.pos {
                return Err(DekuError::Incomplete(NeedSize::new(amt)));
            }
            proof {
                lemma_read_across(left, rem, amt as int, bytes_len as int);
            }
            ret.extend_from(&self.leftover);
            let fresh = slice_subrange(self.inner.as_slice(), self.pos, self.pos + bytes_len);
            proof {
                assert(fresh@ =~= rem.take(bytes_len as int));
            }
            let mut rest = BitBuf::from_bytes(fresh);
            let not_needed = rest.split_off(bits_left);
            self.leftover = not_needed;
            ret.extend_from(&rest);
            self.pos = self.pos + bytes_len;
            proof {
                assert(Seq::<bool>::empty() + left =~= left);
                assert(self.remaining() =~= rem.skip(bytes_len as int));
            }
        } else {
            let used = self.leftover.split_off(amt);
            ret.extend_from(&self.leftover);
            self.leftover = used;
            proof {
                lemma_read_from_buffer(left, rem, amt as int);
                assert(Seq::<bool>::empty() + left.take(amt as int) =~= left.take(amt as int));
                assert(rem.skip(0) =~= rem);
            }
        }
        Ok(Some(ret))
    }

    /// Hands out the next `amt` bits, in the order of the input, and counts
    /// them. With `amt == 0` nothing is returned and nothing changes.
    /// Otherwise the buffered bits come first; where they do not suffice, as
    /// many whole bytes as the rest needs are taken from the input, and the
    /// bits of the last byte that were not asked for are buffered. Fails
    /// exactly where fewer than `amt` bits are left.
    pub fn read_bits(&mut self, amt: usize) -> (r: Result<Option<BitBuf>, DekuError>)
        requires
            old(self).wf(),
            amt <= MAX_BITS_AMT,
            old(self).count() + amt <= usize::MAX,
        ensures
            final(self).wf(),
            (r is Ok) == old(self).can_read(amt),
            r matches Err(e) ==> e == DekuError::Incomplete(NeedSize { bits: amt }) && *final(self)
                == *old(self),
            (r matches Ok(None)) == (amt == 0),
            amt == 0 ==> *final(self) == *old(self),
            r matches Ok(Some(bits)) ==> {
                &&& bits@ == old(self).pending().take(amt as int)
                &&& final(self).pending() == old(self).pending().skip(amt as int)
                &&& final(self).remaining() == old(self).remaining().skip(
                    bytes_needed(old(self).leftover_bits().len(), amt as nat) as int,
                )
                &&& final(self).count() == old(self).count() + amt
                &&& final(self).leftover_bits().len() < 8
            },
    {
        match self.take_bits(amt) {
            Err(e) => Err(e),
            Ok(None) => Ok(None),
            Ok(Some(bits)) => {
                self.bits_read = self.bits_read + amt;
                Ok(Some(bits))
            },
        }
    }

    /// Reads `amt` bytes. At a byte boundary they are copied from the input
    /// into the front of `buf` and counted as `8 * amt` bits; the call fails
    /// where `buf` is shorter than `amt` or the input has fewer than `amt`
    /// bytes. Away from a byte boundary the call is a read of `8 * amt` bits,
    /// and `buf` is left alone.
    pub fn read_bytes(&mut self, amt: usize, buf: &mut [u8]) -> (r: Result<ContainerRet, DekuError>)
        requires
            old(self).wf(),
            old(self).count() + 8 * amt <= usize::MAX,
            old(self).leftover_bits().len() > 0 ==> 8 * amt <= MAX_BITS_AMT,
        ensures
            final(self).wf(),
            r matches Err(e) ==> e == DekuError::Incomplete(NeedSize { bits: (8 * amt) as usize })
                && *final(self) == *old(self) && final(buf)@ == old(buf)@,
            old(self).leftover_bits().len() == 0 ==> {
                &&& (r is Ok) == (amt <= old(buf)@.len() && amt <= old(self).remaining().len())
                &&& r is Ok ==> {
                    &&& r == Ok::<ContainerRet, DekuError>(ContainerRet::Bytes)
                    &&& final(buf)@ == old(self).remaining().take(amt as int) + old(buf)@.skip(
                        amt as int,
                    )
                    &&& final(self).remaining() == old(self).remaining().skip(amt as int)
                    &&& final(self).leftover_bits() == old(self).leftover_bits()
                    &&& final(self).count() == old(self).count() + 8 * amt
                }
            },
            old(self).leftover_bits().len() > 0 ==> {
                &&& (r is Ok) == old(self).can_read((8 * amt) as usize)
                &&& final(buf)@ == old(buf)@
                &&& (r matches Ok(ContainerRet::Bits(None))) == (amt == 0)
                &&& amt == 0 ==> *final(self) == *old(self)
                &&& r is Ok && amt > 0 ==> {
                    &&& r matches Ok(ContainerRet::Bits(Some(bits))) && bits@ == old(
                        self,
                    ).pending().take(8 * amt)
                    &&& final(self).pending() == old(self).pending().skip(8 * amt)
                    &&& final(self).remaining() == old(self).remaining().skip(
                        bytes_needed(old(self).leftover_bits().len(), (8 * amt) as nat) as int,
                    )
                    &&& final(self).count() == old(self).count() + 8 * amt
                    &&& final(self).leftover_bits().len() < 8
                }
            },
    {
        if self.leftover.is_empty() {
            if buf.len() < amt {
                return Err(DekuError::Incomplete(NeedSize::new(amt * 8)));
            }
            if amt > self.inner.len() - self.pos {
                return Err(DekuError::Incomplete(NeedSize::new(amt * 8)));
            }
            let ghost rem = self.remaining();
            let mut i: usize = 0;
            while i < amt
                invariant
                    i <= amt,
                    amt <= buf@.len(),
                    buf@.len() == old(buf)@.len(),
                    self.pos + amt <= self.inner.len(),
                    *self == *old(self),
                    buf@ == rem.take(i as int) + old(buf)@.skip(i as int),
                    rem == self.inner@.skip(self.pos as int),
                decreases amt - i,
            {
                let byte: u8 = self.inner[self.pos + i];
                buf[i] = byte;
                i = i + 1;
                proof {
                    assert(buf@ =~= rem.take(i as int) + old(buf)@.skip(i as int));
                }
            }
            self.pos = self.pos + amt;
            self.bits_read = self.bits_read + amt * 8;
            proof {
                assert(self.remaining() =~= rem.skip(amt as int));
            }
            Ok(ContainerRet::Bytes)
        } else {
            match self.read_bits(amt * 8) {
                Err(e) => Err(e),
                Ok(bits) => Ok(ContainerRet::Bits(bits)),
            }
        }
    }
}

} // verus!
