//! The reading adapter: bits and bytes out of a byte stream.

use vstd::prelude::*;
use acid_io::Read;
use crate::bitbuf::BitBuf;
use crate::bits::{byte_bits, expand, lemma_expand_concat};
use crate::error::{DekuError, NeedSize};
use crate::queue::{BitQueue, bytes_needed};
use crate::stream::{read_exact_from, ReadOutcome};

verus! {

/// The most bits that one call of [`Container::read_bits`] hands out.
pub const MAX_BITS_AMT: usize = 128;

/// What [`Container::read_bytes`] hands back.
#[derive(Debug, PartialEq, Eq)]
pub enum ContainerRet {
    /// The bytes stand in the caller's buffer.
    Bytes,
    /// The reader was not at a byte boundary: the bits are returned instead.
    Bits(Option<BitBuf>),
}

/// A reader of bits over a byte stream. It takes from the stream the whole
/// bytes that a read lacks, keeps the bits of the last byte that the read did
/// not use, and counts the bits it has handed out.
pub struct Container<R> {
    inner: R,
    queue: BitQueue,
    taken: Ghost<Seq<u8>>,
    given: Ghost<Seq<bool>>,
    asked: Ghost<Seq<ReadOutcome>>,
}

impl<R> Container<R> {
    /// The stream that the reader takes its bytes from.
    pub closed spec fn source(&self) -> R {
        self.inner
    }

    /// Every byte taken from the stream so far, in order: what stood in the
    /// buffer after each request that the stream filled.
    pub closed spec fn consumed(&self) -> Seq<u8> {
        self.taken@
    }

    /// What the stream answered to each request for bytes so far, in order.
    pub closed spec fn answers(&self) -> Seq<ReadOutcome> {
        self.asked@
    }

    /// Every bit handed out or skipped so far, in order.
    pub closed spec fn delivered(&self) -> Seq<bool> {
        self.given@
    }

    /// The buffered bits: taken from the stream, not yet handed out.
    pub closed spec fn leftover_bits(&self) -> Seq<bool> {
        self.queue.leftover_bits()
    }

    /// The number of bits handed out since the reader was made or last
    /// skipped bits.
    pub closed spec fn count(&self) -> usize {
        self.queue.count()
    }

    /// The reader is consistent: at most one byte is buffered, no byte taken
    /// from the stream waits behind the buffered bits, and the bits of the
    /// bytes taken are the bits handed out followed by the buffered bits.
    pub closed spec fn wf(&self) -> bool {
        &&& self.queue.wf()
        &&& self.queue.remaining().len() == 0
        &&& self.queue.leftover_bits().len() <= 8
        &&& expand(self.taken@) == self.given@ + self.queue.leftover_bits()
    }

    /// A consistent reader buffers at most eight bits, and the bits it has
    /// handed out are, in order, the front of the bits of the bytes it has
    /// taken from the stream, most significant bit of each byte first.
    pub proof fn lemma_wf(&self)
        requires
            self.wf(),
        ensures
            self.leftover_bits().len() <= 8,
            expand(self.consumed()) == self.delivered() + self.leftover_bits(),
            self.delivered() == expand(self.consumed()).take(self.delivered().len() as int),
    {
        assert(self.delivered() =~= (self.delivered() + self.leftover_bits()).take(
            self.delivered().len() as int,
        ));
    }
}

impl<R: Read> Container<R> {
    /// A reader over `inner`, with nothing buffered and nothing counted.
    pub fn new(inner: R) -> (r: Self)
        ensures
            r.wf(),
            r.source() == inner,
            r.leftover_bits() == Seq::<bool>::empty(),
            r.consumed() == Seq::<u8>::empty(),
            r.delivered() == Seq::<bool>::empty(),
            r.answers() == Seq::<ReadOutcome>::empty(),
            r.count() == 0,
    {
        let queue = BitQueue::new(Vec::new());
        let r = Container {
            inner,
            queue,
            taken: Ghost(Seq::<u8>::empty()),
            given: Ghost(Seq::<bool>::empty()),
            asked: Ghost(Seq::<ReadOutcome>::empty()),
        };
        proof {
            assert(expand(r.taken@) =~= r.given@ + r.queue.leftover_bits());
        }
        r
    }

    /// Gives up the reader for its stream. Buffered bits are lost.
    pub fn inner(self) -> (r: R)
        ensures
            r == self.source(),
    {
        self.inner
    }

    /// The number of bits handed out since the reader was made or last
    /// skipped bits.
    pub fn bits_read(&self) -> (r: usize)
        ensures
            r == self.count(),
    {
        self.queue.bits_read()
    }

    /// Asks the stream once for `count` bytes, notes its answer and returns
    /// it. The bytes are queued where the stream filled the buffer; on any
    /// other answer the queue stays as it was.
    fn pull(&mut self, count: usize) -> (answer: ReadOutcome)
        requires
            old(self).wf(),
        ensures
            final(self).queue.wf(),
            final(self).queue.leftover_bits() == old(self).queue.leftover_bits(),
            final(self).queue.count() == old(self).queue.count(),
            final(self).given@ == old(self).given@,
            final(self).taken@ == old(self).taken@ + final(self).queue.remaining(),
            asked_once(*old(self), *final(self)),
            answer == final(self).asked@.last(),
            answer != ReadOutcome::Filled ==> final(self).queue == old(self).queue,
            answer == ReadOutcome::Filled ==> final(self).queue.remaining().len() == count,
    {
        let mut buf: Vec<u8> = Vec::new();
        buf.resize(count, 0u8);
        let answer = read_exact_from(&mut self.inner, buf.as_mut_slice());
        let taken = self.queue.supply(answer, buf.as_slice());
        self.asked = Ghost(self.asked@.push(answer));
        if taken {
            self.taken = Ghost(self.taken@ + buf@);
        }
        proof {
            let rem = old(self).queue.remaining();
            assert(rem =~= Seq::<u8>::empty());
            assert(rem + buf@ =~= buf@);
            assert(old(self).taken@ + rem =~= old(self).taken@);
            assert(self.asked@.drop_last() =~= old(self).asked@);
        }
        answer
    }

    /// Whether the stream has ended and no bit is buffered. With bits
    /// buffered the answer is no and the stream is left alone. Otherwise one
    /// byte is asked of the stream. At its end the answer is yes. Where the
    /// stream gave the byte, its eight bits are buffered and the answer is
    /// no. Where the stream failed in another way the answer is no as well
    /// and nothing is buffered, so that the next read meets the failure.
    pub fn end(&mut self) -> (r: bool)
        requires
            old(self).wf(),
        ensures
            final(self).wf(),
            final(self).count() == old(self).count(),
            final(self).delivered() == old(self).delivered(),
            old(self).leftover_bits().len() > 0 ==> {
                &&& !r
                &&& final(self).leftover_bits() == old(self).leftover_bits()
                &&& final(self).consumed() == old(self).consumed()
                &&& final(self).source() == old(self).source()
                &&& final(self).answers() == old(self).answers()
            },
            old(self).leftover_bits().len() == 0 ==> {
                &&& asked_once(*old(self), *final(self))
                &&& r == (final(self).answers().last() == ReadOutcome::EndOfStream)
                &&& final(self).answers().last() != ReadOutcome::Filled ==> {
                    &&& final(self).leftover_bits() == old(self).leftover_bits()
                    &&& final(self).consumed() == old(self).consumed()
                }
                &&& final(self).answers().last() == ReadOutcome::Filled ==> {
                    &&& final(self).consumed().len() == old(self).consumed().len() + 1
                    &&& old(self).consumed().is_prefix_of(final(self).consumed())
                    &&& final(self).leftover_bits() == byte_bits(final(self).consumed().last())
                }
            },
    {
        if !self.queue.end() {
            return false;
        }
        let answer = self.pull(1);
        let ghost fed = self.queue.remaining();
        proof {
            if answer != ReadOutcome::Filled {
                assert(fed =~= Seq::<u8>::empty());
                assert(old(self).taken@ + fed =~= old(self).taken@);
            }
        }
        match answer {
            ReadOutcome::EndOfStream => true,
            ReadOutcome::Failed => false,
            ReadOutcome::Filled => {
                let r = self.queue.end();
                proof {
                    let left = old(self).queue.leftover_bits();
                    let all = left + expand(fed);
                    assert(left =~= Seq::<bool>::empty());
                    lemma_read_log(old(self).taken@, old(self).given@, left, fed, 0);
                    assert(self.queue.remaining() =~= Seq::<u8>::empty());
                    assert(self.queue.pending() =~= self.queue.leftover_bits());
                    assert(all.take(0) =~= Seq::<bool>::empty());
                    assert(all.skip(0) =~= all);
                    assert(old(self).given@ + Seq::<bool>::empty() =~= old(self).given@);
                    assert(self.taken@.last() == fed[0]);
                    self.queue.lemma_wf();
                }
                r
            },
        }
    }

    /// Takes `amt` bits and throws them away, then sets the bit counter to
    /// zero. Fails as a read of `amt` bits does.
    pub fn skip_bits(&mut self, amt: usize) -> (r: Result<(), DekuError>)
        requires
            old(self).wf(),
            amt <= MAX_BITS_AMT,
        ensures
            final(self).wf(),
            amt <= old(self).leftover_bits().len() ==> r is Ok && final(self).source() == old(
                self,
            ).source() && final(self).answers() == old(self).answers(),
            amt > old(self).leftover_bits().len() ==> {
                &&& asked_once(*old(self), *final(self))
                &&& (r is Ok) == (final(self).answers().last() == ReadOutcome::Filled)
            },
            r matches Err(e) ==> {
                &&& e == DekuError::Incomplete(NeedSize { bits: amt })
                &&& amt > old(self).leftover_bits().len()
                &&& unchanged(*old(self), *final(self))
            },
            r is Ok ==> {
                &&& final(self).count() == 0
                &&& (amt > 0 || old(self).leftover_bits().len() < 8)
                    ==> final(self).leftover_bits().len() < 8
                &&& took(*old(self), *final(self), amt as nat)
            },
    {
        let ghost left = self.queue.leftover_bits();
        proof {
            assert(self.queue.remaining() =~= Seq::<u8>::empty());
            self.queue.lemma_wf();
        }
        let need: usize = self.queue.missing_bytes(amt);
        if need > 0 {
            self.pull(need);
        }
        let ghost fed = self.queue.remaining();
        let r = self.queue.skip_bits(amt);
        proof {
            if r is Ok {
                lemma_read_log(old(self).taken@, old(self).given@, left, fed, amt as int);
                assert(self.queue.remaining() =~= Seq::<u8>::empty());
                assert(self.queue.pending() =~= self.queue.leftover_bits());
            } else {
                assert(fed =~= Seq::<u8>::empty());
                assert(old(self).taken@ + fed =~= old(self).taken@);
            }
        }
        if r.is_ok() {
            self.given = Ghost(self.given@ + (left + expand(fed)).take(amt as int));
        }
        r
    }

    /// Hands out the next `amt` bits and counts them. With `amt == 0`
    /// nothing is returned and nothing changes. Bits that are buffered come
    /// first, and where they suffice the stream is left alone. Otherwise as
    /// many whole bytes as the rest needs are asked of the stream; where it
    /// does not give them all, because it ends or fails, the read fails,
    /// hands out nothing and counts nothing. The bits of the
    /// last byte that were not asked for are buffered.
    pub fn read_bits(&mut self, amt: usize) -> (r: Result<Option<BitBuf>, DekuError>)
        requires
            old(self).wf(),
            amt <= MAX_BITS_AMT,
            old(self).count() + amt <= usize::MAX,
        ensures
            final(self).wf(),
            (r matches Ok(None)) == (amt == 0),
            amt <= old(self).leftover_bits().len() ==> r is Ok && final(self).source() == old(
                self,
            ).source() && final(self).answers() == old(self).answers(),
            amt > old(self).leftover_bits().len() ==> {
                &&& asked_once(*old(self), *final(self))
                &&& (r is Ok) == (final(self).answers().last() == ReadOutcome::Filled)
            },
            r matches Err(e) ==> {
                &&& e == DekuError::Incomplete(NeedSize { bits: amt })
                &&& amt > old(self).leftover_bits().len()
                &&& unchanged(*old(self), *final(self))
                &&& final(self).count() == old(self).count()
            },
            r matches Ok(None) ==> {
                &&& unchanged(*old(self), *final(self))
                &&& final(self).count() == old(self).count()
            },
            r matches Ok(Some(bits)) ==> {
                &&& bits@.len() == amt
                &&& final(self).delivered() == old(self).delivered() + bits@
                &&& final(self).count() == old(self).count() + amt
                &&& final(self).leftover_bits().len() < 8
                &&& final(self).leftover_bits().len() == left_after(
                    old(self).leftover_bits().len(),
                    amt as nat,
                )
                &&& final(self).consumed().len() == old(self).consumed().len() + bytes_needed(
                    old(self).leftover_bits().len(),
                    amt as nat,
                )
                &&& took(*old(self), *final(self), amt as nat)
            },
    {
        let ghost left = self.queue.leftover_bits();
        proof {
            assert(self.queue.remaining() =~= Seq::<u8>::empty());
            self.queue.lemma_wf();
        }
        let need: usize = self.queue.missing_bytes(amt);
        if need > 0 {
            self.pull(need);
        }
        let ghost fed = self.queue.remaining();
        let r = self.queue.read_bits(amt);
        proof {
            if r is Ok && amt > 0 {
                lemma_read_log(old(self).taken@, old(self).given@, left, fed, amt as int);
                assert(self.queue.remaining() =~= Seq::<u8>::empty());
                assert(self.queue.pending() =~= self.queue.leftover_bits());
            } else {
                assert(fed =~= Seq::<u8>::empty());
                assert(old(self).taken@ + fed =~= old(self).taken@);
            }
        }
        if let Ok(Some(bits)) = &r {
            self.given = Ghost(self.given@ + bits@);
        }
        r
    }

    /// Reads `amt` bytes. At a byte boundary they are asked of the stream,
    /// copied into the front of `buf` and counted as `8 * amt` bits; the call
    /// fails, without touching the stream, where `buf` is shorter than
    /// `amt`, and it fails where the stream ends or fails before. Away from a byte
    /// boundary the call is a read of `8 * amt` bits, and `buf` is left
    /// alone.
    pub fn read_bytes(&mut self, amt: usize, buf: &mut [u8]) -> (r: Result<ContainerRet, DekuError>)
        requires
            old(self).wf(),
            old(self).count() + 8 * amt <= usize::MAX,
            old(self).leftover_bits().len() > 0 ==> 8 * amt <= MAX_BITS_AMT,
        ensures
            final(self).wf(),
            final(buf)@.len() == old(buf)@.len(),
            r matches Err(e) ==> {
                &&& e == DekuError::Incomplete(NeedSize { bits: (8 * amt) as usize })
                &&& unchanged(*old(self), *final(self))
                &&& final(self).count() == old(self).count()
                &&& final(buf)@ == old(buf)@
            },
            old(self).leftover_bits().len() == 0 ==> {
                &&& old(buf)@.len() < amt ==> r is Err && final(self).source() == old(
                    self,
                ).source() && final(self).answers() == old(self).answers()
                &&& amt == 0 ==> r is Ok && final(self).answers() == old(self).answers()
                &&& 0 < amt <= old(buf)@.len() ==> {
                    &&& asked_once(*old(self), *final(self))
                    &&& (r is Ok) == (final(self).answers().last() == ReadOutcome::Filled)
                }
                &&& r is Ok ==> {
                    &&& r == Ok::<ContainerRet, DekuError>(ContainerRet::Bytes)
                    &&& final(buf)@ == final(self).consumed().skip(
                        old(self).consumed().len() as int,
                    ) + old(buf)@.skip(amt as int)
                    &&& final(self).delivered() == old(self).delivered() + expand(
                        final(buf)@.take(amt as int),
                    )
                    &&& final(self).leftover_bits().len() == 0
                    &&& final(self).count() == old(self).count() + 8 * amt
                    &&& took(*old(self), *final(self), (8 * amt) as nat)
                }
            },
            old(self).leftover_bits().len() > 0 ==> {
                &&& final(buf)@ == old(buf)@
                &&& (r matches Ok(ContainerRet::Bits(None))) == (amt == 0)
                &&& 8 * amt <= old(self).leftover_bits().len() ==> r is Ok && final(self).source()
                    == old(self).source() && final(self).answers() == old(self).answers()
                &&& 8 * amt > old(self).leftover_bits().len() ==> {
                    &&& asked_once(*old(self), *final(self))
                    &&& (r is Ok) == (final(self).answers().last() == ReadOutcome::Filled)
                }
                &&& r matches Ok(ContainerRet::Bits(None)) ==> {
                    &&& unchanged(*old(self), *final(self))
                    &&& final(self).count() == old(self).count()
                }
                &&& r is Ok && amt > 0 ==> {
                    &&& r matches Ok(ContainerRet::Bits(Some(bits))) && bits@.len() == 8 * amt
                        && final(self).delivered() == old(self).delivered() + bits@
                    &&& final(self).count() == old(self).count() + 8 * amt
                    &&& final(self).leftover_bits().len() < 8
                    &&& took(*old(self), *final(self), (8 * amt) as nat)
                }
            },
    {
        let ghost left = self.queue.leftover_bits();
        proof {
            assert(self.queue.remaining() =~= Seq::<u8>::empty());
            self.queue.lemma_wf();
        }
        if self.queue.is_aligned() {
            if buf.len() < amt {
                return Err(DekuError::Incomplete(NeedSize::new(amt * 8)));
            }
            if amt > 0 {
                self.pull(amt);
            }
            let ghost fed = self.queue.remaining();
            let r = self.queue.read_bytes(amt, buf);
            proof {
                if r is Ok {
                    assert(left =~= Seq::<bool>::empty());
                    assert(fed.take(amt as int) =~= fed);
                    assert(buf@.take(amt as int) =~= fed);
                    lemma_read_log(old(self).taken@, old(self).given@, left, fed, 8 * amt);
                    assert(left + expand(fed) =~= expand(fed));
                    assert(expand(fed).take(8 * amt) =~= expand(fed));
                    assert(expand(fed).skip(8 * amt) =~= self.queue.leftover_bits());
                    assert(self.queue.remaining() =~= Seq::<u8>::empty());
                } else {
                    assert(fed =~= Seq::<u8>::empty());
                    assert(old(self).taken@ + fed =~= old(self).taken@);
                }
            }
            if r.is_ok() {
                self.given = Ghost(self.given@ + expand(fed));
            }
            r
        } else {
            let need: usize = self.queue.missing_bytes(amt * 8);
            if need > 0 {
                self.pull(need);
            }
            let ghost fed = self.queue.remaining();
            let r = self.queue.read_bytes(amt, buf);
            proof {
                if r is Ok && amt > 0 {
                    lemma_read_log(old(self).taken@, old(self).given@, left, fed, 8 * amt);
                    assert(self.queue.remaining() =~= Seq::<u8>::empty());
                    assert(self.queue.pending() =~= self.queue.leftover_bits());
                } else {
                    assert(fed =~= Seq::<u8>::empty());
                    assert(old(self).taken@ + fed =~= old(self).taken@);
                }
            }
            if let Ok(ContainerRet::Bits(Some(bits))) = &r {
                self.given = Ghost(self.given@ + bits@);
            }
            r
        }
    }
}

/// The number of bits that stay buffered after a successful read of `amt`
/// bits with `have` bits buffered: what the read left of the buffered bits,
/// or what it did not use of the last byte it took, which is nothing where
/// it used that byte up.
pub open spec fn left_after(have: nat, amt: nat) -> nat {
    if amt <= have {
        (have - amt) as nat
    } else {
        ((8 - (amt - have) % 8) % 8) as nat
    }
}

/// Between the two states of a reader the stream was asked for bytes once:
/// its answer is the last of the answers noted, behind those noted before.
pub open spec fn asked_once<R>(before: Container<R>, after: Container<R>) -> bool {
    &&& after.answers().len() == before.answers().len() + 1
    &&& after.answers().drop_last() == before.answers()
}

/// Nothing was taken from the stream and nothing handed out between the two
/// states of a reader.
pub open spec fn unchanged<R>(before: Container<R>, after: Container<R>) -> bool {
    &&& after.leftover_bits() == before.leftover_bits()
    &&& after.consumed() == before.consumed()
    &&& after.delivered() == before.delivered()
}

/// Between the two states of a reader `amt` bits were handed out or
/// skipped: the bytes that this lacked, and no more, were taken from the
/// stream, and the buffered bits followed by the bits of those bytes were
/// cut after `amt` bits, the front handed out, the back buffered.
pub open spec fn took<R>(before: Container<R>, after: Container<R>, amt: nat) -> bool {
    let fresh = after.consumed().skip(before.consumed().len() as int);
    let all = before.leftover_bits() + expand(fresh);
    &&& after.consumed() == before.consumed() + fresh
    &&& fresh.len() == bytes_needed(before.leftover_bits().len(), amt)
    &&& amt <= all.len()
    &&& after.delivered() == before.delivered() + all.take(amt as int)
    &&& after.leftover_bits() == all.skip(amt as int)
}

/// The bookkeeping of one read: where the bits of the bytes taken so far
/// are the bits handed out followed by the buffered ones, they still are
/// after `fed` was taken and `amt` bits were handed out.
pub proof fn lemma_read_log(
    taken: Seq<u8>,
    given: Seq<bool>,
    leftover: Seq<bool>,
    fed: Seq<u8>,
    amt: int,
)
    requires
        expand(taken) == given + leftover,
        0 <= amt <= (leftover + expand(fed)).len(),
    ensures
        expand(taken + fed) == (given + (leftover + expand(fed)).take(amt)) + (leftover + expand(
            fed,
        )).skip(amt),
        (taken + fed).skip(taken.len() as int) == fed,
{
    let all = leftover + expand(fed);
    lemma_expand_concat(taken, fed);
    assert((given + leftover) + expand(fed) =~= (given + all.take(amt)) + all.skip(amt));
    assert((taken + fed).skip(taken.len() as int) =~= fed);
}

} // verus!
