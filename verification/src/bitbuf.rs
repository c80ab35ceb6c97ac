//! The bit vector that the adapters buffer and hand out, and what is taken on
//! trust about the crate that implements it.

use vstd::prelude::*;
use bitvec::vec::BitVec;
use bitvec::order::Msb0;
use bitvec::field::BitField;
use crate::bits::{expand, pack_byte};

verus! {

/// An ordered sequence of bits, stored by `bitvec` in bytes with the most
/// significant bit of each byte first.
#[verifier::external_body]
#[derive(Debug, PartialEq, Eq)]
pub struct BitBuf {
    bits: BitVec<u8, Msb0>,
}

/// The bits that a bit vector holds, in order.
pub uninterp spec fn bit_contents(v: BitBuf) -> Seq<bool>;

/// The largest number of bits that a bit vector can hold: an eighth of the
/// address space.
pub open spec fn max_bits() -> int {
    usize::MAX as int / 8
}

/// `BitVec::new`: a bit vector that holds no bits.
#[verifier::external_body]
fn bv_new() -> (r: BitBuf)
    ensures
        bit_contents(r) == Seq::<bool>::empty(),
{
    BitBuf { bits: BitVec::new() }
}

/// `BitVec::len`: the number of bits held, which never exceeds the largest
/// length that a bit vector can encode.
#[verifier::external_body]
fn bv_len(v: &BitBuf) -> (r: usize)
    ensures
        r == bit_contents(*v).len(),
        r <= max_bits(),
{
    v.bits.len()
}

/// `BitVec::extend_from_bitslice`: the bits of `other` are appended, in
/// order, behind those already held. The call panics where the sum of the
/// lengths cannot be encoded, which the precondition leaves out.
#[verifier::external_body]
fn bv_extend(v: &mut BitBuf, other: &BitBuf)
    requires
        bit_contents(*old(v)).len() + bit_contents(*other).len() <= max_bits(),
    ensures
        bit_contents(*final(v)) == bit_contents(*old(v)) + bit_contents(*other),
{
    v.bits.extend_from_bitslice(other.bits.as_bitslice())
}

/// `BitVec::split_off`: the bits from position `at` on leave the vector and
/// are returned; those before it stay. The call panics where `at` lies
/// behind the end, which the precondition leaves out.
#[verifier::external_body]
fn bv_split_off(v: &mut BitBuf, at: usize) -> (r: BitBuf)
    requires
        at <= bit_contents(*old(v)).len(),
    ensures
        bit_contents(*final(v)) == bit_contents(*old(v)).take(at as int),
        bit_contents(r) == bit_contents(*old(v)).skip(at as int),
{
    BitBuf { bits: v.bits.split_off(at) }
}

/// `BitVec::from_slice`: the bits of the bytes, byte after byte, the most
/// significant bit of each first. The call panics on a slice too long to be
/// spanned, which the precondition leaves out.
#[verifier::external_body]
fn bv_from_bytes(bytes: &[u8]) -> (r: BitBuf)
    requires
        8 * bytes@.len() <= max_bits(),
    ensures
        bit_contents(r) == expand(bytes@),
{
    BitBuf { bits: BitVec::from_slice(bytes) }
}

/// `BitVec::repeat`: `len` copies of one bit.
#[verifier::external_body]
fn bv_repeat(bit: bool, len: usize) -> (r: BitBuf)
    requires
        len <= max_bits(),
    ensures
        bit_contents(r) == Seq::new(len as nat, |i: int| bit),
{
    BitBuf { bits: BitVec::repeat(bit, len) }
}

/// `BitField::load_be` on the eight bits from `start` up to `end`: the byte
/// whose most significant bit is the first of them.
#[verifier::external_body]
fn bv_load_byte(v: &BitBuf, start: usize, end: usize) -> (r: u8)
    requires
        start + 8 == end,
        end <= bit_contents(*v).len(),
    ensures
        r == pack_byte(bit_contents(*v).subrange(start as int, end as int)),
{
    v.bits[start..end].load_be::<u8>()
}

/// Collecting booleans into a `BitVec`: one bit for each, in order.
#[verifier::external_body]
fn bv_from_bools(bools: &[bool]) -> (r: BitBuf)
    requires
        bools@.len() <= max_bits(),
    ensures
        bit_contents(r) == bools@,
{
    BitBuf { bits: bools.iter().copied().collect() }
}

/// Iterating a `BitVec` by value: its bits as booleans, in order.
#[verifier::external_body]
fn bv_to_bools(v: &BitBuf) -> (r: Vec<bool>)
    ensures
        r@ == bit_contents(*v),
{
    v.bits.iter().by_vals().collect()
}

impl View for BitBuf {
    type V = Seq<bool>;

    open spec fn view(&self) -> Seq<bool> {
        bit_contents(*self)
    }
}

impl BitBuf {
    /// A bit vector that holds no bits.
    pub fn new() -> (r: Self)
        ensures
            r@ == Seq::<bool>::empty(),
    {
        bv_new()
    }

    /// The bits of `bytes`, byte after byte, most significant bit first.
    pub fn from_bytes(bytes: &[u8]) -> (r: Self)
        requires
            8 * bytes@.len() <= max_bits(),
        ensures
            r@ == expand(bytes@),
    {
        bv_from_bytes(bytes)
    }

    /// One bit for each boolean, in order.
    pub fn from_bools(bools: &[bool]) -> (r: Self)
        requires
            bools@.len() <= max_bits(),
        ensures
            r@ == bools@,
    {
        bv_from_bools(bools)
    }

    /// `len` copies of `bit`.
    pub fn repeat(bit: bool, len: usize) -> (r: Self)
        requires
            len <= max_bits(),
        ensures
            r@ == Seq::new(len as nat, |i: int| bit),
    {
        bv_repeat(bit, len)
    }

    /// The number of bits held.
    pub fn len(&self) -> (r: usize)
        ensures
            r == self@.len(),
            r <= max_bits(),
    {
        bv_len(self)
    }

    /// Whether no bit is held.
    pub fn is_empty(&self) -> (r: bool)
        ensures
            r == (self@.len() == 0),
    {
        bv_len(self) == 0
    }

    /// Appends the bits of `other`, in order.
    pub fn extend_from(&mut self, other: &BitBuf)
        requires
            old(self)@.len() + other@.len() <= max_bits(),
        ensures
            final(self)@ == old(self)@ + other@,
    {
        bv_extend(self, other)
    }

    /// Keeps the first `at` bits and returns the others.
    pub fn split_off(&mut self, at: usize) -> (r: BitBuf)
        requires
            at <= old(self)@.len(),
        ensures
            final(self)@ == old(self)@.take(at as int),
            r@ == old(self)@.skip(at as int),
    {
        bv_split_off(self, at)
    }

    /// The byte packed from the eight bits that start at bit `8 * index`.
    pub fn byte_at(&self, index: usize) -> (r: u8)
        requires
            8 * index + 8 <= self@.len(),
        ensures
            r == pack_byte(self@.subrange(8 * index, 8 * index + 8)),
    {
        let len: usize = bv_len(self);
        assert(8 * index + 8 <= len);
        bv_load_byte(self, 8 * index, 8 * index + 8)
    }

    /// The bits as booleans, in order.
    pub fn to_bools(&self) -> (r: Vec<bool>)
        ensures
            r@ == self@,
    {
        bv_to_bools(self)
    }
}

} // verus!
