//! The mathematical model of the bit order: bytes as sequences of bits, most
//! significant bit first, and the facts that relate packing and expanding.

use vstd::prelude::*;

verus! {

/// The numeric weight of the bit at position `i` of a byte. Position 0 is the
/// first bit of the stream and the most significant bit of the byte.
pub open spec fn weight(i: int) -> int {
    if i == 0 {
        128
    } else if i == 1 {
        64
    } else if i == 2 {
        32
    } else if i == 3 {
        16
    } else if i == 4 {
        8
    } else if i == 5 {
        4
    } else if i == 6 {
        2
    } else {
        1
    }
}

/// Whether the bit at position `i` of `b` is set.
#[verifier::opaque]
pub open spec fn bit_at(b: u8, i: int) -> bool {
    (b as int / weight(i)) % 2 == 1
}

/// The eight bits of one byte, most significant first.
pub open spec fn byte_bits(b: u8) -> Seq<bool> {
    Seq::new(8, |i: int| bit_at(b, i))
}

/// The bits of a byte sequence: byte after byte, each most significant bit first.
pub open spec fn expand(bytes: Seq<u8>) -> Seq<bool> {
    Seq::new(8 * bytes.len(), |i: int| bit_at(bytes[i / 8], i % 8))
}

/// What the bit at position `i` of `bits` adds to the byte it is packed into.
pub open spec fn bit_value(bits: Seq<bool>, i: int) -> int {
    if bits[i] {
        weight(i)
    } else {
        0
    }
}

/// The byte made of the first eight bits of `bits`, the first bit being the
/// most significant.
#[verifier::opaque]
pub open spec fn pack_byte(bits: Seq<bool>) -> u8 {
    (bit_value(bits, 0) + bit_value(bits, 1) + bit_value(bits, 2) + bit_value(bits, 3)
        + bit_value(bits, 4) + bit_value(bits, 5) + bit_value(bits, 6) + bit_value(bits, 7)) as u8
}

/// The whole bytes that `bits` fills, in order; a trailing fraction of a byte
/// is left out.
pub open spec fn pack(bits: Seq<bool>) -> Seq<u8> {
    Seq::new(bits.len() / 8, |k: int| pack_byte(bits.subrange(8 * k, 8 * k + 8)))
}

/// `n` zero bits.
pub open spec fn zeros(n: nat) -> Seq<bool> {
    Seq::new(n, |i: int| false)
}

/// How many bits are missing after `n` bits to reach a byte boundary.
pub open spec fn pad_len(n: nat) -> nat {
    ((8 - n % 8) % 8) as nat
}

/// `bits` followed by as many zero bits as it takes to reach a byte boundary.
pub open spec fn pad(bits: Seq<bool>) -> Seq<bool> {
    bits + zeros(pad_len(bits.len()))
}

/// Packing the eight bits of a byte gives the byte back.
pub proof fn lemma_pack_byte_bits(b: u8)
    ensures
        pack_byte(byte_bits(b)) == b,
{
    reveal(bit_at);
    reveal(pack_byte);
    let s = byte_bits(b);
    assert(b == (b / 128 % 2) * 128 + (b / 64 % 2) * 64 + (b / 32 % 2) * 32 + (b / 16 % 2) * 16 + (b
        / 8 % 2) * 8 + (b / 4 % 2) * 4 + (b / 2 % 2) * 2 + (b / 1 % 2)) by (bit_vector);
    assert(bit_value(s, 0) == (b / 128 % 2) * 128);
    assert(bit_value(s, 1) == (b / 64 % 2) * 64);
    assert(bit_value(s, 2) == (b / 32 % 2) * 32);
    assert(bit_value(s, 3) == (b / 16 % 2) * 16);
    assert(bit_value(s, 4) == (b / 8 % 2) * 8);
    assert(bit_value(s, 5) == (b / 4 % 2) * 4);
    assert(bit_value(s, 6) == (b / 2 % 2) * 2);
    assert(bit_value(s, 7) == (b / 1 % 2));
}

/// One for a set bit, zero for a clear one.
pub open spec fn bit_unit(bit: bool) -> u8 {
    if bit {
        1
    } else {
        0
    }
}

/// Each bit of a packed byte is the bit that was packed at its position.
pub proof fn lemma_bit_of_packed(bits: Seq<bool>, i: int)
    requires
        bits.len() == 8,
        0 <= i < 8,
    ensures
        bit_at(pack_byte(bits), i) == bits[i],
{
    reveal(bit_at);
    reveal(pack_byte);
    let x0 = bit_unit(bits[0]);
    let x1 = bit_unit(bits[1]);
    let x2 = bit_unit(bits[2]);
    let x3 = bit_unit(bits[3]);
    let x4 = bit_unit(bits[4]);
    let x5 = bit_unit(bits[5]);
    let x6 = bit_unit(bits[6]);
    let x7 = bit_unit(bits[7]);
    let v: u8 = (x0 * 128 + x1 * 64 + x2 * 32 + x3 * 16 + x4 * 8 + x5 * 4 + x6 * 2 + x7) as u8;
    assert(pack_byte(bits) == v);
    assert(v / 128 % 2 == x0 && v / 64 % 2 == x1 && v / 32 % 2 == x2 && v / 16 % 2 == x3 && v / 8
        % 2 == x4 && v / 4 % 2 == x5 && v / 2 % 2 == x6 && v / 1 % 2 == x7) by (bit_vector)
        requires
            x0 <= 1 && x1 <= 1 && x2 <= 1 && x3 <= 1 && x4 <= 1 && x5 <= 1 && x6 <= 1 && x7 <= 1,
            v == (x0 * 128 + x1 * 64 + x2 * 32 + x3 * 16 + x4 * 8 + x5 * 4 + x6 * 2 + x7) as u8,
    ;
}

/// Expanding is additive: the bits of two byte sequences in a row are the bits
/// of the first followed by the bits of the second.
pub proof fn lemma_expand_concat(a: Seq<u8>, b: Seq<u8>)
    ensures
        expand(a + b) == expand(a) + expand(b),
{
    assert(expand(a + b) =~= expand(a) + expand(b));
}

/// The bits of a single byte sequence of length one are the bits of that byte.
pub proof fn lemma_expand_one(b: u8)
    ensures
        expand(seq![b]) == byte_bits(b),
{
    assert(expand(seq![b]) =~= byte_bits(b));
}

/// Packing is additive where the first part ends on a byte boundary.
pub proof fn lemma_pack_concat(a: Seq<bool>, b: Seq<bool>)
    requires
        a.len() % 8 == 0,
    ensures
        pack(a + b) == pack(a) + pack(b),
{
    let ab = a + b;
    let n = a.len() / 8;
    assert forall|k: int| 0 <= k < pack(ab).len() implies pack(ab)[k] == (pack(a) + pack(b))[k] by {
        if k < n {
            assert(ab.subrange(8 * k, 8 * k + 8) =~= a.subrange(8 * k, 8 * k + 8));
        } else {
            assert(ab.subrange(8 * k, 8 * k + 8) =~= b.subrange(8 * (k - n), 8 * (k - n) + 8));
        }
    }
    assert(pack(ab) =~= pack(a) + pack(b));
}

/// Packing the bits of a byte sequence gives the byte sequence back.
pub proof fn lemma_pack_expand(bytes: Seq<u8>)
    ensures
        pack(expand(bytes)) == bytes,
{
    let bits = expand(bytes);
    assert forall|k: int| 0 <= k < bytes.len() implies pack(bits)[k] == bytes[k] by {
        assert(bits.subrange(8 * k, 8 * k + 8) =~= byte_bits(bytes[k]));
        lemma_pack_byte_bits(bytes[k]);
    }
    assert(pack(bits) =~= bytes);
}

/// Expanding the bytes packed from a whole number of bytes' worth of bits
/// gives the bits back.
pub proof fn lemma_expand_pack(bits: Seq<bool>)
    requires
        bits.len() % 8 == 0,
    ensures
        expand(pack(bits)) == bits,
{
    let bytes = pack(bits);
    assert forall|i: int| 0 <= i < bits.len() implies expand(bytes)[i] == bits[i] by {
        let k = i / 8;
        let chunk = bits.subrange(8 * k, 8 * k + 8);
        lemma_bit_of_packed(chunk, i % 8);
        assert(chunk[i % 8] == bits[i]);
    }
    assert(expand(bytes) =~= bits);
}

/// Padding reaches a byte boundary and keeps the bits it was given in front.
pub proof fn lemma_pad(bits: Seq<bool>)
    ensures
        pad(bits).len() % 8 == 0,
        pad(bits).len() >= bits.len(),
        pad(bits).len() < bits.len() + 8,
        pad(bits).take(bits.len() as int) == bits,
        bits.len() % 8 == 0 ==> pad(bits) == bits,
{
    assert(pad(bits).take(bits.len() as int) =~= bits);
    if bits.len() % 8 == 0 {
        assert(pad(bits) =~= bits);
    }
}

} // verus!
