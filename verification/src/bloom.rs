//! A Bloom filter over byte strings: a bit array in which each element sets
//! a fixed number of hashed positions. It answers "possibly present" or
//! "certainly absent", and is stored as a self-describing byte string.
use vstd::prelude::*;
use vstd::bytes::{spec_u64_to_le_bytes, u64_to_le_bytes};
use vstd::std_specs::hash::DefaultHasherAdditionalSpecFns;
use core::hash::Hasher;
use std::collections::hash_map::DefaultHasher;
use crate::bytes::{le_bytes, le_value, length_field, put_len, read_u32, lemma_le_value_of_bytes};
use crate::error::FormatError;

verus! {

/// The 64-bit hash of `element` under the `seed`-th hash function: the
/// standard hasher fed with the length of the element, the element, and the
/// seed, each number as eight little-endian bytes.
pub open spec fn hash_value(element: Seq<u8>, seed: nat) -> u64 {
    DefaultHasher::spec_finish(
        seq![
            spec_u64_to_le_bytes(element.len() as u64),
            element,
            spec_u64_to_le_bytes(seed as u64),
        ],
    )
}

/// The bit that the `seed`-th hash function assigns to `element` in an
/// array of `size` bits, where `size` is positive.
pub open spec fn bit_position(element: Seq<u8>, seed: nat, size: nat) -> int {
    hash_value(element, seed) as int % size as int
}

/// Whether a filter with the bit array `bits` and `count` hash functions
/// accepts `element`: none of the positions of `element` holds a zero bit.
/// An array without bits has no position and accepts everything.
pub open spec fn accepts(bits: Seq<bool>, count: nat, element: Seq<u8>) -> bool {
    bits.len() > 0 ==> forall|seed: nat|
        seed < count ==> bits[#[trigger] bit_position(element, seed, bits.len())]
}

/// Whether one of the first `count` hash functions assigns the bit `j` to
/// `element`.
pub open spec fn hits(element: Seq<u8>, count: nat, size: nat, j: int) -> bool {
    exists|seed: nat| seed < count && #[trigger] bit_position(element, seed, size) == j
}

/// The bit array after `element` has been inserted: the bits that were set
/// stay set, and every position of `element` is set.
pub open spec fn with_element(bits: Seq<bool>, count: nat, element: Seq<u8>) -> Seq<bool> {
    Seq::new(bits.len(), |j: int| bits[j] || hits(element, count, bits.len(), j))
}

/// One if bit `i` of `bits` exists and is set, zero otherwise.
pub open spec fn bit_at(bits: Seq<bool>, i: int) -> int {
    if 0 <= i < bits.len() && bits[i] {
        1
    } else {
        0
    }
}

/// Byte `b` of the packed bit array: bit `8 * b + r` of the array is bit
/// `r` of the byte, counted from the least significant.
pub open spec fn packed_byte(bits: Seq<bool>, b: int) -> u8 {
    (bit_at(bits, 8 * b) + 2 * bit_at(bits, 8 * b + 1) + 4 * bit_at(bits, 8 * b + 2) + 8 * bit_at(
        bits,
        8 * b + 3,
    ) + 16 * bit_at(bits, 8 * b + 4) + 32 * bit_at(bits, 8 * b + 5) + 64 * bit_at(bits, 8 * b + 6)
        + 128 * bit_at(bits, 8 * b + 7)) as u8
}

/// The bit array packed into bytes, eight bits to a byte, the last byte
/// filled up with zero bits.
pub open spec fn packed(bits: Seq<bool>) -> Seq<u8> {
    Seq::new(((bits.len() + 7) / 8) as nat, |b: int| packed_byte(bits, b))
}

/// The value of bit `r` of a byte: 1, 2, 4, ..., 128.
pub open spec fn place_value(r: int) -> int {
    if r == 0 {
        1
    } else if r == 1 {
        2
    } else if r == 2 {
        4
    } else if r == 3 {
        8
    } else if r == 4 {
        16
    } else if r == 5 {
        32
    } else if r == 6 {
        64
    } else {
        128
    }
}

/// Whether bit `r` of `byte` is set, counted from the least significant.
pub open spec fn bit_of(byte: u8, r: int) -> bool {
    (byte as int / place_value(r)) % 2 == 1
}

/// The stored form of a filter: the number of bits and the number of hash
/// functions, each as a 32-bit length field, then the packed bits.
pub open spec fn filter_bytes(bits: Seq<bool>, count: nat) -> Seq<u8> {
    le_bytes(length_field(bits.len())) + le_bytes(length_field(count)) + packed(bits)
}

/// The bit array that a stored filter of at least eight bytes describes:
/// as many bits as its header says, each read from the packed bytes, and
/// zero where the bytes have run out.
pub open spec fn stored_bits(data: Seq<u8>) -> Seq<bool> {
    Seq::new(
        le_value(data.subrange(0, 4)) as nat,
        |i: int| 8 + i / 8 < data.len() && bit_of(data[8 + i / 8], i % 8),
    )
}

/// The number of hash functions that a stored filter of at least eight
/// bytes names.
pub open spec fn stored_hash_count(data: Seq<u8>) -> nat {
    le_value(data.subrange(4, 8)) as nat
}

/// A bit that was packed into a byte is read back from it.
pub proof fn lemma_bit_of_packed(bits: Seq<bool>, b: int, r: int)
    requires
        0 <= r < 8,
    ensures
        bit_of(packed_byte(bits, b), r) == (bit_at(bits, 8 * b + r) == 1),
{
    let b0 = bit_at(bits, 8 * b);
    let b1 = bit_at(bits, 8 * b + 1);
    let b2 = bit_at(bits, 8 * b + 2);
    let b3 = bit_at(bits, 8 * b + 3);
    let b4 = bit_at(bits, 8 * b + 4);
    let b5 = bit_at(bits, 8 * b + 5);
    let b6 = bit_at(bits, 8 * b + 6);
    let b7 = bit_at(bits, 8 * b + 7);
    let v = b0 + 2 * b1 + 4 * b2 + 8 * b3 + 16 * b4 + 32 * b5 + 64 * b6 + 128 * b7;
    assert(0 <= v < 256);
    assert(packed_byte(bits, b) as int == v);
    if r == 0 {
        assert((v / 1) % 2 == b0);
    } else if r == 1 {
        assert((v / 2) % 2 == b1);
    } else if r == 2 {
        assert((v / 4) % 2 == b2);
    } else if r == 3 {
        assert((v / 8) % 2 == b3);
    } else if r == 4 {
        assert((v / 16) % 2 == b4);
    } else if r == 5 {
        assert((v / 32) % 2 == b5);
    } else if r == 6 {
        assert((v / 64) % 2 == b6);
    } else {
        assert((v / 128) % 2 == b7);
    }
}

/// A filter whose bit count and hash count fit 32 bits is read back from
/// its stored form with the same bit pattern and the same hash count.
pub proof fn lemma_filter_round_trip(bits: Seq<bool>, count: nat)
    requires
        bits.len() <= u32::MAX,
        count <= u32::MAX,
    ensures
        filter_bytes(bits, count).len() >= 8,
        stored_bits(filter_bytes(bits, count)) == bits,
        stored_hash_count(filter_bytes(bits, count)) == count,
{
    let data = filter_bytes(bits, count);
    lemma_le_value_of_bytes(length_field(bits.len()));
    lemma_le_value_of_bytes(length_field(count));
    assert(data.subrange(0, 4) =~= le_bytes(length_field(bits.len())));
    assert(data.subrange(4, 8) =~= le_bytes(length_field(count)));
    assert forall|i: int| 0 <= i < bits.len() implies stored_bits(data)[i] == bits[i] by {
        assert(i / 8 < (bits.len() + 7) / 8);
        assert(data[8 + i / 8] == packed(bits)[i / 8]);
        lemma_bit_of_packed(bits, i / 8, i % 8);
        assert(8 * (i / 8) + i % 8 == i);
    }
    assert(stored_bits(data) =~= bits);
}

/// A filter that is read back from its stored form accepts exactly what it
/// accepted before, where its bit count and hash count fit 32 bits.
pub proof fn lemma_round_trip_accepts(bits: Seq<bool>, count: nat, element: Seq<u8>)
    requires
        bits.len() <= u32::MAX,
        count <= u32::MAX,
    ensures
        accepts(
            stored_bits(filter_bytes(bits, count)),
            stored_hash_count(filter_bytes(bits, count)),
            element,
        ) == accepts(bits, count, element),
{
    lemma_filter_round_trip(bits, count);
}

/// Inserting an element makes the filter accept it, and keeps every
/// element accepted that was accepted before.
pub proof fn lemma_insert_accepts(bits: Seq<bool>, count: nat, element: Seq<u8>, other: Seq<u8>)
    ensures
        accepts(with_element(bits, count, element), count, element),
        accepts(bits, count, other) ==> accepts(with_element(bits, count, element), count, other),
{
    let after = with_element(bits, count, element);
    if bits.len() > 0 {
        assert forall|seed: nat| seed < count implies after[#[trigger] bit_position(
            element,
            seed,
            after.len(),
        )] by {
            let j = bit_position(element, seed, bits.len());
            assert(0 <= j < bits.len()) by (nonlinear_arith)
                requires
                    j == hash_value(element, seed) as int % bits.len() as int,
                    bits.len() > 0,
            ;
            assert(hits(element, count, bits.len(), j));
        }
        if accepts(bits, count, other) {
            assert forall|seed: nat| seed < count implies after[#[trigger] bit_position(
                other,
                seed,
                after.len(),
            )] by {
                let j = bit_position(other, seed, bits.len());
                assert(0 <= j < bits.len()) by (nonlinear_arith)
                    requires
                        j == hash_value(other, seed) as int % bits.len() as int,
                        bits.len() > 0,
                ;
                assert(bits[j]);
            }
        }
    }
}

/// A Bloom filter: a bit array and the number of hash functions that each
/// element is put through.
pub struct BloomFilter {
    bits: Vec<bool>,
    num_hash_functions: usize,
    size: usize,
}

impl BloomFilter {
    /// The bit array of the filter.
    pub closed spec fn bits(&self) -> Seq<bool> {
        self.bits@
    }

    /// The number of hash functions.
    pub closed spec fn hash_count(&self) -> nat {
        self.num_hash_functions as nat
    }

    /// The number of bits that the filter was made with.
    pub closed spec fn bit_count(&self) -> nat {
        self.size as nat
    }

    /// The filter is well formed: its bit array has as many bits as the
    /// filter was made with.
    pub open spec fn wf(&self) -> bool {
        self.bits().len() == self.bit_count()
    }

    /// Whether the filter accepts `element` as possibly present.
    pub open spec fn accepts(&self, element: Seq<u8>) -> bool {
        accepts(self.bits(), self.hash_count(), element)
    }

    /// An empty filter of `size` bits with `num_hash_functions` hash
    /// functions.
    pub fn with_size(size: usize, num_hash_functions: usize) -> (filter: Self)
        ensures
            filter.wf(),
            filter.bits() == Seq::new(size as nat, |i: int| false),
            filter.hash_count() == num_hash_functions,
    {
        let mut bits: Vec<bool> = Vec::new();
        let mut i: usize = 0;
        while i < size
            invariant
                i <= size,
                bits@ == Seq::new(i as nat, |j: int| false),
            decreases size - i,
        {
            bits.push(false);
            i += 1;
            assert(bits@ =~= Seq::new(i as nat, |j: int| false));
        }
        BloomFilter { bits, num_hash_functions, size }
    }

    /// Inserts `element`: sets the bit at each of its positions.
    pub fn insert(&mut self, element: &[u8])
        requires
            old(self).wf(),
        ensures
            final(self).wf(),
            final(self).bits() == with_element(old(self).bits(), old(self).hash_count(), element@),
            final(self).hash_count() == old(self).hash_count(),
            final(self).accepts(element@),
            forall|other: Seq<u8>| old(self).accepts(other) ==> final(self).accepts(other),
    {
        let ghost start = self.bits@;
        let ghost count = self.num_hash_functions as nat;
        if self.size > 0 {
            let mut i: usize = 0;
            assert(start =~= with_element(start, 0, element@));
            while i < self.num_hash_functions
                invariant
                    i <= self.num_hash_functions,
                    self.num_hash_functions == count,
                    self.size == old(self).size,
                    self.size > 0,
                    self.wf(),
                    self.bits@ == with_element(start, i as nat, element@),
                decreases self.num_hash_functions - i,
            {
                let position = self.hash_position(element, i);
                self.bits.set(position, true);
                proof {
                    let size = start.len();
                    assert forall|j: int| 0 <= j < size implies self.bits@[j] == with_element(
                        start,
                        (i + 1) as nat,
                        element@,
                    )[j] by {
                        if hits(element@, (i + 1) as nat, size, j) {
                            let seed = choose|seed: nat|
                                seed < i + 1 && #[trigger] bit_position(element@, seed, size) == j;
                            if seed < i {
                                assert(hits(element@, i as nat, size, j));
                            }
                        }
                        if hits(element@, i as nat, size, j) {
                            let seed = choose|seed: nat|
                                seed < i && #[trigger] bit_position(element@, seed, size) == j;
                            assert(seed < i + 1);
                        }
                        if j == position {
                            assert(bit_position(element@, i as nat, size) == j);
                        }
                    }
                    assert(self.bits@ =~= with_element(start, (i + 1) as nat, element@));
                }
                i += 1;
            }
        } else {
            assert(self.bits@ =~= with_element(start, count, element@));
        }
        proof {
            assert forall|other: Seq<u8>| old(self).accepts(other) implies self.accepts(other) by {
                lemma_insert_accepts(start, count, element@, other);
            }
            lemma_insert_accepts(start, count, element@, element@);
        }
    }

    /// Whether `element` may have been inserted: `false` only if one of its
    /// positions holds a zero bit.
    pub fn might_contain(&self, element: &[u8]) -> (possible: bool)
        requires
            self.wf(),
        ensures
            possible == self.accepts(element@),
    {
        if self.size == 0 {
            return true;
        }
        let mut i: usize = 0;
        while i < self.num_hash_functions
            invariant
                i <= self.num_hash_functions,
                self.wf(),
                self.size > 0,
                forall|seed: nat|
                    seed < i ==> self.bits@[#[trigger] bit_position(
                        element@,
                        seed,
                        self.bits@.len(),
                    )],
            decreases self.num_hash_functions - i,
        {
            let position = self.hash_position(element, i);
            if !self.bits[position] {
                assert(!self.bits@[bit_position(element@, i as nat, self.bits@.len())]);
                return false;
            }
            i += 1;
        }
        true
    }

    /// The position that the `seed`-th hash function assigns to `element`.
    fn hash_position(&self, element: &[u8], seed: usize) -> (position: usize)
        requires
            self.wf(),
            self.bit_count() > 0,
        ensures
            position == bit_position(element@, seed as nat, self.bit_count()),
            position < self.bit_count(),
    {
        let mut hasher = DefaultHasher::new();
        let length = u64_to_le_bytes(element.len() as u64);
        hasher.write(length.as_slice());
        hasher.write(element);
        let number = u64_to_le_bytes(seed as u64);
        hasher.write(number.as_slice());
        let hash = hasher.finish();
        assert(hasher@ =~= seq![
            spec_u64_to_le_bytes(element@.len() as u64),
            element@,
            spec_u64_to_le_bytes(seed as u64),
        ]);
        (hash % (self.size as u64)) as usize
    }

    /// The stored form of the filter: the number of bits and the number of
    /// hash functions as 32-bit fields, then the bits, eight to a byte.
    pub fn to_bytes(&self) -> (bytes: Vec<u8>)
        requires
            self.wf(),
        ensures
            bytes@ == filter_bytes(self.bits(), self.hash_count()),
    {
        let mut bytes: Vec<u8> = Vec::new();
        put_len(&mut bytes, self.size);
        put_len(&mut bytes, self.num_hash_functions);
        let ghost header = bytes@;
        let full: usize = self.bits.len() / 8;
        let count: usize = if self.bits.len() % 8 > 0 {
            full + 1
        } else {
            full
        };
        let mut b: usize = 0;
        while b < count
            invariant
                b <= count,
                count == (self.bits@.len() + 7) / 8,
                bytes@ == header + Seq::new(b as nat, |c: int| packed_byte(self.bits@, c)),
            decreases count - b,
        {
            let byte = self.pack_byte(b);
            bytes.push(byte);
            b += 1;
            assert(bytes@ =~= header + Seq::new(b as nat, |c: int| packed_byte(self.bits@, c)));
        }
        assert(bytes@ =~= filter_bytes(self.bits(), self.hash_count()));
        bytes
    }

    /// Byte `b` of the packed bits.
    fn pack_byte(&self, b: usize) -> (byte: u8)
        requires
            8 * b < self.bits@.len(),
        ensures
            byte == packed_byte(self.bits@, b as int),
    {
        let length: usize = self.bits.len();
        let first: usize = 8 * b;
        assert(first < length);
        let b0 = self.bit_value(first, 0);
        let b1 = self.bit_value(first, 1);
        let b2 = self.bit_value(first, 2);
        let b3 = self.bit_value(first, 3);
        let b4 = self.bit_value(first, 4);
        let b5 = self.bit_value(first, 5);
        let b6 = self.bit_value(first, 6);
        let b7 = self.bit_value(first, 7);
        b0 + 2 * b1 + 4 * b2 + 8 * b3 + 16 * b4 + 32 * b5 + 64 * b6 + 128 * b7
    }

    /// One if the bit at `first + offset` exists and is set, zero otherwise.
    fn bit_value(&self, first: usize, offset: usize) -> (value: u8)
        requires
            first < self.bits@.len(),
            offset < 8,
        ensures
            value == bit_at(self.bits@, first + offset),
            value <= 1,
    {
        if self.bits.len() - first > offset && self.bits[first + offset] {
            1
        } else {
            0
        }
    }

    /// Reads a filter from its stored form. Fewer than eight bytes are a
    /// format error; bits for which the bytes do not reach are zero.
    pub fn from_bytes(bytes: &[u8]) -> (filter: Result<Self, FormatError>)
        ensures
            match filter {
                Ok(f) => bytes@.len() >= 8 && f.wf() && f.bits() == stored_bits(bytes@)
                    && f.hash_count() == stored_hash_count(bytes@),
                Err(e) => bytes@.len() < 8 && e == FormatError::BloomFilter,
            },
    {
        if bytes.len() < 8 {
            return Err(FormatError::BloomFilter);
        }
        let size = read_u32(bytes, 0) as usize;
        let num_hash_functions = read_u32(bytes, 4) as usize;
        let mut bits: Vec<bool> = Vec::new();
        let mut i: usize = 0;
        while i < size
            invariant
                i <= size,
                size == le_value(bytes@.subrange(0, 4)),
                bits@ == Seq::new(
                    i as nat,
                    |j: int| 8 + j / 8 < bytes@.len() && bit_of(bytes@[8 + j / 8], j % 8),
                ),
            decreases size - i,
        {
            let index: usize = 8 + i / 8;
            let bit = index < bytes.len() && read_bit(bytes[index], i % 8);
            bits.push(bit);
            i += 1;
            assert(bits@ =~= Seq::new(
                i as nat,
                |j: int| 8 + j / 8 < bytes@.len() && bit_of(bytes@[8 + j / 8], j % 8),
            ));
        }
        Ok(BloomFilter { bits, num_hash_functions, size })
    }
}

/// Whether bit `r` of `byte` is set.
fn read_bit(byte: u8, r: usize) -> (set: bool)
    requires
        r < 8,
    ensures
        set == bit_of(byte, r as int),
{
    let place: u8 = if r == 0 {
        1
    } else if r == 1 {
        2
    } else if r == 2 {
        4
    } else if r == 3 {
        8
    } else if r == 4 {
        16
    } else if r == 5 {
        32
    } else if r == 6 {
        64
    } else {
        128
    };
    (byte / place) % 2 == 1
}

} // verus!
