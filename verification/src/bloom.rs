//! A Bloom filter over digests: a compact record of which items a set holds.
//!
//! An item is hashed once. Hash round `r` lands on the bit
//! `(w0 + r * w1) mod N`, where `w0` and `w1` are the first two 64-bit
//! little-endian words of the digest and `N` is the number of bits. With `n`
//! items inserted and `k` rounds, an item that was never inserted is found by
//! accident with a probability of about `(1 - exp(-k * n / N))` to the power
//! `k`: for 3 items, 4 rounds and 80 bits that is about 4 in 10000.

use vstd::prelude::*;
use crate::error::EncodeError;
use crate::hashing::{blake2b_256_digest, hash256};
use crate::length_prefix::{fits, oversize};
use crate::order::byte_strings;
use crate::record::Record;

verus! {

/// The 64-bit number spelled by the eight bytes of `digest` that start at
/// `at`, least significant first.
pub open spec fn word_at(digest: Seq<u8>, at: int) -> nat
    recommends
        0 <= at,
        at + 8 <= digest.len(),
{
    (digest[at] as nat) + 0x100 * (digest[at + 1] as nat) + 0x1_0000 * (digest[at + 2] as nat)
        + 0x100_0000 * (digest[at + 3] as nat) + 0x1_0000_0000 * (digest[at + 4] as nat)
        + 0x100_0000_0000 * (digest[at + 5] as nat) + 0x1_0000_0000_0000 * (digest[at + 6] as nat)
        + 0x100_0000_0000_0000 * (digest[at + 7] as nat)
}

/// The bit that hash round `round` derives from a digest, in a filter of
/// `size` bits: the first word of the digest plus `round` times the second,
/// modulo `size`.
pub open spec fn position(digest: Seq<u8>, round: nat, size: nat) -> int
    recommends
        size > 0,
        digest.len() >= 16,
{
    ((word_at(digest, 0) + round * word_at(digest, 8)) % size) as int
}

/// Whether one of the first `rounds` hash rounds of a digest lands on bit `i`.
pub open spec fn hits(digest: Seq<u8>, rounds: nat, size: nat, i: int) -> bool {
    exists|r: nat| r < rounds && #[trigger] position(digest, r, size) == i
}

/// The bit array after the item with this digest has been inserted: every
/// bit that was set stays set, and the bits that the hash rounds land on are
/// set too.
pub open spec fn with_item(bits: Seq<bool>, digest: Seq<u8>, rounds: nat) -> Seq<bool> {
    Seq::new(bits.len(), |i: int| bits[i] || hits(digest, rounds, bits.len(), i))
}

/// Whether every bit that the hash rounds of a digest land on is set.
pub open spec fn holds(bits: Seq<bool>, digest: Seq<u8>, rounds: nat) -> bool {
    forall|r: nat| r < rounds ==> bits[#[trigger] position(digest, r, bits.len())]
}

/// An empty bit array of `size` bits.
pub open spec fn no_bits(size: nat) -> Seq<bool> {
    Seq::new(size, |i: int| false)
}

/// The bit array of a filter of `size` bits after the items with these
/// digests have been inserted, one after the other.
pub open spec fn after_inserts(size: nat, rounds: nat, digests: Seq<Seq<u8>>) -> Seq<bool>
    decreases digests.len(),
{
    if digests.len() == 0 {
        no_bits(size)
    } else {
        with_item(after_inserts(size, rounds, digests.drop_last()), digests.last(), rounds)
    }
}

/// The digests of a list of items.
pub open spec fn digests_of(items: Seq<Seq<u8>>) -> Seq<Seq<u8>> {
    items.map_values(|item: Seq<u8>| blake2b_256_digest(item))
}

/// Number of bytes that `size` bits are packed into.
pub open spec fn packed_len(size: nat) -> nat {
    ((size + 7) / 8) as nat
}

/// Bit `i` of a bit array as the mask it contributes to its byte, where bits
/// past the end of the array count as clear.
pub open spec fn mask_if_set(bits: Seq<bool>, i: int, mask: u8) -> u8 {
    if 0 <= i < bits.len() && bits[i] {
        mask
    } else {
        0u8
    }
}

/// Byte `j` of a packed bit array: bit `8 * j + b` of the array is bit `b` of
/// the byte, counted from the least significant.
pub open spec fn packed_byte(bits: Seq<bool>, j: int) -> u8 {
    mask_if_set(bits, 8 * j, 1) | mask_if_set(bits, 8 * j + 1, 2) | mask_if_set(bits, 8 * j + 2, 4)
        | mask_if_set(bits, 8 * j + 3, 8) | mask_if_set(bits, 8 * j + 4, 16) | mask_if_set(
        bits,
        8 * j + 5,
        32,
    ) | mask_if_set(bits, 8 * j + 6, 64) | mask_if_set(bits, 8 * j + 7, 128)
}

/// A bit array packed into bytes: bit `i` is bit `i mod 8` of byte `i div 8`,
/// and the unused high bits of the last byte are clear.
pub open spec fn packed(bits: Seq<bool>) -> Seq<u8> {
    Seq::new(packed_len(bits.len()), |j: int| packed_byte(bits, j))
}

/// Whether bit `offset` of a byte is set, counted from the least significant.
pub open spec fn bit_of(byte: u8, offset: u8) -> bool {
    byte & (1u8 << offset) != 0
}

proof fn lemma_set_bit(byte: u8, offset: u8, other: u8)
    by (bit_vector)
    requires
        offset < 8,
        other < 8,
    ensures
        bit_of(byte | (1u8 << offset), other) == (other == offset || bit_of(byte, other)),
{
}

proof fn lemma_zero_has_no_bits(offset: u8)
    by (bit_vector)
    requires
        offset < 8,
    ensures
        !bit_of(0u8, offset),
{
}

proof fn lemma_byte_is_its_bits(byte: u8)
    by (bit_vector)
    ensures
        byte == (if bit_of(byte, 0) { 1u8 } else { 0u8 }) | (if bit_of(byte, 1) { 2u8 } else { 0u8 })
            | (if bit_of(byte, 2) { 4u8 } else { 0u8 }) | (if bit_of(byte, 3) { 8u8 } else { 0u8 })
            | (if bit_of(byte, 4) { 16u8 } else { 0u8 }) | (if bit_of(byte, 5) { 32u8 } else { 0u8 })
            | (if bit_of(byte, 6) { 64u8 } else { 0u8 }) | (if bit_of(byte, 7) { 128u8 } else { 0u8 }),
{
}

/// Inserting an item sets every bit its hash rounds land on, so the item is
/// found afterwards.
pub proof fn lemma_inserted_is_held(bits: Seq<bool>, digest: Seq<u8>, rounds: nat)
    requires
        bits.len() > 0,
    ensures
        holds(with_item(bits, digest, rounds), digest, rounds),
{
    let after = with_item(bits, digest, rounds);
    assert forall|r: nat| r < rounds implies after[#[trigger] position(
        digest,
        r,
        after.len(),
    )] by {
        let p = position(digest, r, bits.len());
        assert(0 <= p < bits.len()) by (nonlinear_arith)
            requires
                p == ((word_at(digest, 0) + r * word_at(digest, 8)) % bits.len()) as int,
                bits.len() > 0,
        ;
        assert(hits(digest, rounds, bits.len(), p));
    }
}

/// Insertion only ever sets bits: whatever was found before an insertion is
/// found after it.
pub proof fn lemma_insert_keeps_held(bits: Seq<bool>, inserted: Seq<u8>, held: Seq<u8>, rounds: nat)
    requires
        bits.len() > 0,
        holds(bits, held, rounds),
    ensures
        holds(with_item(bits, inserted, rounds), held, rounds),
{
    let after = with_item(bits, inserted, rounds);
    assert forall|r: nat| r < rounds implies after[#[trigger] position(held, r, after.len())] by {
        let p = position(held, r, bits.len());
        assert(0 <= p < bits.len()) by (nonlinear_arith)
            requires
                p == ((word_at(held, 0) + r * word_at(held, 8)) % bits.len()) as int,
                bits.len() > 0,
        ;
        assert(bits[p]);
    }
}

/// A filter has no false negatives: after any run of insertions, every item
/// that was inserted is found, whatever the size and the number of rounds.
pub proof fn lemma_no_false_negatives(size: nat, rounds: nat, digests: Seq<Seq<u8>>, j: int)
    requires
        size > 0,
        0 <= j < digests.len(),
    ensures
        after_inserts(size, rounds, digests).len() == size,
        holds(after_inserts(size, rounds, digests), digests[j], rounds),
    decreases digests.len(),
{
    lemma_after_inserts_len(size, rounds, digests.drop_last());
    let before = after_inserts(size, rounds, digests.drop_last());
    if j == digests.len() - 1 {
        lemma_inserted_is_held(before, digests.last(), rounds);
    } else {
        lemma_no_false_negatives(size, rounds, digests.drop_last(), j);
        lemma_insert_keeps_held(before, digests.last(), digests[j], rounds);
    }
}

/// Insertions never change the size of the bit array.
pub proof fn lemma_after_inserts_len(size: nat, rounds: nat, digests: Seq<Seq<u8>>)
    ensures
        after_inserts(size, rounds, digests).len() == size,
    decreases digests.len(),
{
    if digests.len() > 0 {
        lemma_after_inserts_len(size, rounds, digests.drop_last());
    }
}

/// Reads eight bytes of a digest as a number, least significant first.
fn word(digest: &[u8; 32], at: usize) -> (w: u64)
    requires
        at + 8 <= 32,
    ensures
        w == word_at(digest@, at as int),
{
    let b0: u64 = digest[at] as u64;
    let b1: u64 = digest[at + 1] as u64;
    let b2: u64 = digest[at + 2] as u64;
    let b3: u64 = digest[at + 3] as u64;
    let b4: u64 = digest[at + 4] as u64;
    let b5: u64 = digest[at + 5] as u64;
    let b6: u64 = digest[at + 6] as u64;
    let b7: u64 = digest[at + 7] as u64;
    b0 + 0x100 * b1 + 0x1_0000 * b2 + 0x100_0000 * b3 + 0x1_0000_0000 * b4 + 0x100_0000_0000 * b5
        + 0x1_0000_0000_0000 * b6 + 0x100_0000_0000_0000 * b7
}

/// The bit that hash round `round` derives from a digest, in a filter of
/// `size` bits.
pub fn bit_position(digest: &[u8; 32], round: u32, size: usize) -> (p: usize)
    requires
        size > 0,
    ensures
        p == position(digest@, round as nat, size as nat),
        p < size,
{
    let h1: u128 = word(digest, 0) as u128;
    let h2: u128 = word(digest, 8) as u128;
    let step: u128 = round as u128;
    assert(step * h2 <= 0xffff_ffff * 0xffff_ffff_ffff_ffff) by (nonlinear_arith)
        requires
            0 <= step <= 0xffff_ffff,
            0 <= h2 <= 0xffff_ffff_ffff_ffff,
    ;
    let sum: u128 = h1 + step * h2;
    let p: u128 = sum % (size as u128);
    p as usize
}

/// A fixed-size bit array that records set membership: an item that was
/// inserted is always found, an item that was not may be found by accident.
#[derive(Debug)]
pub struct BloomFilter {
    bytes: Vec<u8>,
    size_in_bits: usize,
    hash_rounds: u32,
}

impl BloomFilter {
    /// Number of bits in the array.
    pub closed spec fn size(&self) -> nat {
        self.size_in_bits as nat
    }

    /// Number of hash rounds per item.
    pub closed spec fn rounds(&self) -> nat {
        self.hash_rounds as nat
    }

    /// The bit array.
    pub closed spec fn bits(&self) -> Seq<bool> {
        Seq::new(
            self.size_in_bits as nat,
            |i: int| bit_of(self.bytes@[i / 8], (i % 8) as u8),
        )
    }

    /// The invariant of a filter: it has bits and rounds, its bits are packed
    /// into just enough bytes, and the unused bits of the last byte are clear.
    pub closed spec fn well_formed(&self) -> bool {
        &&& self.size_in_bits > 0
        &&& self.hash_rounds > 0
        &&& self.bytes@.len() == packed_len(self.size_in_bits as nat)
        &&& forall|i: int|
            self.size_in_bits <= i < 8 * self.bytes@.len() ==> !bit_of(
                #[trigger] self.bytes@[i / 8],
                (i % 8) as u8,
            )
    }

    /// Makes an empty filter of `size_in_bits` bits that uses `hash_rounds`
    /// hash rounds per item. Both must be positive.
    pub fn new(size_in_bits: usize, hash_rounds: u32) -> (res: Result<BloomFilter, EncodeError>)
        ensures
            (size_in_bits == 0 || hash_rounds == 0) <==> res is Err,
            res is Err ==> res->Err_0 == EncodeError::InvalidParameters,
            res is Ok ==> {
                &&& res->Ok_0.well_formed()
                &&& res->Ok_0.size() == size_in_bits
                &&& res->Ok_0.rounds() == hash_rounds
                &&& res->Ok_0.bits() == no_bits(size_in_bits as nat)
            },
    {
        if size_in_bits == 0 || hash_rounds == 0 {
            return Err(EncodeError::InvalidParameters);
        }
        let len: usize = size_in_bits / 8 + if size_in_bits % 8 != 0 {
            1
        } else {
            0
        };
        let mut bytes: Vec<u8> = Vec::with_capacity(len);
        let mut n: usize = 0;
        while n < len
            invariant
                n <= len,
                bytes@.len() == n,
                forall|j: int| 0 <= j < n ==> bytes@[j] == 0u8,
            decreases len - n,
        {
            bytes.push(0u8);
            n += 1;
        }
        let filter = BloomFilter { bytes, size_in_bits, hash_rounds };
        proof {
            assert forall|i: int| 0 <= i < 8 * filter.bytes@.len() implies !bit_of(
                #[trigger] filter.bytes@[i / 8],
                (i % 8) as u8,
            ) by {
                lemma_zero_has_no_bits((i % 8) as u8);
            }
            assert(filter.bits() =~= no_bits(size_in_bits as nat));
        }
        Ok(filter)
    }

    /// Makes a filter of `size_in_bits` bits and `hash_rounds` rounds that
    /// holds the given items.
    pub fn from_items(size_in_bits: usize, hash_rounds: u32, items: &Vec<Vec<u8>>) -> (res: Result<
        BloomFilter,
        EncodeError,
    >)
        ensures
            (size_in_bits == 0 || hash_rounds == 0) <==> res is Err,
            res is Err ==> res->Err_0 == EncodeError::InvalidParameters,
            res is Ok ==> {
                &&& res->Ok_0.well_formed()
                &&& res->Ok_0.size() == size_in_bits
                &&& res->Ok_0.rounds() == hash_rounds
                &&& res->Ok_0.bits() == after_inserts(
                    size_in_bits as nat,
                    hash_rounds as nat,
                    digests_of(byte_strings(items@)),
                )
                &&& forall|i: int|
                    0 <= i < items@.len() ==> holds(
                        res->Ok_0.bits(),
                        #[trigger] digests_of(byte_strings(items@))[i],
                        hash_rounds as nat,
                    )
            },
    {
        let mut filter = match BloomFilter::new(size_in_bits, hash_rounds) {
            Ok(filter) => filter,
            Err(e) => {
                return Err(e);
            },
        };
        let ghost all = digests_of(byte_strings(items@));
        let mut n: usize = 0;
        assert(all.take(0) =~= Seq::<Seq<u8>>::empty());
        while n < items.len()
            invariant
                n <= items@.len(),
                all == digests_of(byte_strings(items@)),
                filter.well_formed(),
                filter.size() == size_in_bits,
                filter.rounds() == hash_rounds,
                size_in_bits > 0,
                filter.bits() == after_inserts(
                    size_in_bits as nat,
                    hash_rounds as nat,
                    all.take(n as int),
                ),
            decreases items@.len() - n,
        {
            filter.insert(items[n].as_slice());
            proof {
                let next = all.take(n + 1);
                assert(next.drop_last() =~= all.take(n as int));
                assert(next.last() == blake2b_256_digest(items@[n as int]@));
            }
            n += 1;
        }
        proof {
            assert(all.take(items@.len() as int) =~= all);
            assert forall|i: int| 0 <= i < items@.len() implies holds(
                filter.bits(),
                #[trigger] all[i],
                hash_rounds as nat,
            ) by {
                lemma_no_false_negatives(size_in_bits as nat, hash_rounds as nat, all, i);
            }
        }
        Ok(filter)
    }

    /// The record of the filter for `category`: its packed bits, unless they
    /// are too long for `limit`.
    pub fn record(&self, category: u32, limit: usize) -> (res: Result<Record, EncodeError>)
        requires
            self.well_formed(),
        ensures
            fits(packed(self.bits()).len(), limit) <==> res is Ok,
            res is Ok ==> res->Ok_0.category == category && res->Ok_0.payload@ == packed(
                self.bits(),
            ),
            res is Err ==> res->Err_0 == oversize(packed(self.bits()).len(), limit),
    {
        Record::new(category, self.export_bytes(), limit)
    }

    /// Number of bits in the array.
    pub fn size_in_bits(&self) -> (n: usize)
        ensures
            n == self.size(),
    {
        self.size_in_bits
    }

    /// Number of hash rounds per item.
    pub fn hash_rounds(&self) -> (k: u32)
        ensures
            k == self.rounds(),
    {
        self.hash_rounds
    }

    /// Inserts the item that has this digest: sets the bit of every hash round.
    pub fn insert_digest(&mut self, digest: &[u8; 32])
        requires
            old(self).well_formed(),
        ensures
            final(self).well_formed(),
            final(self).size() == old(self).size(),
            final(self).rounds() == old(self).rounds(),
            final(self).bits() == with_item(old(self).bits(), digest@, old(self).rounds()),
            holds(final(self).bits(), digest@, final(self).rounds()),
    {
        let ghost start = self.bits();
        let ghost size = self.size_in_bits as nat;
        let rounds: u32 = self.hash_rounds;
        let mut r: u32 = 0;
        assert(self.bits() =~= with_item(start, digest@, 0));
        while r < rounds
            invariant
                r <= rounds,
                rounds == self.hash_rounds,
                self.well_formed(),
                self.size_in_bits == size,
                self.size_in_bits == old(self).size_in_bits,
                self.hash_rounds == old(self).hash_rounds,
                start.len() == size,
                self.bits() == with_item(start, digest@, r as nat),
            decreases rounds - r,
        {
            let p: usize = bit_position(digest, r, self.size_in_bits);
            let index: usize = p / 8;
            let offset: u8 = (p % 8) as u8;
            let byte: u8 = self.bytes[index];
            let ghost before = self.bytes@;
            self.bytes.set(index, byte | (1u8 << offset));
            proof {
                let after = self.bytes@;
                assert forall|i: int| 0 <= i < 8 * after.len() implies bit_of(
                    #[trigger] after[i / 8],
                    (i % 8) as u8,
                ) == (i == p || bit_of(before[i / 8], (i % 8) as u8)) by {
                    if i / 8 == index {
                        lemma_set_bit(byte, offset, (i % 8) as u8);
                    }
                }
                assert forall|i: int| 0 <= i < size implies self.bits()[i] == with_item(
                    start,
                    digest@,
                    (r + 1) as nat,
                )[i] by {
                    assert(self.bits()[i] == bit_of(after[i / 8], (i % 8) as u8));
                    let was = with_item(start, digest@, r as nat)[i];
                    assert(was == bit_of(before[i / 8], (i % 8) as u8));
                    if hits(digest@, (r + 1) as nat, size, i) {
                        let w = choose|w: nat|
                            w < (r + 1) as nat && #[trigger] position(digest@, w, size) == i;
                        if w < r {
                            assert(hits(digest@, r as nat, size, i));
                        }
                    }
                    if i == p {
                        assert(position(digest@, r as nat, size) == i);
                    }
                    if hits(digest@, r as nat, size, i) {
                        let w = choose|w: nat|
                            w < r as nat && #[trigger] position(digest@, w, size) == i;
                        assert(w < (r + 1) as nat);
                    }
                }
                assert(self.bits() =~= with_item(start, digest@, (r + 1) as nat));
            }
            r += 1;
        }
        proof {
            lemma_inserted_is_held(start, digest@, rounds as nat);
        }
    }

    /// Inserts an item.
    pub fn insert(&mut self, item: &[u8])
        requires
            old(self).well_formed(),
        ensures
            final(self).well_formed(),
            final(self).size() == old(self).size(),
            final(self).rounds() == old(self).rounds(),
            final(self).bits() == with_item(
                old(self).bits(),
                blake2b_256_digest(item@),
                old(self).rounds(),
            ),
            holds(final(self).bits(), blake2b_256_digest(item@), final(self).rounds()),
    {
        let digest = hash256(item);
        self.insert_digest(&digest);
    }

    /// Whether the item that has this digest may have been inserted: true
    /// exactly when the bit of every hash round is set.
    pub fn might_contain_digest(&self, digest: &[u8; 32]) -> (found: bool)
        requires
            self.well_formed(),
        ensures
            found == holds(self.bits(), digest@, self.rounds()),
    {
        let mut r: u32 = 0;
        while r < self.hash_rounds
            invariant
                r <= self.hash_rounds,
                self.well_formed(),
                forall|w: nat|
                    w < r ==> self.bits()[#[trigger] position(digest@, w, self.size_in_bits as nat)],
            decreases self.hash_rounds - r,
        {
            let p: usize = bit_position(digest, r, self.size_in_bits);
            let byte: u8 = self.bytes[p / 8];
            let offset: u8 = (p % 8) as u8;
            if byte & (1u8 << offset) == 0 {
                assert(!self.bits()[position(digest@, r as nat, self.bits().len())]);
                return false;
            }
            r += 1;
        }
        true
    }

    /// Whether an item may have been inserted. False means it never was; true
    /// means it was, or that other items set all of its bits.
    pub fn might_contain(&self, item: &[u8]) -> (found: bool)
        requires
            self.well_formed(),
        ensures
            found == holds(self.bits(), blake2b_256_digest(item@), self.rounds()),
    {
        let digest = hash256(item);
        self.might_contain_digest(&digest)
    }

    /// The bit array packed into bytes: bit `i` of the array is bit `i mod 8`
    /// of byte `i div 8`.
    pub fn export_bytes(&self) -> (out: Vec<u8>)
        requires
            self.well_formed(),
        ensures
            out@ == packed(self.bits()),
    {
        let mut out: Vec<u8> = Vec::with_capacity(self.bytes.len());
        let mut j: usize = 0;
        while j < self.bytes.len()
            invariant
                j <= self.bytes@.len(),
                self.well_formed(),
                out@.len() == j,
                forall|m: int| 0 <= m < j ==> out@[m] == packed_byte(self.bits(), m),
            decreases self.bytes@.len() - j,
        {
            let byte: u8 = self.bytes[j];
            proof {
                lemma_byte_is_its_bits(byte);
                assert(self.bytes@[(8 * j) / 8] == byte);
                assert(self.bytes@[(8 * j + 1) / 8] == byte);
                assert(self.bytes@[(8 * j + 2) / 8] == byte);
                assert(self.bytes@[(8 * j + 3) / 8] == byte);
                assert(self.bytes@[(8 * j + 4) / 8] == byte);
                assert(self.bytes@[(8 * j + 5) / 8] == byte);
                assert(self.bytes@[(8 * j + 6) / 8] == byte);
                assert(self.bytes@[(8 * j + 7) / 8] == byte);
                assert(byte == packed_byte(self.bits(), j as int));
            }
            out.push(byte);
            j += 1;
        }
        assert(out@ =~= packed(self.bits()));
        out
    }
}

} // verus!
