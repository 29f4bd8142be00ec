//! Fixed-width words seen as sequences of bits.
//!
//! A word is modelled by `Seq<bool>` of length `width()`, where position 0 is
//! the least significant bit. Every contract in this crate speaks about words
//! through that model.

use vstd::prelude::*;

verus! {

/// A fixed-width word whose individual bits can be read and written.
pub trait BitBuffer: Sized {
    /// Number of bits in a word of this type.
    spec fn width() -> nat;

    /// The bits of the word, least significant first.
    spec fn bits(&self) -> Seq<bool>;

    /// The model of a word has exactly `width()` bits.
    proof fn lemma_bits_len(&self)
        ensures
            self.bits().len() == Self::width(),
    ;

    /// Two words with the same bits are the same word.
    proof fn lemma_bits_injective(&self, other: &Self)
        requires
            self.bits() == other.bits(),
        ensures
            *self == *other,
    ;

    /// Returns the number of bits in a word of this type.
    fn bit_width() -> (w: usize)
        ensures
            w == Self::width(),
    ;

    /// Reads the bit at `index`.
    fn get_bit(&self, index: usize) -> (bit: bool)
        requires
            index < Self::width(),
        ensures
            bit == self.bits()[index as int],
    ;

    /// Writes `bit` at `index` and leaves every other bit as it was.
    fn set_bit(&mut self, index: usize, bit: bool)
        requires
            index < Self::width(),
        ensures
            final(self).bits() == old(self).bits().update(index as int, bit),
    ;
}

/// Bit `i` of a 16-bit word.
pub open spec fn bit16(w: u16, i: int) -> bool {
    (w >> (i as u16)) & 1u16 == 1u16
}

/// Bit `i` of a 32-bit word.
pub open spec fn bit32(w: u32, i: int) -> bool {
    (w >> (i as u32)) & 1u32 == 1u32
}

proof fn lemma_set16(w: u16, i: u16)
    by (bit_vector)
    requires
        i < 16,
    ensures
        forall|j: u16|
            j < 16 ==> (((w | (1u16 << i)) >> j) & 1u16 == 1u16) == (j == i || (w >> j) & 1u16
                == 1u16),
{
}

proof fn lemma_clear16(w: u16, i: u16)
    by (bit_vector)
    requires
        i < 16,
    ensures
        forall|j: u16|
            j < 16 ==> (((w & !(1u16 << i)) >> j) & 1u16 == 1u16) == (j != i && (w >> j) & 1u16
                == 1u16),
{
}

proof fn lemma_same16(a: u16, b: u16)
    by (bit_vector)
    requires
        ((a >> 0u16) & 1u16 == 1u16) == ((b >> 0u16) & 1u16 == 1u16),
        ((a >> 1u16) & 1u16 == 1u16) == ((b >> 1u16) & 1u16 == 1u16),
        ((a >> 2u16) & 1u16 == 1u16) == ((b >> 2u16) & 1u16 == 1u16),
        ((a >> 3u16) & 1u16 == 1u16) == ((b >> 3u16) & 1u16 == 1u16),
        ((a >> 4u16) & 1u16 == 1u16) == ((b >> 4u16) & 1u16 == 1u16),
        ((a >> 5u16) & 1u16 == 1u16) == ((b >> 5u16) & 1u16 == 1u16),
        ((a >> 6u16) & 1u16 == 1u16) == ((b >> 6u16) & 1u16 == 1u16),
        ((a >> 7u16) & 1u16 == 1u16) == ((b >> 7u16) & 1u16 == 1u16),
        ((a >> 8u16) & 1u16 == 1u16) == ((b >> 8u16) & 1u16 == 1u16),
        ((a >> 9u16) & 1u16 == 1u16) == ((b >> 9u16) & 1u16 == 1u16),
        ((a >> 10u16) & 1u16 == 1u16) == ((b >> 10u16) & 1u16 == 1u16),
        ((a >> 11u16) & 1u16 == 1u16) == ((b >> 11u16) & 1u16 == 1u16),
        ((a >> 12u16) & 1u16 == 1u16) == ((b >> 12u16) & 1u16 == 1u16),
        ((a >> 13u16) & 1u16 == 1u16) == ((b >> 13u16) & 1u16 == 1u16),
        ((a >> 14u16) & 1u16 == 1u16) == ((b >> 14u16) & 1u16 == 1u16),
        ((a >> 15u16) & 1u16 == 1u16) == ((b >> 15u16) & 1u16 == 1u16),
    ensures
        a == b,
{
}

proof fn lemma_set32(w: u32, i: u32)
    by (bit_vector)
    requires
        i < 32,
    ensures
        forall|j: u32|
            j < 32 ==> (((w | (1u32 << i)) >> j) & 1u32 == 1u32) == (j == i || (w >> j) & 1u32
                == 1u32),
{
}

proof fn lemma_clear32(w: u32, i: u32)
    by (bit_vector)
    requires
        i < 32,
    ensures
        forall|j: u32|
            j < 32 ==> (((w & !(1u32 << i)) >> j) & 1u32 == 1u32) == (j != i && (w >> j) & 1u32
                == 1u32),
{
}

proof fn lemma_same32(a: u32, b: u32)
    by (bit_vector)
    requires
        ((a >> 0u32) & 1u32 == 1u32) == ((b >> 0u32) & 1u32 == 1u32),
        ((a >> 1u32) & 1u32 == 1u32) == ((b >> 1u32) & 1u32 == 1u32),
        ((a >> 2u32) & 1u32 == 1u32) == ((b >> 2u32) & 1u32 == 1u32),
        ((a >> 3u32) & 1u32 == 1u32) == ((b >> 3u32) & 1u32 == 1u32),
        ((a >> 4u32) & 1u32 == 1u32) == ((b >> 4u32) & 1u32 == 1u32),
        ((a >> 5u32) & 1u32 == 1u32) == ((b >> 5u32) & 1u32 == 1u32),
        ((a >> 6u32) & 1u32 == 1u32) == ((b >> 6u32) & 1u32 == 1u32),
        ((a >> 7u32) & 1u32 == 1u32) == ((b >> 7u32) & 1u32 == 1u32),
        ((a >> 8u32) & 1u32 == 1u32) == ((b >> 8u32) & 1u32 == 1u32),
        ((a >> 9u32) & 1u32 == 1u32) == ((b >> 9u32) & 1u32 == 1u32),
        ((a >> 10u32) & 1u32 == 1u32) == ((b >> 10u32) & 1u32 == 1u32),
        ((a >> 11u32) & 1u32 == 1u32) == ((b >> 11u32) & 1u32 == 1u32),
        ((a >> 12u32) & 1u32 == 1u32) == ((b >> 12u32) & 1u32 == 1u32),
        ((a >> 13u32) & 1u32 == 1u32) == ((b >> 13u32) & 1u32 == 1u32),
        ((a >> 14u32) & 1u32 == 1u32) == ((b >> 14u32) & 1u32 == 1u32),
        ((a >> 15u32) & 1u32 == 1u32) == ((b >> 15u32) & 1u32 == 1u32),
        ((a >> 16u32) & 1u32 == 1u32) == ((b >> 16u32) & 1u32 == 1u32),
        ((a >> 17u32) & 1u32 == 1u32) == ((b >> 17u32) & 1u32 == 1u32),
        ((a >> 18u32) & 1u32 == 1u32) == ((b >> 18u32) & 1u32 == 1u32),
        ((a >> 19u32) & 1u32 == 1u32) == ((b >> 19u32) & 1u32 == 1u32),
        ((a >> 20u32) & 1u32 == 1u32) == ((b >> 20u32) & 1u32 == 1u32),
        ((a >> 21u32) & 1u32 == 1u32) == ((b >> 21u32) & 1u32 == 1u32),
        ((a >> 22u32) & 1u32 == 1u32) == ((b >> 22u32) & 1u32 == 1u32),
        ((a >> 23u32) & 1u32 == 1u32) == ((b >> 23u32) & 1u32 == 1u32),
        ((a >> 24u32) & 1u32 == 1u32) == ((b >> 24u32) & 1u32 == 1u32),
        ((a >> 25u32) & 1u32 == 1u32) == ((b >> 25u32) & 1u32 == 1u32),
        ((a >> 26u32) & 1u32 == 1u32) == ((b >> 26u32) & 1u32 == 1u32),
        ((a >> 27u32) & 1u32 == 1u32) == ((b >> 27u32) & 1u32 == 1u32),
        ((a >> 28u32) & 1u32 == 1u32) == ((b >> 28u32) & 1u32 == 1u32),
        ((a >> 29u32) & 1u32 == 1u32) == ((b >> 29u32) & 1u32 == 1u32),
        ((a >> 30u32) & 1u32 == 1u32) == ((b >> 30u32) & 1u32 == 1u32),
        ((a >> 31u32) & 1u32 == 1u32) == ((b >> 31u32) & 1u32 == 1u32),
    ensures
        a == b,
{
}

impl BitBuffer for u16 {
    open spec fn width() -> nat {
        16
    }

    open spec fn bits(&self) -> Seq<bool> {
        Seq::new(16, |i: int| bit16(*self, i))
    }

    proof fn lemma_bits_len(&self) {
    }

    proof fn lemma_bits_injective(&self, other: &Self) {
        let a = *self;
        let b = *other;
        assert forall|j: u16| j < 16 implies ((a >> j) & 1u16 == 1u16) == ((b >> j) & 1u16
            == 1u16) by {
            assert(self.bits()[j as int] == bit16(a, j as int));
            assert(other.bits()[j as int] == bit16(b, j as int));
        }
        lemma_same16(a, b);
    }

    fn bit_width() -> (w: usize) {
        16
    }

    fn get_bit(&self, index: usize) -> (bit: bool) {
        let shift: u16 = index as u16;
        (*self >> shift) & 1u16 == 1u16
    }

    fn set_bit(&mut self, index: usize, bit: bool) {
        let shift: u16 = index as u16;
        let before: u16 = *self;
        if bit {
            *self = before | (1u16 << shift);
        } else {
            *self = before & !(1u16 << shift);
        }
        proof {
            lemma_set16(before, shift);
            lemma_clear16(before, shift);
            let after = *self;
            assert forall|k: int| 0 <= k < 16 implies after.bits()[k] == before.bits().update(
                index as int,
                bit,
            )[k] by {
                let j = k as u16;
                assert(after.bits()[k] == bit16(after, k));
                assert(before.bits()[k] == bit16(before, k));
                assert(j < 16);
            }
            assert(after.bits() =~= before.bits().update(index as int, bit));
        }
    }
}

impl BitBuffer for u32 {
    open spec fn width() -> nat {
        32
    }

    open spec fn bits(&self) -> Seq<bool> {
        Seq::new(32, |i: int| bit32(*self, i))
    }

    proof fn lemma_bits_len(&self) {
    }

    proof fn lemma_bits_injective(&self, other: &Self) {
        let a = *self;
        let b = *other;
        assert forall|j: u32| j < 32 implies ((a >> j) & 1u32 == 1u32) == ((b >> j) & 1u32
            == 1u32) by {
            assert(self.bits()[j as int] == bit32(a, j as int));
            assert(other.bits()[j as int] == bit32(b, j as int));
        }
        lemma_same32(a, b);
    }

    fn bit_width() -> (w: usize) {
        32
    }

    fn get_bit(&self, index: usize) -> (bit: bool) {
        let shift: u32 = index as u32;
        (*self >> shift) & 1u32 == 1u32
    }

    fn set_bit(&mut self, index: usize, bit: bool) {
        let shift: u32 = index as u32;
        let before: u32 = *self;
        if bit {
            *self = before | (1u32 << shift);
        } else {
            *self = before & !(1u32 << shift);
        }
        proof {
            lemma_set32(before, shift);
            lemma_clear32(before, shift);
            let after = *self;
            assert forall|k: int| 0 <= k < 32 implies after.bits()[k] == before.bits().update(
                index as int,
                bit,
            )[k] by {
                let j = k as u32;
                assert(after.bits()[k] == bit32(after, k));
                assert(before.bits()[k] == bit32(before, k));
                assert(j < 32);
            }
            assert(after.bits() =~= before.bits().update(index as int, bit));
        }
    }
}

} // verus!
