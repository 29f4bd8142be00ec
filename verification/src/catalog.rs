//! The shipped schemes: three group sizes for each of two word widths.
//!
//! Each table lists its groups as `(source bits, destination bit)`. The
//! comment above a table draws the word with one letter per group: the
//! letter marks the group's data bits on the left and its parity bit on the
//! right.

use crate::scheme::{has_role, is_disjoint, is_partition, is_slot, slot_index, ParityGroup, Scheme};
use vstd::prelude::*;

verus! {

/// Identifies a scheme by the number of data bits that share one parity bit,
/// whatever the width of the word.
#[derive(Debug, Clone, Copy, PartialEq, Eq, Structural)]
pub enum EpScheme {
    /// 3 data bits, 1 parity bit.
    D3P1,
    /// 7 data bits, 1 parity bit.
    D7P1,
    /// 15 data bits, 1 parity bit.
    D15P1,
}

/// 3 data bits, 1 parity bit, for 32-bit words.
///
/// `0bHHHG_GGFF_FEEE_DDDC_CCBB_BAAA_HGFE_DCBA`
pub const B32D3P1: [([usize; 3], usize); 8] = [
    ([31, 30, 29], 7),
    ([28, 27, 26], 6),
    ([25, 24, 23], 5),
    ([22, 21, 20], 4),
    ([19, 18, 17], 3),
    ([16, 15, 14], 2),
    ([13, 12, 11], 1),
    ([10, 9, 8], 0),
];

/// 7 data bits, 1 parity bit, for 32-bit words.
///
/// `0bDDDD_DDDC_CCCC_CCBB_BBBB_BAAA_AAAA_DCBA`
pub const B32D7P1: [([usize; 7], usize); 4] = [
    ([31, 30, 29, 28, 27, 26, 25], 3),
    ([24, 23, 22, 21, 20, 19, 18], 2),
    ([17, 16, 15, 14, 13, 12, 11], 1),
    ([10, 9, 8, 7, 6, 5, 4], 0),
];

/// 15 data bits, 1 parity bit, for 32-bit words.
///
/// `0bBBBB_BBBB_BBBB_BBBA_AAAA_AAAA_AAAA_AABA`
pub const B32D15P1: [([usize; 15], usize); 2] = [
    ([31, 30, 29, 28, 27, 26, 25, 24, 23, 22, 21, 20, 19, 18, 17], 1),
    ([16, 15, 14, 13, 12, 11, 10, 9, 8, 7, 6, 5, 4, 3, 2], 0),
];

/// 3 data bits, 1 parity bit, for 16-bit words.
///
/// `0bDDDC_CCBB_BAAA_DCBA`
pub const B16D3P1: [([usize; 3], usize); 4] = [
    ([15, 14, 13], 3),
    ([12, 11, 10], 2),
    ([9, 8, 7], 1),
    ([6, 5, 4], 0),
];

/// 7 data bits, 1 parity bit, for 16-bit words.
///
/// `0bBBBB_BBBA_AAAA_AABA`
pub const B16D7P1: [([usize; 7], usize); 2] = [
    ([15, 14, 13, 12, 11, 10, 9], 1),
    ([8, 7, 6, 5, 4, 3, 2], 0),
];

/// 15 data bits, 1 parity bit, for 16-bit words.
///
/// `0bAAAA_AAAA_AAAA_AAAA`, with bit 0 as the parity bit.
pub const B16D15P1: [([usize; 15], usize); 1] = [
    ([15, 14, 13, 12, 11, 10, 9, 8, 7, 6, 5, 4, 3, 2, 1], 0),
];

/// The groups of the scheme that `scheme` names for 16-bit words.
pub open spec fn groups16(scheme: EpScheme) -> Seq<ParityGroup> {
    match scheme {
        EpScheme::D3P1 => Scheme(B16D3P1)@,
        EpScheme::D7P1 => Scheme(B16D7P1)@,
        EpScheme::D15P1 => Scheme(B16D15P1)@,
    }
}

/// The groups of the scheme that `scheme` names for 32-bit words.
pub open spec fn groups32(scheme: EpScheme) -> Seq<ParityGroup> {
    match scheme {
        EpScheme::D3P1 => Scheme(B32D3P1)@,
        EpScheme::D7P1 => Scheme(B32D7P1)@,
        EpScheme::D15P1 => Scheme(B32D15P1)@,
    }
}

proof fn lemma_b32d3p1_partition()
    ensures
        is_partition(Scheme(B32D3P1)@, 32),
{
    let groups = Scheme(B32D3P1)@;
    assert(is_disjoint(groups, 32));
    assert forall|b: int| 0 <= b < 32 implies #[trigger] has_role(groups, b) by {
        let g = if b >= 8 { (31 - b) / 3 } else { 7 - b };
        let k = if b >= 8 { (31 - b) % 3 } else { 3 };
        assert(is_slot(groups, g, k));
        assert(slot_index(groups, g, k) == b);
    }
}

proof fn lemma_b32d7p1_partition()
    ensures
        is_partition(Scheme(B32D7P1)@, 32),
{
    let groups = Scheme(B32D7P1)@;
    assert(is_disjoint(groups, 32));
    assert forall|b: int| 0 <= b < 32 implies #[trigger] has_role(groups, b) by {
        let g = if b >= 4 { (31 - b) / 7 } else { 3 - b };
        let k = if b >= 4 { (31 - b) % 7 } else { 7 };
        assert(is_slot(groups, g, k));
        assert(slot_index(groups, g, k) == b);
    }
}

proof fn lemma_b32d15p1_partition()
    ensures
        is_partition(Scheme(B32D15P1)@, 32),
{
    let groups = Scheme(B32D15P1)@;
    assert(is_disjoint(groups, 32));
    assert forall|b: int| 0 <= b < 32 implies #[trigger] has_role(groups, b) by {
        let g = if b >= 2 { (31 - b) / 15 } else { 1 - b };
        let k = if b >= 2 { (31 - b) % 15 } else { 15 };
        assert(is_slot(groups, g, k));
        assert(slot_index(groups, g, k) == b);
    }
}

proof fn lemma_b16d3p1_partition()
    ensures
        is_partition(Scheme(B16D3P1)@, 16),
{
    let groups = Scheme(B16D3P1)@;
    assert(is_disjoint(groups, 16));
    assert forall|b: int| 0 <= b < 16 implies #[trigger] has_role(groups, b) by {
        let g = if b >= 4 { (15 - b) / 3 } else { 3 - b };
        let k = if b >= 4 { (15 - b) % 3 } else { 3 };
        assert(is_slot(groups, g, k));
        assert(slot_index(groups, g, k) == b);
    }
}

proof fn lemma_b16d7p1_partition()
    ensures
        is_partition(Scheme(B16D7P1)@, 16),
{
    let groups = Scheme(B16D7P1)@;
    assert(is_disjoint(groups, 16));
    assert forall|b: int| 0 <= b < 16 implies #[trigger] has_role(groups, b) by {
        let g = if b >= 2 { (15 - b) / 7 } else { 1 - b };
        let k = if b >= 2 { (15 - b) % 7 } else { 7 };
        assert(is_slot(groups, g, k));
        assert(slot_index(groups, g, k) == b);
    }
}

proof fn lemma_b16d15p1_partition()
    ensures
        is_partition(Scheme(B16D15P1)@, 16),
{
    let groups = Scheme(B16D15P1)@;
    assert(is_disjoint(groups, 16));
    assert forall|b: int| 0 <= b < 16 implies #[trigger] has_role(groups, b) by {
        let g = 0int;
        let k = if b >= 1 { 15 - b } else { 15 };
        assert(is_slot(groups, g, k));
        assert(slot_index(groups, g, k) == b);
    }
}

/// Every shipped scheme partitions the bits of the words it is made for:
/// each bit of the word is a source or the destination of exactly one group.
pub proof fn lemma_shipped_schemes_partition(scheme: EpScheme)
    ensures
        is_partition(groups16(scheme), 16),
        is_partition(groups32(scheme), 32),
{
    lemma_b16d3p1_partition();
    lemma_b16d7p1_partition();
    lemma_b16d15p1_partition();
    lemma_b32d3p1_partition();
    lemma_b32d7p1_partition();
    lemma_b32d15p1_partition();
}

} // verus!
