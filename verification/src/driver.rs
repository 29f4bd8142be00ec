//! The parallel array driver: applies a scheme to every word of a buffer,
//! after checking that the buffer is contiguous.
//!
//! A host array is modelled by its words in logical order together with the
//! fact whether its memory is contiguous. A buffer of 32-bit floats is given
//! as the bit patterns of its elements.

use crate::bits::BitBuffer;
use crate::catalog::{
    groups16, groups32, lemma_shipped_schemes_partition, EpScheme, B16D15P1, B16D3P1, B16D7P1,
    B32D15P1, B32D3P1, B32D7P1,
};
use crate::scheme::{
    apply_groups, groups_valid, is_partition, lemma_apply_is_refresh, lemma_disjoint_groups_valid,
    refreshed, Direction, ParityGroup, Scheme,
};
use rayon::iter::{IntoParallelRefMutIterator, ParallelIterator};
use vstd::prelude::*;

verus! {

/// The one failure that a caller can run into.
#[derive(Debug, Clone, Copy, PartialEq, Eq, Structural)]
pub enum ArrayError {
    /// The memory of the buffer is not contiguous.
    NotContiguous,
}

impl ArrayError {
    /// The text that describes the error to a caller.
    pub fn message(&self) -> (text: &'static str)
        ensures
            text@ == "`arr` is not contiguous."@,
    {
        "`arr` is not contiguous."
    }
}

/// A host array of words: its elements in logical order, and whether they
/// lie next to each other in memory.
pub struct WordArray<B> {
    pub words: Vec<B>,
    pub contiguous: bool,
}

/// Every word of `after` is the word at the same place in `before` after the
/// groups have been applied to it in table order.
pub open spec fn all_applied<B: BitBuffer>(
    groups: Seq<ParityGroup>,
    before: Seq<B>,
    after: Seq<B>,
) -> bool {
    &&& after.len() == before.len()
    &&& forall|i: int|
        0 <= i < before.len() ==> (#[trigger] after[i]).bits() == apply_groups(
            groups,
            before[i].bits(),
        )
}

/// Every word of `after` is the word at the same place in `before` with the
/// parity bits of `groups` refreshed.
pub open spec fn all_refreshed<B: BitBuffer>(
    groups: Seq<ParityGroup>,
    before: Seq<B>,
    after: Seq<B>,
) -> bool {
    &&& after.len() == before.len()
    &&& forall|i: int|
        0 <= i < before.len() ==> (#[trigger] after[i]).bits() == refreshed(
            groups,
            before[i].bits(),
        )
}

/// Elements are independent: the word that a run leaves at a place depends
/// only on the word that stood there before. Two runs of the same scheme
/// that start from the same word at some place of each buffer, a whole
/// buffer and a buffer of that one element for instance, leave the same word
/// at those places, whatever the other elements are.
pub proof fn lemma_elements_independent<B: BitBuffer>(
    groups: Seq<ParityGroup>,
    before1: Seq<B>,
    after1: Seq<B>,
    i: int,
    before2: Seq<B>,
    after2: Seq<B>,
    j: int,
)
    requires
        all_refreshed(groups, before1, after1),
        all_refreshed(groups, before2, after2),
        0 <= i < before1.len(),
        0 <= j < before2.len(),
        before1[i] == before2[j],
    ensures
        after1[i] == after2[j],
{
    assert(after1[i].bits() == refreshed(groups, before1[i].bits()));
    assert(after2[j].bits() == refreshed(groups, before2[j].bits()));
    after1[i].lemma_bits_injective(&after2[j]);
}

/// Runs the engine on every word, handing the words out to rayon's worker
/// threads with `par_iter_mut` and `ParallelIterator::for_each`.
///
/// Trusted: rayon calls the closure exactly once on each element of the
/// slice, and on nothing else, so every word ends as the engine leaves it
/// when it runs on that word alone.
#[verifier::external_body]
fn par_apply<const N: usize, const M: usize, B: BitBuffer + Send>(
    scheme: &Scheme<N, M>,
    direction: Direction,
    words: &mut Vec<B>,
)
    requires
        groups_valid(scheme@, B::width()),
    ensures
        all_applied(scheme@, old(words)@, final(words)@),
{
    words.par_iter_mut().for_each(|word| scheme.apply(direction, word));
}

/// Applies `scheme` in the given direction to every word of `arr`.
///
/// Fails before any word is touched when the array is not contiguous.
/// Otherwise every word is transformed on its own: the word at a place after
/// the call depends on the word at that place before the call and on no
/// other.
pub fn par_map_array<const N: usize, const M: usize, B: BitBuffer + Send>(
    arr: &mut WordArray<B>,
    scheme: &Scheme<N, M>,
    direction: Direction,
) -> (r: Result<(), ArrayError>)
    requires
        groups_valid(scheme@, B::width()),
    ensures
        r is Ok <==> old(arr).contiguous,
        r is Err ==> r == Err::<(), ArrayError>(ArrayError::NotContiguous) && *final(arr) == *old(
            arr,
        ),
        r is Ok ==> final(arr).contiguous && all_applied(
            scheme@,
            old(arr).words@,
            final(arr).words@,
        ),
        r is Ok && is_partition(scheme@, B::width()) ==> all_refreshed(
            scheme@,
            old(arr).words@,
            final(arr).words@,
        ),
{
    if !arr.contiguous {
        return Err(ArrayError::NotContiguous);
    }
    let ghost before = arr.words@;
    par_apply(scheme, direction, &mut arr.words);
    proof {
        if is_partition(scheme@, B::width()) {
            assert forall|i: int| 0 <= i < before.len() implies (#[trigger] arr.words@[i]).bits()
                == refreshed(scheme@, before[i].bits()) by {
                before[i].lemma_bits_len();
                lemma_apply_is_refresh(scheme@, before[i].bits());
            }
        }
    }
    Ok(())
}

/// Stores the parity bits of `scheme` in every element of a buffer of 32-bit
/// floats, given as bit patterns.
pub fn embedded_parity_encode_f32(arr: &mut WordArray<u32>, scheme: &EpScheme) -> (r: Result<
    (),
    ArrayError,
>)
    ensures
        r is Ok <==> old(arr).contiguous,
        r is Err ==> r == Err::<(), ArrayError>(ArrayError::NotContiguous) && *final(arr) == *old(
            arr,
        ),
        r is Ok ==> final(arr).contiguous && all_refreshed(
            groups32(*scheme),
            old(arr).words@,
            final(arr).words@,
        ),
{
    proof {
        lemma_shipped_schemes_partition(*scheme);
        lemma_disjoint_groups_valid(groups32(*scheme), 32);
    }
    match scheme {
        EpScheme::D3P1 => par_map_array(arr, &Scheme(B32D3P1), Direction::Encode),
        EpScheme::D7P1 => par_map_array(arr, &Scheme(B32D7P1), Direction::Encode),
        EpScheme::D15P1 => par_map_array(arr, &Scheme(B32D15P1), Direction::Encode),
    }
}

/// Refreshes the parity bits of `scheme` in every element of a buffer of
/// 32-bit floats, given as bit patterns.
pub fn embedded_parity_decode_f32(arr: &mut WordArray<u32>, scheme: &EpScheme) -> (r: Result<
    (),
    ArrayError,
>)
    ensures
        r is Ok <==> old(arr).contiguous,
        r is Err ==> r == Err::<(), ArrayError>(ArrayError::NotContiguous) && *final(arr) == *old(
            arr,
        ),
        r is Ok ==> final(arr).contiguous && all_refreshed(
            groups32(*scheme),
            old(arr).words@,
            final(arr).words@,
        ),
{
    proof {
        lemma_shipped_schemes_partition(*scheme);
        lemma_disjoint_groups_valid(groups32(*scheme), 32);
    }
    match scheme {
        EpScheme::D3P1 => par_map_array(arr, &Scheme(B32D3P1), Direction::Decode),
        EpScheme::D7P1 => par_map_array(arr, &Scheme(B32D7P1), Direction::Decode),
        EpScheme::D15P1 => par_map_array(arr, &Scheme(B32D15P1), Direction::Decode),
    }
}

/// Stores the parity bits of `scheme` in every element of a buffer of 16-bit
/// unsigned integers.
pub fn embedded_parity_encode_u16(arr: &mut WordArray<u16>, scheme: &EpScheme) -> (r: Result<
    (),
    ArrayError,
>)
    ensures
        r is Ok <==> old(arr).contiguous,
        r is Err ==> r == Err::<(), ArrayError>(ArrayError::NotContiguous) && *final(arr) == *old(
            arr,
        ),
        r is Ok ==> final(arr).contiguous && all_refreshed(
            groups16(*scheme),
            old(arr).words@,
            final(arr).words@,
        ),
{
    proof {
        lemma_shipped_schemes_partition(*scheme);
        lemma_disjoint_groups_valid(groups16(*scheme), 16);
    }
    match scheme {
        EpScheme::D3P1 => par_map_array(arr, &Scheme(B16D3P1), Direction::Encode),
        EpScheme::D7P1 => par_map_array(arr, &Scheme(B16D7P1), Direction::Encode),
        EpScheme::D15P1 => par_map_array(arr, &Scheme(B16D15P1), Direction::Encode),
    }
}

/// Refreshes the parity bits of `scheme` in every element of a buffer of
/// 16-bit unsigned integers.
pub fn embedded_parity_decode_u16(arr: &mut WordArray<u16>, scheme: &EpScheme) -> (r: Result<
    (),
    ArrayError,
>)
    ensures
        r is Ok <==> old(arr).contiguous,
        r is Err ==> r == Err::<(), ArrayError>(ArrayError::NotContiguous) && *final(arr) == *old(
            arr,
        ),
        r is Ok ==> final(arr).contiguous && all_refreshed(
            groups16(*scheme),
            old(arr).words@,
            final(arr).words@,
        ),
{
    proof {
        lemma_shipped_schemes_partition(*scheme);
        lemma_disjoint_groups_valid(groups16(*scheme), 16);
    }
    match scheme {
        EpScheme::D3P1 => par_map_array(arr, &Scheme(B16D3P1), Direction::Decode),
        EpScheme::D7P1 => par_map_array(arr, &Scheme(B16D7P1), Direction::Decode),
        EpScheme::D15P1 => par_map_array(arr, &Scheme(B16D15P1), Direction::Decode),
    }
}

} // verus!
