//! The group parity primitive: the parity of a set of source bits, stored in
//! one destination bit of the same word.
//!
//! `encode` and `decode` share one formula. `decode` refreshes the stored
//! parity bit from the data bits that currently sit in the word and silently
//! overwrites whatever was stored; it never reports a mismatch.

use crate::bits::BitBuffer;
use vstd::prelude::*;

verus! {

/// Why a group cannot be applied to a word.
#[derive(Debug, Clone, Copy, PartialEq, Eq, Structural)]
pub enum GroupError {
    /// A source index or the destination index is not a bit of the word.
    IndexOutOfRange,
    /// The destination index is also one of the source indices.
    DestinationIsSource,
}

/// XOR of the bits of `bits` at the positions `sources`.
pub open spec fn parity(bits: Seq<bool>, sources: Seq<usize>) -> bool
    decreases sources.len(),
{
    if sources.len() == 0 {
        false
    } else {
        parity(bits, sources.drop_last()) != bits[sources.last() as int]
    }
}

/// Every index of the group is a bit of a word of `width` bits.
pub open spec fn group_in_range(sources: Seq<usize>, dest: usize, width: nat) -> bool {
    &&& dest < width
    &&& forall|k: int| 0 <= k < sources.len() ==> sources[k] < width
}

/// The outcome of validating a group against a word of `width` bits. An index
/// out of range is reported before a destination that is also a source.
pub open spec fn group_check(sources: Seq<usize>, dest: usize, width: nat) -> Result<
    (),
    GroupError,
> {
    if !group_in_range(sources, dest, width) {
        Err(GroupError::IndexOutOfRange)
    } else if sources.contains(dest) {
        Err(GroupError::DestinationIsSource)
    } else {
        Ok(())
    }
}

/// The word `bits` after the parity of `sources` has been stored at `dest`.
pub open spec fn with_parity(bits: Seq<bool>, sources: Seq<usize>, dest: usize) -> Seq<bool> {
    bits.update(dest as int, parity(bits, sources))
}

/// The parity of a group does not depend on bits outside its sources.
pub proof fn lemma_parity_depends_on_sources(a: Seq<bool>, b: Seq<bool>, sources: Seq<usize>)
    requires
        forall|k: int| 0 <= k < sources.len() ==> a[sources[k] as int] == b[sources[k] as int],
    ensures
        parity(a, sources) == parity(b, sources),
    decreases sources.len(),
{
    if sources.len() > 0 {
        let rest = sources.drop_last();
        assert forall|k: int| 0 <= k < rest.len() implies a[rest[k] as int] == b[rest[k] as int] by {
            assert(rest[k] == sources[k]);
        }
        lemma_parity_depends_on_sources(a, b, rest);
        assert(sources.last() == sources[sources.len() - 1]);
    }
}

/// Validates a group against a word of `width` bits.
pub fn check_group(sources: &[usize], dest: usize, width: usize) -> (r: Result<(), GroupError>)
    ensures
        r == group_check(sources@, dest, width as nat),
{
    if dest >= width {
        return Err(GroupError::IndexOutOfRange);
    }
    let n: usize = sources.len();
    let mut found: bool = false;
    let mut k: usize = 0;
    while k < n
        invariant
            k <= n,
            n == sources@.len(),
            dest < width,
            forall|j: int| 0 <= j < k ==> sources@[j] < width,
            found == sources@.take(k as int).contains(dest),
        decreases n - k,
    {
        if sources[k] >= width {
            return Err(GroupError::IndexOutOfRange);
        }
        proof {
            let before = sources@.take(k as int);
            let after = sources@.take(k + 1);
            assert(before =~= after.drop_last());
            assert(after.last() == sources@[k as int]);
            if before.contains(dest) {
                let j = choose|j: int| 0 <= j < before.len() && before[j] == dest;
                assert(after[j] == dest);
            }
            if sources@[k as int] == dest {
                assert(after[k as int] == dest);
            }
            if after.contains(dest) {
                let j = choose|j: int| 0 <= j < after.len() && after[j] == dest;
                if j < k {
                    assert(before[j] == dest);
                }
            }
        }
        if sources[k] == dest {
            found = true;
        }
        k += 1;
    }
    proof {
        assert(sources@.take(n as int) =~= sources@);
    }
    if found {
        Err(GroupError::DestinationIsSource)
    } else {
        Ok(())
    }
}

/// Computes the parity of the bits of `buffer` at the positions `sources`.
pub fn source_parity<B: BitBuffer>(sources: &[usize], buffer: &B) -> (p: bool)
    requires
        forall|k: int| 0 <= k < sources@.len() ==> sources@[k] < B::width(),
    ensures
        p == parity(buffer.bits(), sources@),
{
    let n: usize = sources.len();
    let mut acc: bool = false;
    let mut k: usize = 0;
    while k < n
        invariant
            k <= n,
            n == sources@.len(),
            forall|j: int| 0 <= j < sources@.len() ==> sources@[j] < B::width(),
            acc == parity(buffer.bits(), sources@.take(k as int)),
        decreases n - k,
    {
        let bit = buffer.get_bit(sources[k]);
        proof {
            let after = sources@.take(k + 1);
            assert(after.drop_last() =~= sources@.take(k as int));
            assert(after.last() == sources@[k as int]);
        }
        acc = acc != bit;
        k += 1;
    }
    proof {
        assert(sources@.take(n as int) =~= sources@);
    }
    acc
}

/// Stores the parity of the source bits at the destination bit.
///
/// Fails, leaving the word untouched, when an index is out of range or the
/// destination is one of the sources.
pub fn encode<B: BitBuffer>(sources: &[usize], dest: usize, buffer: &mut B) -> (r: Result<
    (),
    GroupError,
>)
    ensures
        r == group_check(sources@, dest, B::width()),
        r is Ok ==> final(buffer).bits() == with_parity(old(buffer).bits(), sources@, dest),
        r is Err ==> *final(buffer) == *old(buffer),
{
    match check_group(sources, dest, B::bit_width()) {
        Err(e) => Err(e),
        Ok(()) => {
            let p = source_parity(sources, &*buffer);
            buffer.set_bit(dest, p);
            Ok(())
        },
    }
}

/// Recomputes the parity of the source bits and stores it at the destination
/// bit, whatever was stored there.
///
/// Fails, leaving the word untouched, when an index is out of range or the
/// destination is one of the sources.
pub fn decode<B: BitBuffer>(sources: &[usize], dest: usize, buffer: &mut B) -> (r: Result<
    (),
    GroupError,
>)
    ensures
        r == group_check(sources@, dest, B::width()),
        r is Ok ==> final(buffer).bits() == with_parity(old(buffer).bits(), sources@, dest),
        r is Err ==> *final(buffer) == *old(buffer),
{
    match check_group(sources, dest, B::bit_width()) {
        Err(e) => Err(e),
        Ok(()) => {
            let p = source_parity(sources, &*buffer);
            buffer.set_bit(dest, p);
            Ok(())
        },
    }
}

} // verus!
