//! Schemes: tables of parity groups, and the engine that applies one to a word.
//!
//! A scheme is modelled by the sequence of its groups in table order. A
//! well-formed scheme partitions the bits of a word: every bit is a source or
//! the destination of exactly one group.

use crate::bits::BitBuffer;
use crate::parity::{decode, encode, group_check, lemma_parity_depends_on_sources, parity, with_parity};
use vstd::prelude::*;

verus! {

/// The model of one parity group: the source bits and the bit that stores
/// their parity.
pub struct ParityGroup {
    pub sources: Seq<usize>,
    pub dest: usize,
}

/// A table of `M` groups with `N` source bits each.
pub struct Scheme<const N: usize, const M: usize>(pub [([usize; N], usize); M]);

/// Whether the engine stores parity or refreshes it.
#[derive(Debug, Clone, Copy, PartialEq, Eq, Structural)]
pub enum Direction {
    Encode,
    Decode,
}

impl<const N: usize, const M: usize> View for Scheme<N, M> {
    type V = Seq<ParityGroup>;

    open spec fn view(&self) -> Seq<ParityGroup> {
        Seq::new(
            M as nat,
            |g: int| ParityGroup { sources: self.0@[g].0@, dest: self.0@[g].1 },
        )
    }
}

/// Every group can be applied to a word of `width` bits.
pub open spec fn groups_valid(groups: Seq<ParityGroup>, width: nat) -> bool {
    forall|g: int|
        0 <= g < groups.len() ==> (#[trigger] group_check(
            groups[g].sources,
            groups[g].dest,
            width,
        )) is Ok
}

/// The word `bits` after every group has been applied in table order.
pub open spec fn apply_groups(groups: Seq<ParityGroup>, bits: Seq<bool>) -> Seq<bool>
    decreases groups.len(),
{
    if groups.len() == 0 {
        bits
    } else {
        with_parity(
            apply_groups(groups.drop_last(), bits),
            groups.last().sources,
            groups.last().dest,
        )
    }
}

/// `(g, k)` names a role in the table: source `k` of group `g`, or, with `k`
/// equal to the number of sources, the destination of group `g`.
pub open spec fn is_slot(groups: Seq<ParityGroup>, g: int, k: int) -> bool {
    0 <= g < groups.len() && 0 <= k <= groups[g].sources.len()
}

/// The bit index that plays the role `(g, k)`.
pub open spec fn slot_index(groups: Seq<ParityGroup>, g: int, k: int) -> usize {
    if k < groups[g].sources.len() {
        groups[g].sources[k]
    } else {
        groups[g].dest
    }
}

/// Every index of the table is a bit of the word, and no index plays two
/// roles.
pub open spec fn is_disjoint(groups: Seq<ParityGroup>, width: nat) -> bool {
    &&& forall|g: int, k: int| #[trigger]
        is_slot(groups, g, k) ==> slot_index(groups, g, k) < width
    &&& forall|g1: int, k1: int, g2: int, k2: int|
        #[trigger] is_slot(groups, g1, k1) && #[trigger] is_slot(groups, g2, k2) && slot_index(
            groups,
            g1,
            k1,
        ) == slot_index(groups, g2, k2) ==> g1 == g2 && k1 == k2
}

/// Bit `b` plays some role in the table.
pub open spec fn has_role(groups: Seq<ParityGroup>, b: int) -> bool {
    exists|g: int, k: int| #[trigger] is_slot(groups, g, k) && slot_index(groups, g, k) == b
}

/// Every bit of the word plays some role.
pub open spec fn covers(groups: Seq<ParityGroup>, width: nat) -> bool {
    forall|b: int| 0 <= b < width ==> #[trigger] has_role(groups, b)
}

/// The partition invariant: every bit of a word of `width` bits plays exactly
/// one role in exactly one group.
pub open spec fn is_partition(groups: Seq<ParityGroup>, width: nat) -> bool {
    is_disjoint(groups, width) && covers(groups, width)
}

/// `g` is a group whose destination is bit `b`.
pub open spec fn is_dest_of(groups: Seq<ParityGroup>, b: int, g: int) -> bool {
    0 <= g < groups.len() && groups[g].dest == b
}

/// The word in which every destination bit holds the parity of its group's
/// sources in `bits`, and every other bit is as in `bits`.
pub open spec fn refreshed(groups: Seq<ParityGroup>, bits: Seq<bool>) -> Seq<bool> {
    Seq::new(
        bits.len(),
        |b: int|
            if exists|g: int| is_dest_of(groups, b, g) {
                parity(bits, groups[choose|g: int| is_dest_of(groups, b, g)].sources)
            } else {
                bits[b]
            },
    )
}

/// Role `(g1, k1)` comes before role `(g, k)` in table order.
spec fn comes_before(g1: int, k1: int, g: int, k: int) -> bool {
    g1 < g || (g1 == g && k1 < k)
}

/// Bit `b` plays a role that comes before `(g, k)`.
spec fn used_before(groups: Seq<ParityGroup>, b: int, g: int, k: int) -> bool {
    exists|g1: int, k1: int| #[trigger]
        is_slot(groups, g1, k1) && comes_before(g1, k1, g, k) && slot_index(groups, g1, k1) == b
}

/// What a scan of the table knows when it stands before role `(g, k)`: the
/// roles behind it are bits of the word and pairwise distinct, and `seen`
/// marks exactly the bits that play them.
spec fn scanned(
    groups: Seq<ParityGroup>,
    seen: Seq<bool>,
    width: nat,
    g: int,
    k: int,
) -> bool {
    &&& seen.len() == width
    &&& forall|g1: int, k1: int| #[trigger]
        is_slot(groups, g1, k1) && comes_before(g1, k1, g, k) ==> slot_index(groups, g1, k1) < width
    &&& forall|g1: int, k1: int, g2: int, k2: int|
        #[trigger] is_slot(groups, g1, k1) && #[trigger] is_slot(groups, g2, k2) && comes_before(
            g1,
            k1,
            g,
            k,
        ) && comes_before(g2, k2, g, k) && slot_index(groups, g1, k1) == slot_index(groups, g2, k2)
            ==> g1 == g2 && k1 == k2
    &&& forall|b: int| 0 <= b < width ==> (#[trigger] seen[b] <==> used_before(groups, b, g, k))
}

/// A table without repeated indices is made of groups that can each be
/// applied.
pub proof fn lemma_disjoint_groups_valid(groups: Seq<ParityGroup>, width: nat)
    requires
        is_disjoint(groups, width),
    ensures
        groups_valid(groups, width),
{
    assert forall|g: int| 0 <= g < groups.len() implies (#[trigger] group_check(
        groups[g].sources,
        groups[g].dest,
        width,
    )) is Ok by {
        let sources = groups[g].sources;
        let dest = groups[g].dest;
        let n = sources.len() as int;
        assert(is_slot(groups, g, n));
        assert(slot_index(groups, g, n) == dest);
        assert forall|k: int| 0 <= k < sources.len() implies sources[k] < width && sources[k]
            != dest by {
            assert(is_slot(groups, g, k));
            assert(slot_index(groups, g, k) == sources[k]);
        }
    }
}

/// In a table without repeated indices, no refreshed word differs from the
/// word it was made from at a source bit.
pub proof fn lemma_refreshed_keeps_sources(
    groups: Seq<ParityGroup>,
    bits: Seq<bool>,
    g: int,
    k: int,
)
    requires
        is_disjoint(groups, bits.len()),
        0 <= g < groups.len(),
        0 <= k < groups[g].sources.len(),
    ensures
        refreshed(groups, bits)[groups[g].sources[k] as int] == bits[groups[g].sources[k] as int],
{
    let b = groups[g].sources[k] as int;
    assert(is_slot(groups, g, k));
    assert(slot_index(groups, g, k) == b);
    if exists|h: int| is_dest_of(groups, b, h) {
        let h = choose|h: int| is_dest_of(groups, b, h);
        let n = groups[h].sources.len() as int;
        assert(is_slot(groups, h, n));
        assert(slot_index(groups, h, n) == b);
    }
}

/// In a table without repeated indices, the destination bit of a group holds,
/// after a refresh, the parity of that group's sources.
pub proof fn lemma_refreshed_at_dest(groups: Seq<ParityGroup>, bits: Seq<bool>, g: int)
    requires
        is_disjoint(groups, bits.len()),
        0 <= g < groups.len(),
    ensures
        refreshed(groups, bits)[groups[g].dest as int] == parity(bits, groups[g].sources),
{
    let b = groups[g].dest as int;
    let n = groups[g].sources.len() as int;
    assert(is_slot(groups, g, n));
    assert(slot_index(groups, g, n) == b);
    assert(is_dest_of(groups, b, g));
    let h = choose|h: int| is_dest_of(groups, b, h);
    let m = groups[h].sources.len() as int;
    assert(is_slot(groups, h, m));
    assert(slot_index(groups, h, m) == b);
    assert(h == g);
}

/// The groups of a table without repeated indices are independent: applying
/// them one after the other in table order gives the refreshed word.
pub proof fn lemma_apply_is_refresh(groups: Seq<ParityGroup>, bits: Seq<bool>)
    requires
        is_disjoint(groups, bits.len()),
    ensures
        apply_groups(groups, bits) == refreshed(groups, bits),
    decreases groups.len(),
{
    if groups.len() == 0 {
        assert(apply_groups(groups, bits) =~= refreshed(groups, bits));
    } else {
        let rest = groups.drop_last();
        let last = groups.last();
        let top = groups.len() - 1;
        assert forall|g: int, k: int| #[trigger] is_slot(rest, g, k) implies is_slot(groups, g, k)
            && slot_index(rest, g, k) == slot_index(groups, g, k) by {
            assert(rest[g] == groups[g]);
        }
        assert(is_disjoint(rest, bits.len()));
        lemma_apply_is_refresh(rest, bits);
        let prev = apply_groups(rest, bits);
        assert(prev == refreshed(rest, bits));
        assert forall|k: int| 0 <= k < last.sources.len() implies prev[last.sources[k] as int]
            == bits[last.sources[k] as int] by {
            let b = last.sources[k] as int;
            assert(is_slot(groups, top, k));
            assert(slot_index(groups, top, k) == b);
            if exists|h: int| is_dest_of(rest, b, h) {
                let h = choose|h: int| is_dest_of(rest, b, h);
                let n = rest[h].sources.len() as int;
                assert(is_slot(rest, h, n));
                assert(is_slot(groups, h, n));
                assert(slot_index(groups, h, n) == b);
            }
        }
        lemma_parity_depends_on_sources(prev, bits, last.sources);
        let n_last = last.sources.len() as int;
        assert(is_slot(groups, top, n_last));
        assert(slot_index(groups, top, n_last) == last.dest);
        let result = apply_groups(groups, bits);
        assert(result == prev.update(last.dest as int, parity(bits, last.sources)));
        assert forall|b: int| 0 <= b < bits.len() implies result[b] == refreshed(groups, bits)[b] by {
            if b == last.dest {
                lemma_refreshed_at_dest(groups, bits, top);
            } else {
                if exists|h: int| is_dest_of(groups, b, h) {
                    let h = choose|h: int| is_dest_of(groups, b, h);
                    assert(h != top);
                    assert(rest[h] == groups[h]);
                    assert(is_dest_of(rest, b, h));
                    let h2 = choose|h2: int| is_dest_of(rest, b, h2);
                    assert(rest[h2] == groups[h2]);
                    let n1 = groups[h].sources.len() as int;
                    let n2 = groups[h2].sources.len() as int;
                    assert(is_slot(groups, h, n1));
                    assert(is_slot(groups, h2, n2));
                    assert(slot_index(groups, h, n1) == b);
                    assert(slot_index(groups, h2, n2) == b);
                    assert(h == h2);
                } else {
                    if exists|h2: int| is_dest_of(rest, b, h2) {
                        let h2 = choose|h2: int| is_dest_of(rest, b, h2);
                        assert(rest[h2] == groups[h2]);
                        assert(is_dest_of(groups, b, h2));
                    }
                }
            }
        }
        assert(result =~= refreshed(groups, bits));
    }
}

/// Refreshing a word twice gives the same word as refreshing it once.
pub proof fn lemma_refresh_idempotent(groups: Seq<ParityGroup>, bits: Seq<bool>)
    requires
        is_disjoint(groups, bits.len()),
    ensures
        refreshed(groups, refreshed(groups, bits)) == refreshed(groups, bits),
{
    let once = refreshed(groups, bits);
    let twice = refreshed(groups, once);
    assert forall|b: int| 0 <= b < bits.len() implies twice[b] == once[b] by {
        if exists|h: int| is_dest_of(groups, b, h) {
            let h = choose|h: int| is_dest_of(groups, b, h);
            assert forall|k: int| 0 <= k < groups[h].sources.len() implies once[groups[h].sources[k] as int]
                == bits[groups[h].sources[k] as int] by {
                lemma_refreshed_keeps_sources(groups, bits, h, k);
            }
            lemma_parity_depends_on_sources(once, bits, groups[h].sources);
        }
    }
    assert(twice =~= once);
}

/// Decoding a word twice, with nothing changed in between, gives the same
/// word as decoding it once.
pub proof fn lemma_decode_idempotent(groups: Seq<ParityGroup>, bits: Seq<bool>)
    requires
        is_partition(groups, bits.len()),
    ensures
        apply_groups(groups, apply_groups(groups, bits)) == apply_groups(groups, bits),
{
    lemma_apply_is_refresh(groups, bits);
    lemma_apply_is_refresh(groups, refreshed(groups, bits));
    lemma_refresh_idempotent(groups, bits);
}

/// Encoding a word and decoding the result, with nothing changed in between,
/// leaves the destination bit of every group as encoding wrote it: the parity
/// of the group's sources, which neither step changes.
pub proof fn lemma_encode_then_decode(groups: Seq<ParityGroup>, bits: Seq<bool>, g: int)
    requires
        is_partition(groups, bits.len()),
        0 <= g < groups.len(),
    ensures
        ({
            let encoded = apply_groups(groups, bits);
            let decoded = apply_groups(groups, encoded);
            &&& encoded[groups[g].dest as int] == parity(bits, groups[g].sources)
            &&& decoded[groups[g].dest as int] == encoded[groups[g].dest as int]
            &&& forall|k: int|
                0 <= k < groups[g].sources.len() ==> decoded[groups[g].sources[k] as int]
                    == bits[groups[g].sources[k] as int]
        }),
{
    let encoded = apply_groups(groups, bits);
    let decoded = apply_groups(groups, encoded);
    lemma_apply_is_refresh(groups, bits);
    lemma_decode_idempotent(groups, bits);
    lemma_refreshed_at_dest(groups, bits, g);
    assert forall|k: int| 0 <= k < groups[g].sources.len() implies decoded[groups[g].sources[k] as int]
        == bits[groups[g].sources[k] as int] by {
        lemma_refreshed_keeps_sources(groups, bits, g, k);
    }
}

impl<const N: usize, const M: usize> Scheme<N, M> {
    /// Stores, group by group in table order, the parity of each group's
    /// sources at its destination.
    pub fn encode<B: BitBuffer>(&self, item: &mut B)
        requires
            groups_valid(self@, B::width()),
        ensures
            final(item).bits() == apply_groups(self@, old(item).bits()),
            is_partition(self@, B::width()) ==> final(item).bits() == refreshed(
                self@,
                old(item).bits(),
            ),
    {
        let ghost start = item.bits();
        let mut g: usize = 0;
        while g < M
            invariant
                g <= M,
                groups_valid(self@, B::width()),
                item.bits() == apply_groups(self@.take(g as int), start),
            decreases M - g,
        {
            proof {
                let group = self@[g as int];
                assert(group_check(group.sources, group.dest, B::width()) is Ok);
                assert(self@.take(g + 1).drop_last() =~= self@.take(g as int));
                assert(self@.take(g + 1).last() == group);
            }
            let r = encode(self.0[g].0.as_slice(), self.0[g].1, item);
            assert(r is Ok);
            g += 1;
        }
        proof {
            assert(self@.take(M as int) =~= self@);
            old(item).lemma_bits_len();
            if is_partition(self@, B::width()) {
                lemma_apply_is_refresh(self@, start);
            }
        }
    }

    /// Recomputes, group by group in table order, the parity of each group's
    /// sources and stores it at the group's destination.
    pub fn decode<B: BitBuffer>(&self, item: &mut B)
        requires
            groups_valid(self@, B::width()),
        ensures
            final(item).bits() == apply_groups(self@, old(item).bits()),
            is_partition(self@, B::width()) ==> final(item).bits() == refreshed(
                self@,
                old(item).bits(),
            ),
    {
        let ghost start = item.bits();
        let mut g: usize = 0;
        while g < M
            invariant
                g <= M,
                groups_valid(self@, B::width()),
                item.bits() == apply_groups(self@.take(g as int), start),
            decreases M - g,
        {
            proof {
                let group = self@[g as int];
                assert(group_check(group.sources, group.dest, B::width()) is Ok);
                assert(self@.take(g + 1).drop_last() =~= self@.take(g as int));
                assert(self@.take(g + 1).last() == group);
            }
            let r = decode(self.0[g].0.as_slice(), self.0[g].1, item);
            assert(r is Ok);
            g += 1;
        }
        proof {
            assert(self@.take(M as int) =~= self@);
            old(item).lemma_bits_len();
            if is_partition(self@, B::width()) {
                lemma_apply_is_refresh(self@, start);
            }
        }
    }

    /// Decides whether the table partitions the bits of a word of `width`
    /// bits.
    pub fn is_partition_of(&self, width: usize) -> (ok: bool)
        ensures
            ok == is_partition(self@, width as nat),
    {
        let ghost groups = self@;
        let mut seen: Vec<bool> = Vec::new();
        let mut b: usize = 0;
        while b < width
            invariant
                b <= width,
                seen@.len() == b,
                forall|j: int| 0 <= j < b ==> !seen@[j],
            decreases width - b,
        {
            seen.push(false);
            b += 1;
        }
        let mut g: usize = 0;
        while g < M
            invariant
                g <= M,
                groups == self@,
                scanned(groups, seen@, width as nat, g as int, 0),
            decreases M - g,
        {
            let mut k: usize = 0;
            while k < N
                invariant
                    k <= N,
                    g < M,
                    groups == self@,
                    scanned(groups, seen@, width as nat, g as int, k as int),
                decreases N - k,
            {
                let marked = mark_role(
                    &mut seen,
                    self.0[g].0[k],
                    width,
                    Ghost(groups),
                    Ghost(g as int),
                    Ghost(k as int),
                );
                if !marked {
                    return false;
                }
                k += 1;
            }
            let marked = mark_role(
                &mut seen,
                self.0[g].1,
                width,
                Ghost(groups),
                Ghost(g as int),
                Ghost(N as int),
            );
            if !marked {
                return false;
            }
            proof {
                assert forall|g1: int, k1: int| #[trigger] is_slot(groups, g1, k1) implies (
                comes_before(g1, k1, g as int, N + 1) <==> comes_before(g1, k1, g + 1, 0)) by {}
                assert forall|c: int| 0 <= c < width implies (#[trigger] used_before(
                    groups,
                    c,
                    g as int,
                    N + 1,
                ) <==> used_before(groups, c, g + 1, 0)) by {
                    if used_before(groups, c, g as int, N + 1) {
                        let (g1, k1) = choose|g1: int, k1: int| #[trigger]
                            is_slot(groups, g1, k1) && comes_before(g1, k1, g as int, N + 1)
                                && slot_index(groups, g1, k1) == c;
                        assert(is_slot(groups, g1, k1) && comes_before(g1, k1, g + 1, 0));
                    }
                    if used_before(groups, c, g + 1, 0) {
                        let (g1, k1) = choose|g1: int, k1: int| #[trigger]
                            is_slot(groups, g1, k1) && comes_before(g1, k1, g + 1, 0)
                                && slot_index(groups, g1, k1) == c;
                        assert(is_slot(groups, g1, k1) && comes_before(g1, k1, g as int, N + 1));
                    }
                }
            }
            g += 1;
        }
        proof {
            assert forall|g1: int, k1: int| #[trigger] is_slot(groups, g1, k1) implies comes_before(
                g1,
                k1,
                M as int,
                0,
            ) by {}
            assert(is_disjoint(groups, width as nat));
        }
        let mut b: usize = 0;
        while b < width
            invariant
                b <= width,
                groups == self@,
                is_disjoint(groups, width as nat),
                scanned(groups, seen@, width as nat, M as int, 0),
                forall|j: int| 0 <= j < b ==> has_role(groups, j),
            decreases width - b,
        {
            if !seen[b] {
                proof {
                    if has_role(groups, b as int) {
                        let (g1, k1) = choose|g1: int, k1: int| #[trigger]
                            is_slot(groups, g1, k1) && slot_index(groups, g1, k1) == b;
                        assert(comes_before(g1, k1, M as int, 0));
                        assert(used_before(groups, b as int, M as int, 0));
                    }
                }
                return false;
            }
            proof {
                assert(used_before(groups, b as int, M as int, 0));
                let (g1, k1) = choose|g1: int, k1: int| #[trigger]
                    is_slot(groups, g1, k1) && comes_before(g1, k1, M as int, 0) && slot_index(
                        groups,
                        g1,
                        k1,
                    ) == b;
                assert(is_slot(groups, g1, k1) && slot_index(groups, g1, k1) == b);
            }
            b += 1;
        }
        true
    }

    /// Applies the scheme to one word in the given direction.
    pub fn apply<B: BitBuffer>(&self, direction: Direction, item: &mut B)
        requires
            groups_valid(self@, B::width()),
        ensures
            final(item).bits() == apply_groups(self@, old(item).bits()),
            is_partition(self@, B::width()) ==> final(item).bits() == refreshed(
                self@,
                old(item).bits(),
            ),
    {
        match direction {
            Direction::Encode => self.encode(item),
            Direction::Decode => self.decode(item),
        }
    }
}

/// Marks the bit that plays role `(g, k)`, unless it is no bit of the word or
/// plays an earlier role too.
fn mark_role(
    seen: &mut Vec<bool>,
    index: usize,
    width: usize,
    Ghost(groups): Ghost<Seq<ParityGroup>>,
    Ghost(g): Ghost<int>,
    Ghost(k): Ghost<int>,
) -> (ok: bool)
    requires
        scanned(groups, old(seen)@, width as nat, g, k),
        is_slot(groups, g, k),
        slot_index(groups, g, k) == index,
    ensures
        ok ==> scanned(groups, final(seen)@, width as nat, g, k + 1),
        !ok ==> !is_disjoint(groups, width as nat),
{
    if index >= width {
        return false;
    }
    if seen[index] {
        proof {
            assert(used_before(groups, index as int, g, k));
            let (g1, k1) = choose|g1: int, k1: int| #[trigger]
                is_slot(groups, g1, k1) && comes_before(g1, k1, g, k) && slot_index(groups, g1, k1)
                    == index;
            assert(is_slot(groups, g1, k1) && is_slot(groups, g, k));
            assert(!(g1 == g && k1 == k));
        }
        return false;
    }
    let ghost before = seen@;
    seen.set(index, true);
    proof {
        let after = seen@;
        assert(!used_before(groups, index as int, g, k));
        assert forall|g1: int, k1: int| #[trigger]
            is_slot(groups, g1, k1) && comes_before(g1, k1, g, k + 1) implies slot_index(
            groups,
            g1,
            k1,
        ) < width by {
            if !(g1 == g && k1 == k) {
                assert(comes_before(g1, k1, g, k));
            }
        }
        assert forall|g1: int, k1: int, g2: int, k2: int|
            #[trigger] is_slot(groups, g1, k1) && #[trigger] is_slot(groups, g2, k2)
                && comes_before(g1, k1, g, k + 1) && comes_before(g2, k2, g, k + 1) && slot_index(
                groups,
                g1,
                k1,
            ) == slot_index(groups, g2, k2) implies g1 == g2 && k1 == k2 by {
            let first_is_new = g1 == g && k1 == k;
            let second_is_new = g2 == g && k2 == k;
            if !first_is_new {
                assert(comes_before(g1, k1, g, k));
            }
            if !second_is_new {
                assert(comes_before(g2, k2, g, k));
            }
        }
        assert forall|c: int| 0 <= c < width implies (#[trigger] after[c] <==> used_before(
            groups,
            c,
            g,
            k + 1,
        )) by {
            if used_before(groups, c, g, k + 1) {
                let (g1, k1) = choose|g1: int, k1: int| #[trigger]
                    is_slot(groups, g1, k1) && comes_before(g1, k1, g, k + 1) && slot_index(
                        groups,
                        g1,
                        k1,
                    ) == c;
                if !(g1 == g && k1 == k) {
                    assert(is_slot(groups, g1, k1) && comes_before(g1, k1, g, k));
                    assert(used_before(groups, c, g, k));
                    assert(before[c]);
                }
            }
            if after[c] {
                if c == index {
                    assert(is_slot(groups, g, k) && comes_before(g, k, g, k + 1));
                } else {
                    assert(before[c]);
                    assert(used_before(groups, c, g, k));
                    let (g1, k1) = choose|g1: int, k1: int| #[trigger]
                        is_slot(groups, g1, k1) && comes_before(g1, k1, g, k) && slot_index(
                            groups,
                            g1,
                            k1,
                        ) == c;
                    assert(is_slot(groups, g1, k1) && comes_before(g1, k1, g, k + 1));
                }
            }
        }
    }
    true
}

} // verus!
