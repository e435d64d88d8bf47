//! The three indexings of the state space, and what they have in common.
pub mod faces;
pub mod rank;
pub mod shape;
pub mod stateall;
pub mod statecs;
pub mod statesqsq;
pub mod symmetry;

use vstd::prelude::*;
use crate::square1::{
    layers_turned, lemma_packed_bound, lemma_pow16_16, lemma_slice_well_formed,
    lemma_turn_well_formed, lemma_unpack_packed, packed, slice_turned, solved_pieces,
    turn_allows_slice, turns_view, unpacked, well_formed, Square1,
};

verus! {

/// The indices of a list as natural numbers.
pub open spec fn indices_view(v: Seq<usize>) -> Seq<nat> {
    v.map_values(|x: usize| x as nat)
}

/// The configurations that a list of numbers holds.
pub open spec fn positions_view(v: Seq<u64>) -> Seq<Seq<u8>> {
    v.map_values(|n: u64| unpacked(n as nat, 16))
}

/// An indexing of the configurations: a map from each configuration that it
/// covers to a number below `SIZE`, which configurations that are symmetric
/// to each other share.
pub trait State: Sized {
    /// The name of the indexing.
    const NAME: &'static str;

    /// The number of indices.
    const SIZE: usize;

    /// The greatest number of slice moves that any configuration needs.
    const MAX_SLICES: u8;

    /// The configurations that the indexing covers.
    spec fn indexable(s: Seq<u8>) -> bool;

    /// The representative of a configuration among those symmetric to it.
    spec fn canonical_of(s: Seq<u8>) -> Seq<u8>;

    /// The index of a configuration.
    spec fn index_of(s: Seq<u8>) -> nat;

    /// The indices of the configurations that the symmetries of the shape
    /// make of a configuration.
    spec fn symmetric_of(s: Seq<u8>) -> Seq<nat>;

    /// The configurations that one layer turn and the slice move lead to,
    /// each as a number.
    spec fn successors_of(s: Seq<u8>) -> Seq<u64>;

    /// The state holds what `new` computed of some configuration.
    spec fn wf(&self) -> bool;

    /// The configuration that the state holds.
    spec fn spec_pieces(&self) -> Seq<u8>;

    /// The index that the state holds.
    spec fn spec_index(&self) -> nat;

    /// The symmetric indices that the state gives.
    spec fn spec_symmetric(&self) -> Seq<nat>;

    /// Indexes a configuration.
    fn new(sq1: Square1) -> (state: Self)
        requires
            Self::indexable(sq1@),
        ensures
            state.wf(),
            state.spec_pieces() == Self::canonical_of(sq1@),
            state.spec_index() == Self::index_of(sq1@),
            state.spec_symmetric() == Self::symmetric_of(sq1@),
            Self::index_of(sq1@) < Self::SIZE,
    ;

    /// The index of the configuration.
    fn get_index(&self) -> (index: usize)
        ensures
            index == self.spec_index(),
    ;

    /// The indices of the configurations that the symmetries of the shape
    /// make of the configuration. The state then holds the last of them as
    /// its index.
    fn get_symmetric_indecies(&mut self) -> (indices: Vec<usize>)
        requires
            old(self).wf(),
        ensures
            indices_view(indices@) == old(self).spec_symmetric(),
            forall|i: int| 0 <= i < indices@.len() ==> #[trigger] indices@[i] < Self::SIZE,
            final(self).spec_pieces() == old(self).spec_pieces(),
            final(self).wf(),
    ;

    /// The configuration that the state holds, as a number.
    fn get_square1_num(&self) -> (num: u64)
        requires
            self.wf(),
        ensures
            num == packed(self.spec_pieces()),
    ;

    /// The configurations that one layer turn and the slice move lead to
    /// from the configuration `sq1num`.
    fn gen_next_positions(sq1num: u64) -> (next: Vec<u64>)
        requires
            Self::indexable(unpacked(sq1num as nat, 16)),
        ensures
            next@ == Self::successors_of(unpacked(sq1num as nat, 16)),
            forall|i: int|
                0 <= i < next@.len() ==> Self::indexable(unpacked(#[trigger] next@[i] as nat, 16)),
    ;

    /// Whether the indexing covers a configuration.
    fn accepts(sq1: &Square1) -> (r: bool)
        ensures
            r == Self::indexable(sq1@),
    ;

    /// The indexing covers the solved configuration, and its greatest number
    /// of slice moves fits into half a byte beside the mark of an empty
    /// entry.
    proof fn lemma_scheme()
        ensures
            Self::indexable(solved_pieces()),
            2 <= Self::MAX_SLICES <= 14,
            1 <= Self::SIZE < usize::MAX,
    ;
}

/// The numbers that hold the given configurations.
pub open spec fn packed_all(v: Seq<Seq<u8>>) -> Seq<u64> {
    v.map_values(|s: Seq<u8>| packed(s) as u64)
}

/// The configurations that the first `n` of the given turns, each with the
/// slice move behind it, lead to.
pub open spec fn turned_and_sliced(s: Seq<u8>, turns: Seq<(int, int)>, n: int) -> Seq<Seq<u8>>
    decreases n,
{
    if n <= 0 {
        Seq::empty()
    } else {
        turned_and_sliced(s, turns, n - 1).push(
            slice_turned(layers_turned(s, turns[n - 1].0, turns[n - 1].1)),
        )
    }
}

/// What the configurations after a turn and the slice move are.
pub proof fn lemma_turned_and_sliced(s: Seq<u8>, turns: Seq<(int, int)>, n: int)
    requires
        0 <= n <= turns.len(),
    ensures
        turned_and_sliced(s, turns, n).len() == n,
        forall|i: int|
            0 <= i < n ==> #[trigger] turned_and_sliced(s, turns, n)[i] == slice_turned(
                layers_turned(s, turns[i].0, turns[i].1),
            ),
    decreases n,
{
    if n > 0 {
        lemma_turned_and_sliced(s, turns, n - 1);
    }
}

/// Makes each of the given turns, and the slice move after it, on a copy of
/// the configuration.
pub fn turn_and_slice(base: &Square1, turns: &Vec<(usize, usize)>) -> (next: Vec<u64>)
    requires
        well_formed(base@),
        forall|i: int|
            0 <= i < turns@.len() ==> turn_allows_slice(
                base@,
                (#[trigger] turns@[i]).0 as int,
                turns@[i].1 as int,
            ),
    ensures
        next@ == packed_all(turned_and_sliced(base@, turns_view(turns@), turns@.len() as int)),
        positions_view(next@) == turned_and_sliced(
            base@,
            turns_view(turns@),
            turns@.len() as int,
        ),
        forall|i: int| 0 <= i < next@.len() ==> well_formed(unpacked(#[trigger] next@[i] as nat, 16)),
{
    let mut next: Vec<u64> = Vec::new();
    let mut i: usize = 0;
    let ghost all = turns_view(turns@);
    assert(positions_view(next@) =~= turned_and_sliced(base@, all, 0));
    assert(next@ =~= packed_all(turned_and_sliced(base@, all, 0)));
    while i < turns.len()
        invariant
            i <= turns@.len(),
            all == turns_view(turns@),
            well_formed(base@),
            forall|i: int|
                0 <= i < turns@.len() ==> turn_allows_slice(
                    base@,
                    (#[trigger] turns@[i]).0 as int,
                    turns@[i].1 as int,
                ),
            positions_view(next@) == turned_and_sliced(base@, all, i as int),
            next@ == packed_all(turned_and_sliced(base@, all, i as int)),
            forall|j: int|
                0 <= j < next@.len() ==> well_formed(unpacked(#[trigger] next@[j] as nat, 16)),
        decreases turns@.len() - i,
    {
        let turn: (usize, usize) = turns[i];
        let mut adj: Square1 = *base;
        proof {
            assert(turn_allows_slice(base@, turns@[i as int].0 as int, turns@[i as int].1 as int));
            lemma_turn_well_formed(base@, turn.0 as int, turn.1 as int);
            lemma_slice_well_formed(layers_turned(base@, turn.0 as int, turn.1 as int));
        }
        adj.turn_layers(&turn);
        let sliced = adj.turn_slice();
        assert(sliced is Ok);
        proof {
            lemma_unpack_packed(adj@);
            lemma_packed_bound(adj@);
            lemma_pow16_16();
        }
        let ghost before = next@;
        let num: u64 = adj.get_num();
        next.push(num);
        proof {
            assert(all[i as int] == (turn.0 as int, turn.1 as int));
            assert(positions_view(next@) =~= positions_view(before).push(adj@));
            assert(next@ =~= packed_all(turned_and_sliced(base@, all, i as int)).push(num));
            assert(packed_all(turned_and_sliced(base@, all, i + 1)) =~= packed_all(
                turned_and_sliced(base@, all, i as int),
            ).push(packed(adj@) as u64));
        }
        i += 1;
    }
    next
}

} // verus!
