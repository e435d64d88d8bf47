//! The coarse indexing: a configuration by its shape alone, and by the parity
//! of its pieces where the shape keeps the parity apart.
use vstd::prelude::*;
use crate::counting::count;
use crate::square1::{
    divide, lemma_mirror_well_formed, lemma_reverse_well_formed, lemma_turn_well_formed,
    mirrored_at, unique_turns, well_formed, Square1,
};
use crate::state::rank::above;
use crate::state::shape::{
    get_shape, get_shape_turn, ints, layer_has_run, lemma_run_flipped, lemma_shape_of,
};
use crate::state::stateall::{
    classified, classify_eight_zero, classify_six_two, classify_squares, corrected, ShapeClass,
};
use crate::state::{indices_view, packed_all, turn_and_slice, turned_and_sliced, State};

verus! {

/// The number of pieces greater than the piece at position `i` that lie
/// before it and behind the first piece.
pub open spec fn earlier_higher(s: Seq<u8>, i: int) -> int {
    count(
        s.subrange(
            1,
            if i > 1 {
                i
            } else {
                1
            },
        ),
        above(s[i]),
    )
}

/// The number of pairs of pieces among the first `n`, the first piece left
/// out, that stand in the wrong order.
pub open spec fn inversion_sum(s: Seq<u8>, n: int) -> int
    decreases n,
{
    if n <= 0 {
        0
    } else {
        inversion_sum(s, n - 1) + earlier_higher(s, n - 1)
    }
}

/// Whether the shape keeps configurations of different parity apart.
pub open spec fn parity_counts(s: Seq<u8>) -> bool {
    let c = classified(s);
    c.1.len() == 4 || (c.1.len() == 3 && c.4 <= 2)
}

/// The configuration in the position in which it is indexed.
pub open spec fn canonical_cs(s: Seq<u8>) -> Seq<u8> {
    let c = classified(s);
    if c.1.len() == 2 {
        c.0
    } else {
        corrected(c.0, c.1, c.2)
    }
}

/// The parity that the index holds.
pub open spec fn parity_cs(s: Seq<u8>) -> int {
    if parity_counts(s) {
        inversion_sum(canonical_cs(s), 16) % 2
    } else {
        0
    }
}

/// The coarse index of a configuration.
pub open spec fn index_cs(s: Seq<u8>) -> int {
    parity_cs(s) * 65 + classified(s).3
}

/// The number of pairs of pieces, the first piece left out, that stand in
/// the wrong order.
fn inversions(sq1: &Square1) -> (sum: usize)
    ensures
        sum == inversion_sum(sq1@, 16),
        sum <= 256,
{
    let ghost s = sq1@;
    let mut sum: usize = 0;
    let mut i: usize = 0;
    while i < 16
        invariant
            i <= 16,
            s == sq1@,
            sum == inversion_sum(s, i as int),
            sum <= 16 * i,
        decreases 16 - i,
    {
        let mut found: usize = 0;
        let mut j: usize = 1;
        assert(s.subrange(1, 1).len() == 0);
        while j < i
            invariant
                1 <= j,
                j <= i || (i <= 1 && j == 1),
                i < 16,
                s == sq1@,
                found == count(s.subrange(1, j as int), above(s[i as int])),
                found <= j,
            decreases 16 - j,
        {
            proof {
                assert(s.subrange(1, j + 1).drop_last() =~= s.subrange(1, j as int));
                assert(s.subrange(1, j + 1).last() == s[j as int]);
            }
            if sq1.pieces[j] > sq1.pieces[i] {
                found += 1;
            }
            j += 1;
        }
        sum += found;
        i += 1;
    }
    sum
}

/// The coarse indexing of a configuration.
pub struct StateCS {
    pub sq1: Square1,
    pub cubeshape: usize,
    pub parity: usize,
    pub index: usize,
}

impl StateCS {
    /// Turns the layers into the position in which their shapes are indexed.
    fn correct_layers(&mut self, up_shape: &Vec<usize>, down_shape: &Vec<usize>)
        requires
            well_formed(old(self).sq1@),
            up_shape@.len() == 12 - divide(old(self).sq1@),
            down_shape@.len() == divide(old(self).sq1@) - 4,
            2 <= up_shape@.len() <= 6,
            2 <= down_shape@.len() <= 6,
            forall|i: int| 0 <= i < up_shape@.len() ==> #[trigger] up_shape@[i] <= 8,
            forall|i: int| 0 <= i < down_shape@.len() ==> #[trigger] down_shape@[i] <= 8,
            layer_has_run(old(self).sq1@, true, ints(up_shape@)),
            layer_has_run(old(self).sq1@, false, ints(down_shape@)),
        ensures
            final(self).sq1@ == corrected(old(self).sq1@, ints(up_shape@), ints(down_shape@)),
            well_formed(final(self).sq1@),
            *final(self) == (StateCS { sq1: final(self).sq1, ..*old(self) }),
    {
        let up: usize = get_shape_turn(&self.sq1, true, up_shape);
        let down: usize = get_shape_turn(&self.sq1, false, down_shape);
        proof {
            lemma_turn_well_formed(self.sq1@, up as int, down as int);
        }
        self.sq1.turn_layers(&(up, down));
    }

    /// Computes the index of the configuration.
    pub fn calc_index(&mut self)
        requires
            well_formed(old(self).sq1@),
            old(self).parity == 0,
        ensures
            final(self).sq1@ == canonical_cs(old(self).sq1@),
            final(self).cubeshape == classified(old(self).sq1@).3,
            final(self).parity == parity_cs(old(self).sq1@),
            final(self).index == index_cs(old(self).sq1@),
            final(self).index < 113,
            final(self).cubeshape < 65,
            final(self).parity <= 1,
            well_formed(final(self).sq1@),
    {
        let ghost s0 = self.sq1@;
        let mut up_shape: Vec<usize> = get_shape(&self.sq1, true);
        let mut down_shape: Vec<usize> = get_shape(&self.sq1, false);
        proof {
            lemma_shape_of(s0, true);
            lemma_shape_of(s0, false);
            lemma_reverse_well_formed(s0);
            lemma_run_flipped(s0, true, ints(down_shape@));
            lemma_run_flipped(s0, false, ints(up_shape@));
        }
        if up_shape.len() > 4 {
            self.sq1.flip_layers();
            let swapped: Vec<usize> = up_shape;
            up_shape = down_shape;
            down_shape = swapped;
        }
        assert(well_formed(self.sq1@));
        assert(up_shape@.len() == 12 - divide(self.sq1@));
        assert(down_shape@.len() == divide(self.sq1@) - 4);
        let with_parity: bool = if up_shape.len() == 4 {
            let class: ShapeClass = classify_squares(
                &mut self.sq1,
                &mut up_shape,
                &mut down_shape,
            );
            self.cubeshape = class.cubeshape;
            self.correct_layers(&up_shape, &down_shape);
            true
        } else if up_shape.len() == 3 {
            let class: ShapeClass = classify_six_two(&mut self.sq1, &up_shape, &down_shape);
            self.cubeshape = class.cubeshape;
            self.correct_layers(&up_shape, &down_shape);
            !(class.up_case > 2)
        } else {
            let class: ShapeClass = classify_eight_zero(&up_shape);
            self.cubeshape = class.cubeshape;
            false
        };
        if with_parity {
            self.parity += inversions(&self.sq1);
            self.parity = self.parity % 2;
        }
        self.index = self.parity * 65 + self.cubeshape;
    }
}

impl State for StateCS {
    const NAME: &'static str = "cs";

    const SIZE: usize = 113;

    const MAX_SLICES: u8 = 7;

    open spec fn indexable(s: Seq<u8>) -> bool {
        well_formed(s)
    }

    open spec fn canonical_of(s: Seq<u8>) -> Seq<u8> {
        canonical_cs(s)
    }

    open spec fn index_of(s: Seq<u8>) -> nat {
        index_cs(s) as nat
    }

    open spec fn symmetric_of(s: Seq<u8>) -> Seq<nat> {
        Seq::empty()
    }

    open spec fn successors_of(s: Seq<u8>) -> Seq<u64> {
        let m = mirrored_at(s, divide(s));
        packed_all(turned_and_sliced(s, unique_turns(s), unique_turns(s).len() as int))
            + packed_all(turned_and_sliced(m, unique_turns(m), unique_turns(m).len() as int))
    }

    open spec fn wf(&self) -> bool {
        well_formed(self.sq1@) && self.index < 113
    }

    open spec fn spec_pieces(&self) -> Seq<u8> {
        self.sq1@
    }

    open spec fn spec_index(&self) -> nat {
        self.index as nat
    }

    open spec fn spec_symmetric(&self) -> Seq<nat> {
        Seq::empty()
    }

    fn new(sq1: Square1) -> (state: Self) {
        let mut state: Self = Self { sq1, cubeshape: 0, parity: 0, index: 0 };
        state.calc_index();
        state
    }

    fn get_index(&self) -> (index: usize) {
        self.index
    }

    fn get_symmetric_indecies(&mut self) -> (indices: Vec<usize>) {
        let indices: Vec<usize> = Vec::new();
        assert(indices_view(indices@) =~= Seq::<nat>::empty());
        indices
    }

    fn get_square1_num(&self) -> (num: u64) {
        self.sq1.get_num()
    }

    fn gen_next_positions(sq1num: u64) -> (next: Vec<u64>) {
        let base: Square1 = Square1::from_num(sq1num);
        let turns: Vec<(usize, usize)> = base.get_unique_turns();
        let mut opened: Vec<u64> = turn_and_slice(&base, &turns);
        let mut mirrored: Square1 = base;
        proof {
            lemma_mirror_well_formed(base@);
        }
        mirrored.mirror_layers();
        let mirrored_turns: Vec<(usize, usize)> = mirrored.get_unique_turns();
        let mut more: Vec<u64> = turn_and_slice(&mirrored, &mirrored_turns);
        let ghost first = opened@;
        let ghost second = more@;
        opened.append(&mut more);
        opened
    }

    fn accepts(sq1: &Square1) -> (r: bool) {
        sq1.is_well_formed()
    }

    proof fn lemma_scheme() {
        crate::square1::lemma_solved();
    }
}

/// The number of indices of the coarse indexing, and its greatest depth.
pub proof fn lemma_size_cs()
    ensures
        StateCS::SIZE == 113,
        StateCS::MAX_SLICES == 7,
{
}

} // verus!
