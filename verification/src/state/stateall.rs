//! The full indexing: every configuration of two layers, by its shape, the
//! places of the corners of each face, and the order of the corners and of
//! the edges.
use vstd::prelude::*;
use crate::counting::{count, lemma_count_take, lemma_count_take_le};
use crate::square1::{
    colours_cycled, colours_flipped, divide, is_black_corner, is_edge, is_permutation,
    is_white_corner, layers_turned, lemma_colour_flip_well_formed, lemma_cycle_well_formed,
    lemma_layers, lemma_mirror_well_formed, lemma_permutation_counts, lemma_reverse_well_formed,
    lemma_turn_well_formed, mirrored_at, unique_turns, well_formed, Square1,
};
use crate::state::rank::{lehmer, lemma_fact_values, rank_of, ranked_pieces, PieceKind};
use crate::state::shape::{
    back_dist, case_2e, case_4e, case_4e_upto, case_6e, get_case_2e, get_case_4e, get_case_6e,
    get_shape, get_shape_turn, highest, ints, layer_has_run, lemma_highest, lemma_run_flipped,
    lemma_run_mirrored, lemma_shape_of, lemma_sum_sum_to_values, lemma_total_bounds, lowest, max,
    min, mirror_case_4e, mirror_case_4e_of, shape_of, shape_turn, sum_sum_to, sum_sum_to_of, sum_to,
    sum_to_of, total,
};
use crate::state::{indices_view, packed_all, turn_and_slice, turned_and_sliced, State};

verus! {

/// A configuration with its layers turned into the position in which a shape
/// is indexed.
pub open spec fn corrected(s: Seq<u8>, up: Seq<int>, down: Seq<int>) -> Seq<u8> {
    layers_turned(s, shape_turn(s, up, true), shape_turn(s.reverse(), down, false))
}

/// A configuration with four corners in each layer, mirrored and flipped as
/// its shape asks: the configuration, the shapes of its layers and their
/// cases.
pub open spec fn squares_arranged(s: Seq<u8>, up: Seq<int>, down: Seq<int>) -> (
    Seq<u8>,
    Seq<int>,
    Seq<int>,
    int,
    int,
) {
    let uc0 = case_4e(up);
    let dc0 = case_4e(down);
    let mirror = (uc0 > 7 || dc0 > 7) && (!(uc0 == 1 || uc0 == 5 || dc0 == 1 || dc0 == 5) || (uc0
        == 9 && dc0 == 1 || uc0 == 1 && dc0 == 9));
    let s1 = if mirror {
        mirrored_at(s, 8)
    } else {
        s
    };
    let uc1 = if mirror {
        mirror_case_4e(uc0)
    } else {
        uc0
    };
    let dc1 = if mirror {
        mirror_case_4e(dc0)
    } else {
        dc0
    };
    if uc1 < dc1 {
        (s1.reverse(), down, up, dc1, uc1)
    } else {
        (s1, up, down, uc1, dc1)
    }
}

/// The number of a shape with four corners in each layer, the cases of the
/// two layers, and the turns that bring the mirror image of each layer back
/// into position.
pub open spec fn squares_class(up: Seq<int>, down: Seq<int>, uc: int, dc: int) -> (
    int,
    int,
    int,
    int,
    int,
) {
    let uc3 = if uc == 9 {
        8
    } else {
        uc
    };
    let dc3 = if uc == 8 {
        if dc == 1 {
            0
        } else {
            1
        }
    } else if uc == 9 {
        2
    } else {
        dc
    };
    let up_re = if uc3 != 4 {
        highest(up)
    } else {
        5
    };
    let down_re = if dc3 == 0 && uc3 != 8 {
        1
    } else if dc3 == 3 {
        2
    } else if dc3 != 4 {
        8 - highest(down)
    } else {
        3
    };
    (sum_to(uc3) + dc3, uc3, dc3, up_re, down_re)
}

/// What the shape of a configuration with four corners in each layer gives:
/// the configuration mirrored and flipped as the shape asks, the shapes of
/// its layers, the number of the shape, the cases of the two layers, and the
/// turns that bring the mirror image of each layer back into position.
pub open spec fn four_four(s: Seq<u8>, up: Seq<int>, down: Seq<int>) -> (
    Seq<u8>,
    Seq<int>,
    Seq<int>,
    int,
    int,
    int,
    int,
    int,
) {
    let a = squares_arranged(s, up, down);
    let c = squares_class(a.1, a.2, a.3, a.4);
    (a.0, a.1, a.2, c.0, c.1, c.2, c.3, c.4)
}

/// What the shape of a configuration with three corners in the upper layer
/// gives.
pub open spec fn six_two(s: Seq<u8>, up: Seq<int>, down: Seq<int>) -> (
    Seq<u8>,
    Seq<int>,
    Seq<int>,
    int,
    int,
    int,
    int,
    int,
) {
    let uc0 = case_6e(up);
    let dc = case_2e(down);
    let s1 = if uc0 > 6 {
        mirrored_at(s, 9)
    } else {
        s
    };
    let uc = if uc0 > 6 {
        uc0 - 7
    } else {
        uc0
    };
    let up_re = if uc != 4 {
        highest(up)
    } else {
        7
    };
    let down_re = if dc == 0 {
        5
    } else if dc == 1 {
        4
    } else {
        3
    };
    (s1, up, down, 39 + 3 * uc + dc, uc, -1, up_re, down_re)
}

/// What the shape of a configuration with two corners in the upper layer
/// gives.
pub open spec fn eight_zero(s: Seq<u8>, up: Seq<int>, down: Seq<int>) -> (
    Seq<u8>,
    Seq<int>,
    Seq<int>,
    int,
    int,
    int,
    int,
    int,
) {
    (s, up, down, 60 + lowest(up), lowest(up), -2, highest(up), 0)
}

/// What the shape of a configuration gives, the layer with fewer corners
/// taken as the upper one.
pub open spec fn classified(s: Seq<u8>) -> (Seq<u8>, Seq<int>, Seq<int>, int, int, int, int, int) {
    let up0 = shape_of(s);
    let down0 = shape_of(s.reverse());
    let flip = up0.len() > 4;
    let s1 = if flip {
        s.reverse()
    } else {
        s
    };
    let up = if flip {
        down0
    } else {
        up0
    };
    let down = if flip {
        up0
    } else {
        down0
    };
    if up.len() == 4 {
        four_four(s1, up, down)
    } else if up.len() == 3 {
        six_two(s1, up, down)
    } else {
        eight_zero(s1, up, down)
    }
}

/// The configuration in the position in which its shape is indexed.
pub open spec fn shaped(s: Seq<u8>) -> Seq<u8> {
    let c = classified(s);
    corrected(c.0, c.1, c.2)
}

/// The greatest turn that a symmetry of the shape makes of the upper layer.
pub open spec fn greatest_up_turn(up_case: int, down_case: int) -> int {
    if down_case == -2 {
        if up_case == 4 {
            5
        } else {
            0
        }
    } else if down_case == -1 {
        if up_case == 3 {
            6
        } else {
            0
        }
    } else if up_case == 0 {
        6
    } else if up_case == 3 {
        4
    } else {
        0
    }
}

/// The greatest turn that a symmetry of the shape makes of the lower layer.
pub open spec fn greatest_down_turn(up_case: int, down_case: int) -> int {
    if down_case == -2 {
        5
    } else if down_case == -1 {
        0
    } else if down_case == 0 && up_case != 8 {
        6
    } else if down_case == 3 {
        4
    } else {
        0
    }
}

/// The layers are large enough for every turn that a symmetry of the shape
/// makes.
pub open spec fn turns_fit(up_case: int, down_case: int, up_re: int, down_re: int, d: int) -> bool {
    &&& d == if down_case == -2 {
        10int
    } else if down_case == -1 {
        9int
    } else {
        8int
    }
    &&& -2 <= down_case <= 9
    &&& 0 <= up_case <= 9
    &&& 0 <= up_re
    &&& 0 <= down_re
    &&& up_re + greatest_up_turn(up_case, down_case) <= d
    &&& down_re + greatest_down_turn(up_case, down_case) <= 16 - d
}

/// The case number of a shape of four corners only grows along the shape.
pub proof fn lemma_case_4e_upto(shape: Seq<int>, n: int)
    requires
        0 <= n,
    ensures
        case_4e_upto(shape, n).0 >= case_4e_upto(shape, 0).0,
        case_4e_upto(shape, n).1 >= 0,
    decreases n,
{
    if n > 0 {
        lemma_case_4e_upto(shape, n - 1);
        lemma_back_dist(shape, n - 1, 0);
    }
}

pub proof fn lemma_back_dist(shape: Seq<int>, i: int, dist: int)
    requires
        0 <= dist,
    ensures
        back_dist(shape, i, dist) >= dist,
    decreases 3 - dist,
{
    if !(dist >= 3 || shape[(4 + i - 1 - dist) % 4] >= 2) {
        lemma_back_dist(shape, i, dist + 1);
    }
}

/// A layer of case zero has no run of more than two edges.
pub proof fn lemma_case_zero(shape: Seq<int>)
    requires
        case_4e(shape) == 0,
    ensures
        highest(shape) <= 2,
{
    lemma_case_4e_upto(shape, 4);
}

/// The full indexing of a configuration.
pub struct StateAll {
    pub sq1: Square1,
    pub cubeshape: usize,
    pub co: usize,
    pub cp_black: usize,
    pub cp_white: usize,
    pub ep: usize,
    pub index: usize,
    pub up_case: usize,
    pub down_case: i8,
    pub up_re: usize,
    pub down_re: usize,
}

/// The numbers of white corners before each black corner among the first `n`
/// pieces, and the number of white corners behind the last black one.
pub open spec fn white_gaps(s: Seq<u8>, n: int) -> (Seq<int>, int)
    decreases n,
{
    if n <= 0 {
        (Seq::empty(), 0)
    } else {
        let before = white_gaps(s, n - 1);
        let p = s[n - 1];
        if p % 2 == 0 {
            if p > 7 {
                (before.0, before.1 + 1)
            } else {
                (before.0.push(before.1), 0)
            }
        } else {
            before
        }
    }
}

/// The first piece of a kind from position `k` on, or zero if there is none.
pub open spec fn first_of(s: Seq<u8>, kind: spec_fn(u8) -> bool, k: int) -> u8
    decreases s.len() - k,
{
    if k >= s.len() {
        0
    } else if k >= 0 && kind(s[k]) {
        s[k]
    } else {
        first_of(s, kind, k + 1)
    }
}

/// The configuration with the colours exchanged if its first piece is white.
pub open spec fn face_up(s: Seq<u8>) -> Seq<u8> {
    if s[0] > 7 {
        colours_flipped(s)
    } else {
        s
    }
}

/// The number of the places that the corners of the black face take among
/// all corners.
pub open spec fn orientation_code(s: Seq<u8>) -> int {
    let g = white_gaps(face_up(s), 16).0;
    let n1 = 4 - g[1];
    let n2 = n1 - g[2];
    let n3 = n2 - g[3];
    sum_sum_to(n1) + sum_to(n2) + n3
}

/// The configuration with its colours named from the first corner of each
/// face on.
pub open spec fn recoloured(s: Seq<u8>) -> Seq<u8> {
    let t = face_up(s);
    colours_cycled(
        t,
        (first_of(t, is_black_corner(), 0) / 2) as int,
        first_of(t, is_white_corner(), 0) / 2 - 4,
    )
}

/// The index that the parts give together.
pub open spec fn combined(ep: int, cubeshape: int, co: int, cp_black: int, cp_white: int) -> int {
    (((ep * 65 + cubeshape) * 35 + co) * 6 + cp_black) * 6 + cp_white
}

/// The index of a configuration that lies in the position of its shape.
pub open spec fn ranked_index(s: Seq<u8>, cubeshape: int) -> int {
    let t = recoloured(s);
    combined(
        lehmer(ranked_pieces(t, PieceKind::Edge, false)),
        cubeshape,
        orientation_code(s),
        lehmer(ranked_pieces(t, PieceKind::BlackCorner, true)),
        lehmer(ranked_pieces(t, PieceKind::WhiteCorner, true)),
    )
}

/// The full index of a configuration.
pub open spec fn index_all(s: Seq<u8>) -> int {
    ranked_index(shaped(s), classified(s).3)
}

/// The flips and mirror images that keep a shape.
pub open spec fn flip_mirrors(up_case: int, down_case: int) -> Seq<(bool, bool)> {
    if down_case == -2 {
        seq![(false, false), (false, true)]
    } else if down_case == -1 {
        if up_case > 2 {
            seq![(false, false), (false, true)]
        } else {
            seq![(false, false)]
        }
    } else if up_case == 8 {
        if down_case == 1 {
            seq![(false, false)]
        } else {
            seq![(false, false), (true, true)]
        }
    } else if up_case == down_case {
        if up_case == 1 || up_case == 5 {
            seq![(false, false), (true, false)]
        } else {
            seq![(false, false), (false, true), (true, false), (true, true)]
        }
    } else if up_case == 1 || down_case == 1 || up_case == 5 || down_case == 5 {
        seq![(false, false)]
    } else {
        seq![(false, false), (false, true)]
    }
}

/// The turns of the upper layer that keep a shape.
pub open spec fn up_turns(up_case: int, down_case: int) -> Seq<int> {
    if down_case == -2 {
        if up_case == 4 {
            seq![0int, 5]
        } else {
            seq![0int]
        }
    } else if down_case == -1 {
        if up_case == 3 {
            seq![0int, 3, 6]
        } else {
            seq![0int]
        }
    } else if up_case == 0 {
        seq![0int, 2, 4, 6]
    } else if up_case == 3 {
        seq![0int, 4]
    } else {
        seq![0int]
    }
}

/// The turns of the lower layer that keep a shape.
pub open spec fn down_turns(up_case: int, down_case: int) -> Seq<int> {
    if down_case == -2 {
        seq![0int, 1, 2, 3, 4, 5]
    } else if down_case == -1 {
        seq![0int]
    } else if down_case == 0 && up_case != 8 {
        seq![0int, 2, 4, 6]
    } else if down_case == 3 {
        seq![0int, 4]
    } else {
        seq![0int]
    }
}

/// The configuration flipped and mirrored.
pub open spec fn sym_base(s: Seq<u8>, flip: bool, mirror: bool) -> Seq<u8> {
    let m = if mirror {
        mirrored_at(s, divide(s))
    } else {
        s
    };
    if flip {
        m.reverse()
    } else {
        m
    }
}

/// The turn that a symmetry makes: in a mirror image the turn that brings
/// each layer back into position is added.
pub open spec fn sym_turn(mirror: bool, re: (int, int), up_turn: int, down_turn: int) -> (int, int) {
    if mirror {
        (re.0 + up_turn, re.1 + down_turn)
    } else {
        (up_turn, down_turn)
    }
}

/// The indices that one turn of the upper layer gives with the first `n`
/// turns of the lower layer.
pub open spec fn sym_downs(
    base: Seq<u8>,
    cubeshape: int,
    changed: bool,
    mirror: bool,
    re: (int, int),
    up_turn: int,
    downs: Seq<int>,
    n: int,
) -> Seq<nat>
    decreases n,
{
    if n <= 0 {
        Seq::empty()
    } else {
        let rest = sym_downs(base, cubeshape, changed, mirror, re, up_turn, downs, n - 1);
        let down_turn = downs[n - 1];
        if changed || up_turn != 0 || down_turn != 0 {
            let t = sym_turn(mirror, re, up_turn, down_turn);
            rest.push(ranked_index(layers_turned(base, t.0, t.1), cubeshape) as nat)
        } else {
            rest
        }
    }
}

/// The indices that the first `m` turns of the upper layer give.
pub open spec fn sym_ups(
    base: Seq<u8>,
    cubeshape: int,
    changed: bool,
    mirror: bool,
    re: (int, int),
    ups: Seq<int>,
    downs: Seq<int>,
    m: int,
) -> Seq<nat>
    decreases m,
{
    if m <= 0 {
        Seq::empty()
    } else {
        sym_ups(base, cubeshape, changed, mirror, re, ups, downs, m - 1) + sym_downs(
            base,
            cubeshape,
            changed,
            mirror,
            re,
            ups[m - 1],
            downs,
            downs.len() as int,
        )
    }
}

/// The indices that the first `k` flips and mirror images give.
pub open spec fn sym_all(
    s: Seq<u8>,
    cubeshape: int,
    re: (int, int),
    fms: Seq<(bool, bool)>,
    ups: Seq<int>,
    downs: Seq<int>,
    k: int,
) -> Seq<nat>
    decreases k,
{
    if k <= 0 {
        Seq::empty()
    } else {
        sym_all(s, cubeshape, re, fms, ups, downs, k - 1) + sym_ups(
            sym_base(s, fms[k - 1].0, fms[k - 1].1),
            cubeshape,
            fms[k - 1].0 || fms[k - 1].1,
            fms[k - 1].1,
            re,
            ups,
            downs,
            ups.len() as int,
        )
    }
}

/// The indices of the configurations that the symmetries of its shape make
/// of a configuration.
pub open spec fn symmetric_indices(
    s: Seq<u8>,
    cubeshape: int,
    up_case: int,
    down_case: int,
    re: (int, int),
) -> Seq<nat> {
    sym_all(
        s,
        cubeshape,
        re,
        flip_mirrors(up_case, down_case),
        up_turns(up_case, down_case),
        down_turns(up_case, down_case),
        flip_mirrors(up_case, down_case).len() as int,
    )
}

/// The first piece of a kind, where none of the kind comes before position
/// `at`.
pub proof fn lemma_first_of(s: Seq<u8>, kind: spec_fn(u8) -> bool, k: int, at: int)
    requires
        0 <= k <= at < s.len(),
        kind(s[at]),
        forall|j: int| k <= j < at ==> !kind(#[trigger] s[j]),
    ensures
        first_of(s, kind, k) == s[at],
    decreases at - k,
{
    if k < at {
        assert(!kind(s[k]));
        lemma_first_of(s, kind, k + 1, at);
    }
}

/// The first values of the sums of whole numbers.
pub proof fn lemma_sum_to_values()
    ensures
        sum_to(0) == 0,
        sum_to(1) == 1,
        sum_to(2) == 3,
        sum_to(3) == 6,
        sum_to(4) == 10,
        sum_to(5) == 15,
        sum_to(6) == 21,
        sum_to(7) == 28,
        sum_to(8) == 36,
        sum_to(9) == 45,
{
}

/// What a shape is found to be: its number, the cases of the two layers, and
/// the turns that bring the mirror image of each layer back into position.
pub struct ShapeClass {
    pub cubeshape: usize,
    pub up_case: usize,
    pub down_case: i8,
    pub up_re: usize,
    pub down_re: usize,
}

impl ShapeClass {
    /// The class holds what the classification of a configuration gives.
    pub open spec fn matches(
        &self,
        c: (Seq<u8>, Seq<int>, Seq<int>, int, int, int, int, int),
    ) -> bool {
        &&& self.cubeshape == c.3
        &&& self.up_case == c.4
        &&& self.down_case == c.5
        &&& self.up_re == c.6
        &&& self.down_re == c.7
    }
}

/// Mirrors and flips a configuration with four corners in each layer as its
/// shape asks, and exchanges the shapes of the layers with them. Gives the
/// cases of the two layers.
fn arrange_squares(sq1: &mut Square1, up_shape: &mut Vec<usize>, down_shape: &mut Vec<usize>) -> (cases:
    (usize, usize))
    requires
        well_formed(old(sq1)@),
        divide(old(sq1)@) == 8,
        old(up_shape)@.len() == 4,
        old(down_shape)@.len() == 4,
        total(ints(old(up_shape)@)) == 4,
        total(ints(old(down_shape)@)) == 4,
        forall|i: int| 0 <= i < 4 ==> #[trigger] old(up_shape)@[i] <= 4,
        forall|i: int| 0 <= i < 4 ==> #[trigger] old(down_shape)@[i] <= 4,
        layer_has_run(old(sq1)@, true, ints(old(up_shape)@)),
        layer_has_run(old(sq1)@, false, ints(old(down_shape)@)),
    ensures
        layer_has_run(final(sq1)@, true, ints(final(up_shape)@)),
        layer_has_run(final(sq1)@, false, ints(final(down_shape)@)),
        final(sq1)@ == squares_arranged(old(sq1)@, ints(old(up_shape)@), ints(old(down_shape)@)).0,
        ints(final(up_shape)@) == squares_arranged(
            old(sq1)@,
            ints(old(up_shape)@),
            ints(old(down_shape)@),
        ).1,
        ints(final(down_shape)@) == squares_arranged(
            old(sq1)@,
            ints(old(up_shape)@),
            ints(old(down_shape)@),
        ).2,
        cases.0 == squares_arranged(old(sq1)@, ints(old(up_shape)@), ints(old(down_shape)@)).3,
        cases.1 == squares_arranged(old(sq1)@, ints(old(up_shape)@), ints(old(down_shape)@)).4,
        final(up_shape)@.len() == 4,
        final(down_shape)@.len() == 4,
        forall|i: int| 0 <= i < 4 ==> #[trigger] final(up_shape)@[i] <= 4,
        forall|i: int| 0 <= i < 4 ==> #[trigger] final(down_shape)@[i] <= 4,
        well_formed(final(sq1)@),
        divide(final(sq1)@) == 8,
        cases.1 <= cases.0 <= 9,
        cases.0 == 0 ==> highest(ints(final(up_shape)@)) <= 2,
{
    let mut up_case: usize = get_case_4e(up_shape);
    let mut down_case: usize = get_case_4e(down_shape);
    proof {
        if up_case == 0 {
            lemma_case_zero(ints(up_shape@));
        }
        if down_case == 0 {
            lemma_case_zero(ints(down_shape@));
        }
    }
    if (up_case > 7 || down_case > 7) && (!(up_case == 1 || up_case == 5 || down_case == 1
        || down_case == 5) || (up_case == 9 && down_case == 1 || up_case == 1 && down_case == 9)) {
        proof {
            lemma_mirror_well_formed(sq1@);
            lemma_run_mirrored(sq1@, 8, true, ints(up_shape@));
            lemma_run_mirrored(sq1@, 8, false, ints(down_shape@));
        }
        sq1.mirror_layers_atd(8);
        up_case = mirror_case_4e_of(up_case);
        down_case = mirror_case_4e_of(down_case);
    }
    if up_case < down_case {
        proof {
            lemma_reverse_well_formed(sq1@);
            lemma_run_flipped(sq1@, true, ints(down_shape@));
            lemma_run_flipped(sq1@, false, ints(up_shape@));
        }
        sq1.flip_layers();
        let swapped: Vec<usize> = up_shape.clone();
        *up_shape = down_shape.clone();
        *down_shape = swapped;
        (down_case, up_case)
    } else {
        (up_case, down_case)
    }
}

/// The class of a shape with four corners in each layer.
fn class_of_squares(up_shape: &Vec<usize>, down_shape: &Vec<usize>, cases: (usize, usize)) -> (class:
    ShapeClass)
    requires
        up_shape@.len() == 4,
        down_shape@.len() == 4,
        forall|i: int| 0 <= i < 4 ==> #[trigger] up_shape@[i] <= 4,
        forall|i: int| 0 <= i < 4 ==> #[trigger] down_shape@[i] <= 4,
        cases.1 <= cases.0 <= 9,
        cases.0 == 0 ==> highest(ints(up_shape@)) <= 2,
    ensures
        class.cubeshape == squares_class(
            ints(up_shape@),
            ints(down_shape@),
            cases.0 as int,
            cases.1 as int,
        ).0,
        class.up_case == squares_class(
            ints(up_shape@),
            ints(down_shape@),
            cases.0 as int,
            cases.1 as int,
        ).1,
        class.down_case == squares_class(
            ints(up_shape@),
            ints(down_shape@),
            cases.0 as int,
            cases.1 as int,
        ).2,
        class.up_re == squares_class(
            ints(up_shape@),
            ints(down_shape@),
            cases.0 as int,
            cases.1 as int,
        ).3,
        class.down_re == squares_class(
            ints(up_shape@),
            ints(down_shape@),
            cases.0 as int,
            cases.1 as int,
        ).4,
        class.cubeshape < 39,
        turns_fit(
            class.up_case as int,
            class.down_case as int,
            class.up_re as int,
            class.down_re as int,
            8,
        ),
{
    let mut up_case: usize = cases.0;
    let mut down_case: usize = cases.1;
    proof {
        lemma_highest(ints(up_shape@));
        lemma_highest(ints(down_shape@));
        let ku = choose|i: int| 0 <= i < 4 && ints(up_shape@)[i] == highest(ints(up_shape@));
        let kd = choose|i: int| 0 <= i < 4 && ints(down_shape@)[i] == highest(ints(down_shape@));
        assert(up_shape@[ku] <= 4);
        assert(down_shape@[kd] <= 4);
        lemma_sum_to_values();
    }
    if up_case == 8 {
        if down_case == 1 {
            down_case = 0;
        } else {
            down_case = 1;
        }
    } else if up_case == 9 {
        up_case = 8;
        down_case = 2;
    }
    let up_re: usize = if up_case != 4 {
        max(up_shape)
    } else {
        5
    };
    let down_re: usize = if down_case == 0 && up_case != 8 {
        1
    } else if down_case == 3 {
        2
    } else if down_case != 4 {
        8 - max(down_shape)
    } else {
        8 - 5
    };
    ShapeClass {
        cubeshape: sum_to_of(up_case) + down_case,
        up_case,
        down_case: down_case as i8,
        up_re,
        down_re,
    }
}

/// Classifies a configuration with four corners in each layer, mirrors and
/// flips it as its shape asks, and exchanges the shapes of the layers with
/// them.
pub fn classify_squares(sq1: &mut Square1, up_shape: &mut Vec<usize>, down_shape: &mut Vec<usize>) -> (class:
    ShapeClass)
    requires
        well_formed(old(sq1)@),
        divide(old(sq1)@) == 8,
        old(up_shape)@.len() == 4,
        old(down_shape)@.len() == 4,
        total(ints(old(up_shape)@)) == 4,
        total(ints(old(down_shape)@)) == 4,
        layer_has_run(old(sq1)@, true, ints(old(up_shape)@)),
        layer_has_run(old(sq1)@, false, ints(old(down_shape)@)),
    ensures
        layer_has_run(final(sq1)@, true, ints(final(up_shape)@)),
        layer_has_run(final(sq1)@, false, ints(final(down_shape)@)),
        class.matches(four_four(old(sq1)@, ints(old(up_shape)@), ints(old(down_shape)@))),
        final(sq1)@ == four_four(old(sq1)@, ints(old(up_shape)@), ints(old(down_shape)@)).0,
        ints(final(up_shape)@) == four_four(
            old(sq1)@,
            ints(old(up_shape)@),
            ints(old(down_shape)@),
        ).1,
        ints(final(down_shape)@) == four_four(
            old(sq1)@,
            ints(old(up_shape)@),
            ints(old(down_shape)@),
        ).2,
        final(up_shape)@.len() == 4,
        final(down_shape)@.len() == 4,
        forall|i: int| 0 <= i < 4 ==> #[trigger] final(up_shape)@[i] <= 8,
        forall|i: int| 0 <= i < 4 ==> #[trigger] final(down_shape)@[i] <= 8,
        well_formed(final(sq1)@),
        divide(final(sq1)@) == 8,
        class.cubeshape < 39,
        turns_fit(
            class.up_case as int,
            class.down_case as int,
            class.up_re as int,
            class.down_re as int,
            8,
        ),
{
    proof {
        lemma_total_bounds(ints(up_shape@));
        lemma_total_bounds(ints(down_shape@));
        assert forall|i: int| 0 <= i < 4 implies #[trigger] up_shape@[i] <= 4 by {
            assert(ints(up_shape@)[i] <= 4);
        }
        assert forall|i: int| 0 <= i < 4 implies #[trigger] down_shape@[i] <= 4 by {
            assert(ints(down_shape@)[i] <= 4);
        }
    }
    let cases = arrange_squares(sq1, up_shape, down_shape);
    class_of_squares(up_shape, down_shape, cases)
}

/// Classifies a configuration with three corners in its upper layer, and
/// mirrors it if its shape asks for that.
pub fn classify_six_two(sq1: &mut Square1, up_shape: &Vec<usize>, down_shape: &Vec<usize>) -> (class:
    ShapeClass)
    requires
        well_formed(old(sq1)@),
        divide(old(sq1)@) == 9,
        up_shape@.len() == 3,
        down_shape@.len() == 5,
        total(ints(up_shape@)) == 6,
        layer_has_run(old(sq1)@, true, ints(up_shape@)),
        layer_has_run(old(sq1)@, false, ints(down_shape@)),
    ensures
        layer_has_run(final(sq1)@, true, ints(up_shape@)),
        layer_has_run(final(sq1)@, false, ints(down_shape@)),
        class.matches(six_two(old(sq1)@, ints(up_shape@), ints(down_shape@))),
        final(sq1)@ == six_two(old(sq1)@, ints(up_shape@), ints(down_shape@)).0,
        well_formed(final(sq1)@),
        divide(final(sq1)@) == 9,
        39 <= class.cubeshape < 60,
        turns_fit(
            class.up_case as int,
            class.down_case as int,
            class.up_re as int,
            class.down_re as int,
            9,
        ),
{
    let mut up_case: usize = get_case_6e(up_shape);
    let down_case: usize = get_case_2e(down_shape);
    proof {
        lemma_total_bounds(ints(up_shape@));
        lemma_highest(ints(up_shape@));
        let ku = choose|i: int| 0 <= i < 3 && ints(up_shape@)[i] == highest(ints(up_shape@));
        assert(ints(up_shape@)[ku] <= 6);
    }
    if up_case > 6 {
        proof {
            lemma_mirror_well_formed(sq1@);
            lemma_run_mirrored(sq1@, 9, true, ints(up_shape@));
            lemma_run_mirrored(sq1@, 9, false, ints(down_shape@));
        }
        sq1.mirror_layers_atd(9);
        up_case -= 7;
    }
    let up_re: usize = if up_case != 4 {
        max(up_shape)
    } else {
        7
    };
    let down_re: usize = if down_case == 0 {
        7 - 2
    } else if down_case == 1 {
        7 - 3
    } else {
        7 - 4
    };
    ShapeClass { cubeshape: 39 + 3 * up_case + down_case, up_case, down_case: -1, up_re, down_re }
}

/// Classifies a configuration with two corners in its upper layer.
pub fn classify_eight_zero(up_shape: &Vec<usize>) -> (class: ShapeClass)
    requires
        up_shape@.len() == 2,
        total(ints(up_shape@)) == 8,
    ensures
        class.cubeshape == 60 + lowest(ints(up_shape@)),
        class.up_case == lowest(ints(up_shape@)),
        class.down_case == -2,
        class.up_re == highest(ints(up_shape@)),
        class.down_re == 0,
        60 <= class.cubeshape < 65,
        turns_fit(
            class.up_case as int,
            class.down_case as int,
            class.up_re as int,
            class.down_re as int,
            10,
        ),
{
    let up_case: usize = min(up_shape);
    let up_re: usize = max(up_shape);
    proof {
        let g = ints(up_shape@);
        let g1 = g.drop_last();
        assert(total(g1.drop_last()) == 0);
        assert(total(g1) == g[0]);
        assert(total(g) == g[0] + g[1]);
        assert(lowest(g1) == g[0]);
        assert(highest(g1) == g[0]);
    }
    ShapeClass { cubeshape: 60 + up_case, up_case, down_case: -2, up_re, down_re: 0 }
}

/// The numbers of white corners before each black corner, and the places of
/// the first corner of each face in its colour cycle.
pub fn corner_gaps(sq1: &Square1) -> (found: (Vec<usize>, Option<u8>, Option<u8>))
    requires
        is_permutation(sq1@),
    ensures
        ints(found.0@) == white_gaps(sq1@, 16).0,
        found.0@.len() == 4,
        found.0@[1] + found.0@[2] + found.0@[3] <= 4,
        found.1 is Some,
        found.1->0 == first_of(sq1@, is_black_corner(), 0) / 2,
        found.2 is Some,
        found.2->0 == first_of(sq1@, is_white_corner(), 0) / 2 - 4,
        first_of(sq1@, is_black_corner(), 0) < 8,
        8 <= first_of(sq1@, is_white_corner(), 0) < 16,
{
    let ghost s = sq1@;
    let mut corner_gaps: Vec<usize> = Vec::new();
    let mut gap: usize = 0;
    let mut black_offset: Option<u8> = None;
    let mut white_offset: Option<u8> = None;
    let mut i: usize = 0;
    proof {
        lemma_permutation_counts(s);
        assert(s.take(0).len() == 0);
        assert(ints(corner_gaps@) =~= white_gaps(s, 0).0);
        assert(total(ints(corner_gaps@)) == 0);
    }
    while i < 16
        invariant
            i <= 16,
            s == sq1@,
            is_permutation(s),
            count(s, is_black_corner()) == 4,
            count(s, is_white_corner()) == 4,
            (ints(corner_gaps@), gap as int) == white_gaps(s, i as int),
            corner_gaps@.len() == count(s.take(i as int), is_black_corner()),
            total(ints(corner_gaps@)) + gap == count(s.take(i as int), is_white_corner()),
            black_offset is None ==> forall|j: int|
                0 <= j < i ==> !(is_black_corner())(#[trigger] s[j]),
            white_offset is None ==> forall|j: int|
                0 <= j < i ==> !(is_white_corner())(#[trigger] s[j]),
            gap <= i,
            black_offset is None ==> corner_gaps@.len() == 0,
            white_offset is None ==> count(s.take(i as int), is_white_corner()) == 0,
            black_offset is Some ==> (black_offset->0 == first_of(s, is_black_corner(), 0) / 2
                && first_of(s, is_black_corner(), 0) < 8),
            white_offset is Some ==> (white_offset->0 == first_of(s, is_white_corner(), 0) / 2
                - 4 && 8 <= first_of(s, is_white_corner(), 0) < 16),
        decreases 16 - i,
    {
        let piece: u8 = sq1.pieces[i];
        proof {
            lemma_count_take(s, i as int, is_black_corner());
            lemma_count_take(s, i as int, is_white_corner());
            lemma_count_take_le(s, i + 1, is_black_corner());
            lemma_count_take_le(s, i + 1, is_white_corner());
            assert(s[i as int] < 16);
        }
        if piece % 2 == 0 {
            if piece > 7 {
                gap += 1;
                if white_offset.is_none() {
                    proof {
                        lemma_first_of(s, is_white_corner(), 0, i as int);
                    }
                    white_offset = Some(piece / 2 - 4);
                }
            } else {
                let ghost before = corner_gaps@;
                corner_gaps.push(gap);
                proof {
                    assert(ints(corner_gaps@) =~= ints(before).push(gap as int));
                    assert(ints(corner_gaps@).drop_last() =~= ints(before));
                }
                gap = 0;
                if black_offset.is_none() {
                    proof {
                        lemma_first_of(s, is_black_corner(), 0, i as int);
                    }
                    black_offset = Some(piece / 2);
                }
            }
        }
        i += 1;
    }
    proof {
        assert(s.take(16) =~= s);
        let g = ints(corner_gaps@);
        let g3 = g.drop_last();
        let g2 = g3.drop_last();
        let g1 = g2.drop_last();
        assert(total(g1.drop_last()) == 0);
        assert(total(g1) == g[0]);
        assert(total(g2) == g[0] + g[1]);
        assert(total(g3) == g[0] + g[1] + g[2]);
        assert(total(g) == g[0] + g[1] + g[2] + g[3]);
    }
    (corner_gaps, black_offset, white_offset)
}

/// The flips and mirror images that keep a shape.
fn flip_mirrors_of(up_case: usize, down_case: i8) -> (list: Vec<(bool, bool)>)
    ensures
        list@ == flip_mirrors(up_case as int, down_case as int),
{
    if down_case == -2 {
        vec![(false, false), (false, true)]
    } else if down_case == -1 {
        if up_case > 2 {
            vec![(false, false), (false, true)]
        } else {
            vec![(false, false)]
        }
    } else if up_case == 8 {
        if down_case == 1 {
            vec![(false, false)]
        } else {
            vec![(false, false), (true, true)]
        }
    } else if down_case >= 0 && up_case == down_case as usize {
        if up_case == 1 || up_case == 5 {
            vec![(false, false), (true, false)]
        } else {
            vec![(false, false), (false, true), (true, false), (true, true)]
        }
    } else if up_case == 1 || down_case == 1 || up_case == 5 || down_case == 5 {
        vec![(false, false)]
    } else {
        vec![(false, false), (false, true)]
    }
}

/// The turns of the upper layer that keep a shape.
fn up_turns_of(up_case: usize, down_case: i8) -> (list: Vec<usize>)
    ensures
        ints(list@) == up_turns(up_case as int, down_case as int),
{
    let list: Vec<usize> = if down_case == -2 {
        if up_case == 4 {
            vec![0, 5]
        } else {
            vec![0]
        }
    } else if down_case == -1 {
        if up_case == 3 {
            vec![0, 3, 6]
        } else {
            vec![0]
        }
    } else if up_case == 0 {
        vec![0, 2, 4, 6]
    } else if up_case == 3 {
        vec![0, 4]
    } else {
        vec![0]
    };
    assert(ints(list@) =~= up_turns(up_case as int, down_case as int));
    list
}

/// The turns of the lower layer that keep a shape.
fn down_turns_of(up_case: usize, down_case: i8) -> (list: Vec<usize>)
    ensures
        ints(list@) == down_turns(up_case as int, down_case as int),
{
    let list: Vec<usize> = if down_case == -2 {
        vec![0, 1, 2, 3, 4, 5]
    } else if down_case == -1 {
        vec![0]
    } else if down_case == 0 && up_case != 8 {
        vec![0, 2, 4, 6]
    } else if down_case == 3 {
        vec![0, 4]
    } else {
        vec![0]
    };
    assert(ints(list@) =~= down_turns(up_case as int, down_case as int));
    list
}

/// The flips and mirror images, and the turns of each layer, that keep a
/// shape.
fn get_symmetric_actions(up_case: usize, down_case: i8) -> (actions: (
    Vec<(bool, bool)>,
    Vec<usize>,
    Vec<usize>,
))
    ensures
        actions.0@ == flip_mirrors(up_case as int, down_case as int),
        ints(actions.1@) == up_turns(up_case as int, down_case as int),
        ints(actions.2@) == down_turns(up_case as int, down_case as int),
{
    (
        flip_mirrors_of(up_case, down_case),
        up_turns_of(up_case, down_case),
        down_turns_of(up_case, down_case),
    )
}

impl StateAll {
    /// Finds the shape of the configuration and brings the configuration
    /// into the position in which the shape is indexed.
    pub fn calc_cubeshape(&mut self)
        requires
            well_formed(old(self).sq1@),
        ensures
            final(self).sq1@ == shaped(old(self).sq1@),
            final(self).cubeshape == classified(old(self).sq1@).3,
            final(self).up_case == classified(old(self).sq1@).4,
            final(self).down_case == classified(old(self).sq1@).5,
            final(self).up_re == classified(old(self).sq1@).6,
            final(self).down_re == classified(old(self).sq1@).7,
            final(self).co == old(self).co,
            final(self).cp_black == old(self).cp_black,
            final(self).cp_white == old(self).cp_white,
            final(self).ep == old(self).ep,
            final(self).index == old(self).index,
            well_formed(final(self).sq1@),
            final(self).cubeshape < 65,
            turns_fit(
                final(self).up_case as int,
                final(self).down_case as int,
                final(self).up_re as int,
                final(self).down_re as int,
                divide(final(self).sq1@),
            ),
    {
        let ghost s0 = self.sq1@;
        let mut up_shape: Vec<usize> = get_shape(&self.sq1, true);
        let mut down_shape: Vec<usize> = get_shape(&self.sq1, false);
        proof {
            lemma_shape_of(s0, true);
            lemma_shape_of(s0, false);
            lemma_reverse_well_formed(s0);
            lemma_run_flipped(s0, true, ints(down_shape@));
            lemma_run_flipped(s0, false, ints(up_shape@));
        }
        if up_shape.len() > 4 {
            self.sq1.flip_layers();
            let swapped: Vec<usize> = up_shape;
            up_shape = down_shape;
            down_shape = swapped;
        }
        assert(well_formed(self.sq1@));
        assert(up_shape@.len() == 12 - divide(self.sq1@));
        assert(down_shape@.len() == divide(self.sq1@) - 4);
        assert(layer_has_run(self.sq1@, true, ints(up_shape@)));
        assert(layer_has_run(self.sq1@, false, ints(down_shape@)));
        let class: ShapeClass = if up_shape.len() == 4 {
            classify_squares(&mut self.sq1, &mut up_shape, &mut down_shape)
        } else if up_shape.len() == 3 {
            classify_six_two(&mut self.sq1, &up_shape, &down_shape)
        } else {
            classify_eight_zero(&up_shape)
        };
        self.cubeshape = class.cubeshape;
        self.up_case = class.up_case;
        self.down_case = class.down_case;
        self.up_re = class.up_re;
        self.down_re = class.down_re;
        self.correct_layers(&up_shape, &down_shape);
    }

    /// Turns the layers into the position in which their shapes are indexed.
    pub fn correct_layers(&mut self, up_shape: &Vec<usize>, down_shape: &Vec<usize>)
        requires
            well_formed(old(self).sq1@),
            up_shape@.len() == 12 - divide(old(self).sq1@),
            down_shape@.len() == divide(old(self).sq1@) - 4,
            2 <= up_shape@.len() <= 6,
            2 <= down_shape@.len() <= 6,
            forall|i: int| 0 <= i < up_shape@.len() ==> #[trigger] up_shape@[i] <= 8,
            forall|i: int| 0 <= i < down_shape@.len() ==> #[trigger] down_shape@[i] <= 8,
            layer_has_run(old(self).sq1@, true, ints(up_shape@)),
            layer_has_run(old(self).sq1@, false, ints(down_shape@)),
        ensures
            final(self).sq1@ == corrected(old(self).sq1@, ints(up_shape@), ints(down_shape@)),
            well_formed(final(self).sq1@),
            divide(final(self).sq1@) == divide(old(self).sq1@),
            final(self).cubeshape == old(self).cubeshape,
            final(self).up_case == old(self).up_case,
            final(self).down_case == old(self).down_case,
            final(self).up_re == old(self).up_re,
            final(self).down_re == old(self).down_re,
            final(self).co == old(self).co,
            final(self).cp_black == old(self).cp_black,
            final(self).cp_white == old(self).cp_white,
            final(self).ep == old(self).ep,
            final(self).index == old(self).index,
    {
        let up: usize = get_shape_turn(&self.sq1, true, up_shape);
        let down: usize = get_shape_turn(&self.sq1, false, down_shape);
        proof {
            lemma_turn_well_formed(self.sq1@, up as int, down as int);
        }
        self.sq1.turn_layers(&(up, down));
    }

    /// Names the colours from the first corner of each face on, and numbers
    /// the places of the black corners among all corners.
    pub fn calc_orientation(&mut self)
        requires
            well_formed(old(self).sq1@),
        ensures
            final(self).sq1@ == recoloured(old(self).sq1@),
            final(self).co == orientation_code(old(self).sq1@),
            final(self).co < 35,
            well_formed(final(self).sq1@),
            divide(final(self).sq1@) == divide(old(self).sq1@),
            *final(self) == (StateAll { sq1: final(self).sq1, co: final(self).co, ..*old(self) }),
    {
        proof {
            lemma_colour_flip_well_formed(self.sq1@);
        }
        if self.sq1.pieces[0] > 7 {
            self.sq1.flip_colors();
        }
        let found = corner_gaps(&self.sq1);
        let corner_gaps: Vec<usize> = found.0;
        let n1: usize = 4 - corner_gaps[1];
        let n2: usize = n1 - corner_gaps[2];
        let n3: usize = n2 - corner_gaps[3];
        proof {
            lemma_sum_to_values();
            lemma_sum_sum_to_values();
            lemma_cycle_well_formed(
                self.sq1@,
                (first_of(self.sq1@, is_black_corner(), 0) / 2) as int,
                first_of(self.sq1@, is_white_corner(), 0) / 2 - 4,
            );
            assert(ints(corner_gaps@)[1] == corner_gaps@[1]);
            assert(ints(corner_gaps@)[2] == corner_gaps@[2]);
            assert(ints(corner_gaps@)[3] == corner_gaps@[3]);
        }
        self.co = sum_sum_to_of(n1) + sum_to_of(n2) + n3;
        self.sq1.cycle_colors(&(found.1.unwrap(), found.2.unwrap()));
    }

    /// Ranks the order of the edges and of the corners of each face.
    pub fn calc_permutation(&mut self)
        requires
            is_permutation(old(self).sq1@),
        ensures
            final(self).ep == lehmer(ranked_pieces(old(self).sq1@, PieceKind::Edge, false)),
            final(self).cp_black == lehmer(
                ranked_pieces(old(self).sq1@, PieceKind::BlackCorner, true),
            ),
            final(self).cp_white == lehmer(
                ranked_pieces(old(self).sq1@, PieceKind::WhiteCorner, true),
            ),
            final(self).ep < 40320,
            final(self).cp_black < 6,
            final(self).cp_white < 6,
            *final(self) == (StateAll {
                ep: final(self).ep,
                cp_black: final(self).cp_black,
                cp_white: final(self).cp_white,
                ..*old(self)
            }),
    {
        proof {
            lemma_permutation_counts(self.sq1@);
            lemma_fact_values();
            crate::state::rank::lemma_pick_len(self.sq1@, is_edge());
            crate::state::rank::lemma_pick_len(self.sq1@, is_black_corner());
            crate::state::rank::lemma_pick_len(self.sq1@, is_white_corner());
        }
        self.ep = rank_of(&self.sq1, PieceKind::Edge, false);
        self.cp_black = rank_of(&self.sq1, PieceKind::BlackCorner, true);
        self.cp_white = rank_of(&self.sq1, PieceKind::WhiteCorner, true);
    }

    /// Puts the parts of the index together.
    pub fn combine_to_index(&mut self)
        requires
            old(self).ep < 40320,
            old(self).cubeshape < 65,
            old(self).co < 35,
            old(self).cp_black < 6,
            old(self).cp_white < 6,
        ensures
            final(self).index == combined(
                old(self).ep as int,
                old(self).cubeshape as int,
                old(self).co as int,
                old(self).cp_black as int,
                old(self).cp_white as int,
            ),
            final(self).index < 3_302_208_000,
            *final(self) == (StateAll { index: final(self).index, ..*old(self) }),
    {
        self.index = self.ep;
        self.index = self.index * 65 + self.cubeshape;
        self.index = self.index * 35 + self.co;
        self.index = self.index * 6 + self.cp_black;
        self.index = self.index * 6 + self.cp_white;
    }

    /// Ranks the configuration as it lies: numbers the places and the order
    /// of its pieces, and puts the index together.
    fn calc_rank(&mut self)
        requires
            well_formed(old(self).sq1@),
            old(self).cubeshape < 65,
        ensures
            final(self).sq1@ == recoloured(old(self).sq1@),
            final(self).index == ranked_index(old(self).sq1@, old(self).cubeshape as int),
            final(self).index < 3_302_208_000,
            well_formed(final(self).sq1@),
            divide(final(self).sq1@) == divide(old(self).sq1@),
            final(self).cubeshape == old(self).cubeshape,
            final(self).up_case == old(self).up_case,
            final(self).down_case == old(self).down_case,
            final(self).up_re == old(self).up_re,
            final(self).down_re == old(self).down_re,
    {
        self.calc_orientation();
        self.calc_permutation();
        self.combine_to_index();
    }

    /// Computes the index of the configuration.
    pub fn calc_index(&mut self)
        requires
            well_formed(old(self).sq1@),
        ensures
            final(self).sq1@ == recoloured(shaped(old(self).sq1@)),
            final(self).index == index_all(old(self).sq1@),
            final(self).index < 3_302_208_000,
            final(self).cubeshape == classified(old(self).sq1@).3,
            final(self).up_case == classified(old(self).sq1@).4,
            final(self).down_case == classified(old(self).sq1@).5,
            final(self).up_re == classified(old(self).sq1@).6,
            final(self).down_re == classified(old(self).sq1@).7,
            well_formed(final(self).sq1@),
            final(self).cubeshape < 65,
            turns_fit(
                final(self).up_case as int,
                final(self).down_case as int,
                final(self).up_re as int,
                final(self).down_re as int,
                divide(final(self).sq1@),
            ),
    {
        self.calc_cubeshape();
        self.calc_rank();
    }
}

/// The symmetries of a shape flip only shapes with four corners in each
/// layer, and turn no layer further than `greatest_up_turn` and
/// `greatest_down_turn` say.
pub proof fn lemma_symmetric_actions(up_case: int, down_case: int)
    requires
        -2 <= down_case,
    ensures
        forall|k: int|
            0 <= k < flip_mirrors(up_case, down_case).len() ==> ((#[trigger] flip_mirrors(
                up_case,
                down_case,
            )[k]).0 ==> down_case >= 0),
        forall|m: int|
            0 <= m < up_turns(up_case, down_case).len() ==> 0 <= #[trigger] up_turns(
                up_case,
                down_case,
            )[m] <= greatest_up_turn(up_case, down_case),
        forall|n: int|
            0 <= n < down_turns(up_case, down_case).len() ==> 0 <= #[trigger] down_turns(
                up_case,
                down_case,
            )[n] <= greatest_down_turn(up_case, down_case),
{
    let f = flip_mirrors(up_case, down_case);
    if down_case < 0 {
        assert(f.len() <= 2);
        assert(!f[0].0);
        if f.len() > 1 {
            assert(!f[1].0);
        }
        assert forall|k: int| 0 <= k < f.len() implies !(#[trigger] f[k]).0 by {
            if k == 0 {
            } else {
                assert(k == 1);
            }
        }
    }
}

impl State for StateAll {
    const NAME: &'static str = "all";

    const SIZE: usize = 3_302_208_000;

    const MAX_SLICES: u8 = 12;

    open spec fn indexable(s: Seq<u8>) -> bool {
        well_formed(s)
    }

    open spec fn canonical_of(s: Seq<u8>) -> Seq<u8> {
        recoloured(shaped(s))
    }

    open spec fn index_of(s: Seq<u8>) -> nat {
        index_all(s) as nat
    }

    open spec fn symmetric_of(s: Seq<u8>) -> Seq<nat> {
        let c = classified(s);
        symmetric_indices(recoloured(shaped(s)), c.3, c.4, c.5, (c.6, c.7))
    }

    open spec fn successors_of(s: Seq<u8>) -> Seq<u64> {
        packed_all(turned_and_sliced(s, unique_turns(s), unique_turns(s).len() as int))
    }

    open spec fn wf(&self) -> bool {
        &&& well_formed(self.sq1@)
        &&& self.cubeshape < 65
        &&& self.index < 3_302_208_000
        &&& turns_fit(
            self.up_case as int,
            self.down_case as int,
            self.up_re as int,
            self.down_re as int,
            divide(self.sq1@),
        )
    }

    open spec fn spec_pieces(&self) -> Seq<u8> {
        self.sq1@
    }

    open spec fn spec_index(&self) -> nat {
        self.index as nat
    }

    open spec fn spec_symmetric(&self) -> Seq<nat> {
        symmetric_indices(
            self.sq1@,
            self.cubeshape as int,
            self.up_case as int,
            self.down_case as int,
            (self.up_re as int, self.down_re as int),
        )
    }

    fn new(sq1: Square1) -> (state: Self)
        ensures
            state.index == index_all(sq1@),
            state.index < 3_302_208_000,
    {
        let mut state: Self = Self {
            sq1,
            cubeshape: 0,
            co: 0,
            cp_black: 0,
            cp_white: 0,
            ep: 0,
            index: 0,
            up_case: 0,
            down_case: 0,
            up_re: 0,
            down_re: 0,
        };
        state.calc_index();
        state
    }

    fn get_index(&self) -> (index: usize) {
        self.index
    }

    fn get_symmetric_indecies(&mut self) -> (indices: Vec<usize>) {
        let base: Square1 = self.sq1;
        let actions = get_symmetric_actions(self.up_case, self.down_case);
        let flips: Vec<(bool, bool)> = actions.0;
        let turns_up: Vec<usize> = actions.1;
        let turns_down: Vec<usize> = actions.2;
        let mut indecies: Vec<usize> = Vec::new();
        let ghost cubeshape = self.cubeshape as int;
        let ghost re = (self.up_re as int, self.down_re as int);
        let ghost fms = flips@;
        let ghost ups = ints(turns_up@);
        let ghost downs = ints(turns_down@);
        let ghost d = divide(base@);
        proof {
            lemma_symmetric_actions(self.up_case as int, self.down_case as int);
            lemma_layers(base@);
        }
        let mut k: usize = 0;
        assert(indices_view(indecies@) =~= sym_all(base@, cubeshape, re, fms, ups, downs, 0));
        while k < flips.len()
            invariant
                k <= flips@.len(),
                fms == flips@,
                ups == ints(turns_up@),
                downs == ints(turns_down@),
                fms == flip_mirrors(old(self).up_case as int, old(self).down_case as int),
                ups == up_turns(old(self).up_case as int, old(self).down_case as int),
                downs == down_turns(old(self).up_case as int, old(self).down_case as int),
                old(self).wf(),
                base == old(self).sq1,
                self.sq1 == base,
                d == divide(base@),
                self.cubeshape == old(self).cubeshape,
                self.up_case == old(self).up_case,
                self.down_case == old(self).down_case,
                self.up_re == old(self).up_re,
                self.down_re == old(self).down_re,
                self.index < 3_302_208_000,
                cubeshape == self.cubeshape,
                re == (self.up_re as int, self.down_re as int),
                indices_view(indecies@) == sym_all(base@, cubeshape, re, fms, ups, downs, k as int),
                forall|i: int| 0 <= i < indecies@.len() ==> #[trigger] indecies@[i] < 3_302_208_000,
            decreases flips@.len() - k,
        {
            let flip: bool = flips[k].0;
            let mirror: bool = flips[k].1;
            proof {
                lemma_symmetric_actions(self.up_case as int, self.down_case as int);
                lemma_mirror_well_formed(base@);
                assert(fms[k as int].0 ==> self.down_case >= 0);
            }
            if mirror {
                self.sq1.mirror_layers();
            }
            proof {
                lemma_reverse_well_formed(self.sq1@);
            }
            if flip {
                self.sq1.flip_layers();
            }
            let modified: Square1 = self.sq1;
            let ghost outer = indices_view(indecies@);
            let ghost changed = flip || mirror;
            assert(modified@ == sym_base(base@, flip, mirror));
            assert(well_formed(modified@) && divide(modified@) == d);
            let mut m: usize = 0;
            assert(outer + sym_ups(modified@, cubeshape, changed, mirror, re, ups, downs, 0)
                =~= outer);
            while m < turns_up.len()
                invariant
                    m <= turns_up@.len(),
                    ups == ints(turns_up@),
                    downs == ints(turns_down@),
                    ups == up_turns(old(self).up_case as int, old(self).down_case as int),
                    downs == down_turns(old(self).up_case as int, old(self).down_case as int),
                    old(self).wf(),
                    base == old(self).sq1,
                    d == divide(base@),
                    self.sq1 == modified,
                    well_formed(modified@),
                    divide(modified@) == d,
                    changed == (flip || mirror),
                    self.cubeshape == old(self).cubeshape,
                    self.up_case == old(self).up_case,
                    self.down_case == old(self).down_case,
                    self.up_re == old(self).up_re,
                    self.down_re == old(self).down_re,
                    self.index < 3_302_208_000,
                    cubeshape == self.cubeshape,
                    re == (self.up_re as int, self.down_re as int),
                    indices_view(indecies@) == outer + sym_ups(
                        modified@,
                        cubeshape,
                        changed,
                        mirror,
                        re,
                        ups,
                        downs,
                        m as int,
                    ),
                    forall|i: int|
                        0 <= i < indecies@.len() ==> #[trigger] indecies@[i] < 3_302_208_000,
                decreases turns_up@.len() - m,
            {
                let up_turn: usize = turns_up[m];
                let ghost middle = indices_view(indecies@);
                let mut n: usize = 0;
                assert(middle + sym_downs(
                    modified@,
                    cubeshape,
                    changed,
                    mirror,
                    re,
                    up_turn as int,
                    downs,
                    0,
                ) =~= middle);
                while n < turns_down.len()
                    invariant
                        n <= turns_down@.len(),
                        m < turns_up@.len(),
                        up_turn == turns_up@[m as int],
                        ups == ints(turns_up@),
                        downs == ints(turns_down@),
                        ups == up_turns(old(self).up_case as int, old(self).down_case as int),
                        downs == down_turns(old(self).up_case as int, old(self).down_case as int),
                        old(self).wf(),
                        base == old(self).sq1,
                        d == divide(base@),
                        self.sq1 == modified,
                        well_formed(modified@),
                        divide(modified@) == d,
                        changed == (flip || mirror),
                        self.cubeshape == old(self).cubeshape,
                        self.up_case == old(self).up_case,
                        self.down_case == old(self).down_case,
                        self.up_re == old(self).up_re,
                        self.down_re == old(self).down_re,
                        self.index < 3_302_208_000,
                        cubeshape == self.cubeshape,
                        re == (self.up_re as int, self.down_re as int),
                        indices_view(indecies@) == middle + sym_downs(
                            modified@,
                            cubeshape,
                            changed,
                            mirror,
                            re,
                            up_turn as int,
                            downs,
                            n as int,
                        ),
                        forall|i: int|
                            0 <= i < indecies@.len() ==> #[trigger] indecies@[i] < 3_302_208_000,
                    decreases turns_down@.len() - n,
                {
                    let down_turn: usize = turns_down[n];
                    proof {
                        lemma_symmetric_actions(self.up_case as int, self.down_case as int);
                        assert(ups[m as int] == up_turn);
                        assert(downs[n as int] == down_turn);
                        assert(0 <= ups[m as int] <= greatest_up_turn(
                            self.up_case as int,
                            self.down_case as int,
                        ));
                        assert(0 <= downs[n as int] <= greatest_down_turn(
                            self.up_case as int,
                            self.down_case as int,
                        ));
                    }
                    if mirror || flip || up_turn != 0 || down_turn != 0 {
                        let turn: (usize, usize) = if mirror {
                            (self.up_re + up_turn, self.down_re + down_turn)
                        } else {
                            (up_turn, down_turn)
                        };
                        proof {
                            lemma_turn_well_formed(modified@, turn.0 as int, turn.1 as int);
                        }
                        self.sq1.turn_layers(&turn);
                        self.calc_rank();
                        self.sq1 = modified;
                        let ghost before = indices_view(indecies@);
                        indecies.push(self.index);
                        assert(indices_view(indecies@) =~= before.push(self.index as nat));
                    }
                    n += 1;
                }
                proof {
                    assert(outer + sym_ups(
                        modified@,
                        cubeshape,
                        changed,
                        mirror,
                        re,
                        ups,
                        downs,
                        m as int,
                    ) + sym_downs(
                        modified@,
                        cubeshape,
                        changed,
                        mirror,
                        re,
                        up_turn as int,
                        downs,
                        downs.len() as int,
                    ) =~= outer + sym_ups(
                        modified@,
                        cubeshape,
                        changed,
                        mirror,
                        re,
                        ups,
                        downs,
                        m + 1,
                    ));
                }
                m += 1;
            }
            self.sq1 = base;
            k += 1;
        }
        indecies
    }

    fn get_square1_num(&self) -> (num: u64) {
        self.sq1.get_num()
    }

    fn gen_next_positions(sq1num: u64) -> (next: Vec<u64>) {
        let base: Square1 = Square1::from_num(sq1num);
        let turns: Vec<(usize, usize)> = base.get_unique_turns();
        turn_and_slice(&base, &turns)
    }

    fn accepts(sq1: &Square1) -> (r: bool) {
        sq1.is_well_formed()
    }

    proof fn lemma_scheme() {
        crate::square1::lemma_solved();
    }
}

/// The number of indices of the full indexing.
pub proof fn lemma_size_all()
    ensures
        StateAll::SIZE == 3_302_208_000,
        StateAll::MAX_SLICES == 12,
{
}

} // verus!
