//! The indexing of the configurations in which both layers are squares, by
//! the places of the corners of each face and the order of the corners and
//! of the edges.
use vstd::prelude::*;
use crate::counting::count;
use crate::square1::{
    colours_cycled, colours_flipped, divide, even, is_black_corner, is_edge, is_permutation,
    is_white_corner, layers_turned, lemma_colour_flip_well_formed, lemma_cycle_well_formed,
    lemma_even_double, lemma_even_sum, lemma_kinds_square, lemma_mirror_well_formed,
    lemma_mirrored_piece, lemma_permutation_counts, lemma_reverse_well_formed, lemma_square_kinds,
    lemma_square_shaped, lemma_square_turn, lemma_square_turned, lemma_turn_well_formed,
    mirrored_at, square_shaped, turn_allows_slice, turns_view, unique_turns_sqsq, unpacked,
    well_formed, Square1,
};
use crate::state::rank::{
    lehmer, lemma_fact_values, lemma_pick_len, rank_of, ranked_pieces, PieceKind,
};
use crate::state::stateall::{corner_gaps, first_of};
use crate::state::symmetry::Symmetry;
use crate::state::{
    indices_view, lemma_turned_and_sliced, packed_all, positions_view, turn_and_slice,
    turned_and_sliced, State,
};

verus! {

/// The symmetries of a configuration in which each layer holds the corners of
/// one face.
pub const CO_0: [(bool, bool, bool, usize, usize); 63] = [
    (true, true, false, 0, 0),
    (true, false, true, 0, 0),
    (false, true, true, 0, 0),
    (false, false, false, 0, 1),
    (true, true, false, 0, 1),
    (true, false, true, 0, 1),
    (false, true, true, 0, 1),
    (false, false, false, 0, 2),
    (true, true, false, 0, 2),
    (true, false, true, 0, 2),
    (false, true, true, 0, 2),
    (false, false, false, 0, 3),
    (true, true, false, 0, 3),
    (true, false, true, 0, 3),
    (false, true, true, 0, 3),
    (false, false, false, 1, 0),
    (true, true, false, 1, 0),
    (true, false, true, 1, 0),
    (false, true, true, 1, 0),
    (false, false, false, 1, 1),
    (true, true, false, 1, 1),
    (true, false, true, 1, 1),
    (false, true, true, 1, 1),
    (false, false, false, 1, 2),
    (true, true, false, 1, 2),
    (true, false, true, 1, 2),
    (false, true, true, 1, 2),
    (false, false, false, 1, 3),
    (true, true, false, 1, 3),
    (true, false, true, 1, 3),
    (false, true, true, 1, 3),
    (false, false, false, 2, 0),
    (true, true, false, 2, 0),
    (true, false, true, 2, 0),
    (false, true, true, 2, 0),
    (false, false, false, 2, 1),
    (true, true, false, 2, 1),
    (true, false, true, 2, 1),
    (false, true, true, 2, 1),
    (false, false, false, 2, 2),
    (true, true, false, 2, 2),
    (true, false, true, 2, 2),
    (false, true, true, 2, 2),
    (false, false, false, 2, 3),
    (true, true, false, 2, 3),
    (true, false, true, 2, 3),
    (false, true, true, 2, 3),
    (false, false, false, 3, 0),
    (true, true, false, 3, 0),
    (true, false, true, 3, 0),
    (false, true, true, 3, 0),
    (false, false, false, 3, 1),
    (true, true, false, 3, 1),
    (true, false, true, 3, 1),
    (false, true, true, 3, 1),
    (false, false, false, 3, 2),
    (true, true, false, 3, 2),
    (true, false, true, 3, 2),
    (false, true, true, 3, 2),
    (false, false, false, 3, 3),
    (true, true, false, 3, 3),
    (true, false, true, 3, 3),
    (false, true, true, 3, 3),
];

/// The symmetries of a configuration in which each layer holds three corners
/// of one face.
pub const CO_1: [(bool, bool, bool, usize, usize); 3] = [
    (true, true, false, 3, 3),
    (true, false, true, 0, 0),
    (false, true, true, 3, 3),
];

/// The symmetries of a configuration in which each layer holds two
/// neighbouring corners of each face.
pub const CO_2: [(bool, bool, bool, usize, usize); 7] = [
    (true, false, false, 2, 2),
    (false, true, false, 2, 2),
    (false, false, true, 2, 2),
    (true, true, false, 0, 0),
    (true, false, true, 0, 0),
    (false, true, true, 0, 0),
    (true, true, true, 2, 2),
];

/// The symmetries of a configuration in which one layer holds opposite
/// corners of each face and the other neighbouring ones.
pub const CO_3: [(bool, bool, bool, usize, usize); 7] = [
    (false, true, false, 2, 1),
    (false, false, true, 2, 0),
    (false, true, true, 0, 1),
    (false, false, false, 0, 2),
    (false, true, false, 2, 3),
    (false, false, true, 2, 2),
    (false, true, true, 0, 3),
];

/// The symmetries of a configuration in which each layer holds two opposite
/// corners of each face.
pub const CO_4: [(bool, bool, bool, usize, usize); 31] = [
    (true, false, false, 0, 0),
    (false, true, false, 1, 1),
    (false, false, true, 0, 0),
    (true, true, false, 1, 1),
    (true, false, true, 0, 0),
    (false, true, true, 1, 1),
    (true, true, true, 1, 1),
    (false, false, false, 0, 2),
    (true, false, false, 0, 2),
    (false, true, false, 1, 3),
    (false, false, true, 0, 2),
    (true, true, false, 1, 3),
    (true, false, true, 0, 2),
    (false, true, true, 1, 3),
    (true, true, true, 1, 3),
    (false, false, false, 2, 0),
    (true, false, false, 2, 0),
    (false, true, false, 3, 1),
    (false, false, true, 2, 0),
    (true, true, false, 3, 1),
    (true, false, true, 2, 0),
    (false, true, true, 3, 1),
    (true, true, true, 3, 1),
    (false, false, false, 2, 2),
    (true, false, false, 2, 2),
    (false, true, false, 3, 3),
    (false, false, true, 2, 2),
    (true, true, false, 3, 3),
    (true, false, true, 2, 2),
    (false, true, true, 3, 3),
    (true, true, true, 3, 3),
];

/// The symmetry that a line of the tables stands for.
pub open spec fn symmetry_of(line: (bool, bool, bool, usize, usize)) -> Symmetry {
    Symmetry { flip_l: line.0, flip_c: line.1, mirror: line.2, up_rot: line.3, down_rot: line.4 }
}

/// The symmetries of a configuration whose corners lie as `co` says.
pub open spec fn symmetric_actions(co: int) -> Seq<Symmetry> {
    (if co == 0 {
        CO_0@
    } else if co == 1 {
        CO_1@
    } else if co == 2 {
        CO_2@
    } else if co == 3 {
        CO_3@
    } else if co == 4 {
        CO_4@
    } else {
        Seq::empty()
    }).map_values(|line: (bool, bool, bool, usize, usize)| symmetry_of(line))
}

/// A configuration of two squares with the position of the first corner in
/// each layer.
pub type Aligned = (Seq<u8>, int, int);

/// The corner at place `i` of the eight, counted through the upper layer and
/// then through the lower one.
pub open spec fn corner_of(st: Aligned, i: int) -> u8 {
    if i < 4 {
        st.0[st.1 + i * 2]
    } else {
        st.0[st.2 + i * 2]
    }
}

/// The edge at place `i` of the eight.
pub open spec fn edge_of(st: Aligned, i: int) -> u8 {
    if i < 4 {
        st.0[1 - st.1 + i * 2]
    } else {
        st.0[1 - st.2 + i * 2]
    }
}

/// The configuration with its layers exchanged.
pub open spec fn flipped(st: Aligned) -> Aligned {
    (st.0.reverse(), 1 - st.2, 1 - st.1)
}

/// The configuration with each layer turned until the corner at place
/// `up_rot`, or `down_rot` in the lower layer, comes first.
pub open spec fn rotated(st: Aligned, up_rot: int, down_rot: int) -> Aligned {
    (layers_turned(st.0, st.1 + up_rot * 2, st.2 + down_rot * 2), 0, 0)
}

/// The mirror image of the configuration.
pub open spec fn mirrored(st: Aligned) -> Aligned {
    (mirrored_at(st.0, 8), 1 - st.1, 1 - st.2)
}

/// How the corners of the two faces lie in the layers, as a number below
/// five, and the configuration with its layers exchanged where that brings
/// the black corners up.
pub open spec fn faces_arranged(st: Aligned) -> (Aligned, int) {
    let black = corner_of(st, 0) < 8;
    let count = 1 + (if (corner_of(st, 1) < 8) == black {
        1int
    } else {
        0int
    }) + (if (corner_of(st, 2) < 8) == black {
        1int
    } else {
        0int
    }) + (if (corner_of(st, 3) < 8) == black {
        1int
    } else {
        0int
    });
    if count == 1 {
        (
            if black {
                flipped(st)
            } else {
                st
            },
            1,
        )
    } else if count == 2 {
        let up_is_opp = (corner_of(st, 2) < 8) == black;
        let co = 2 + (if up_is_opp {
            1int
        } else {
            0int
        }) + (if (corner_of(st, 4) < 8) == (corner_of(st, 6) < 8) {
            1int
        } else {
            0int
        });
        (
            if co == 3 && up_is_opp {
                flipped(st)
            } else {
                st
            },
            co,
        )
    } else if count == 3 {
        (
            if !black {
                flipped(st)
            } else {
                st
            },
            1,
        )
    } else {
        (
            if !black {
                flipped(st)
            } else {
                st
            },
            0,
        )
    }
}

/// The place of the last white corner in the upper layer, and of the last
/// black corner in the lower layer, or zero where there is none; with the
/// exceptions that the arrangement of the faces asks for.
pub open spec fn first_corners(st: Aligned, co: int) -> (int, int) {
    let up = if corner_of(st, 3) > 7 {
        3int
    } else if corner_of(st, 2) > 7 {
        2int
    } else if corner_of(st, 1) > 7 {
        1int
    } else {
        0int
    };
    let down = if corner_of(st, 7) < 8 {
        3int
    } else if corner_of(st, 6) < 8 {
        2int
    } else if corner_of(st, 5) < 8 {
        1int
    } else {
        0int
    };
    (
        if (co == 2 || co == 3) && up == 3 && corner_of(st, 0) > 7 {
            0
        } else {
            up
        },
        if co == 2 && down == 3 && corner_of(st, 4) < 8 {
            0
        } else {
            down
        },
    )
}

/// The configuration in the position in which the arrangement of its faces
/// is indexed, and the number of the arrangement.
pub open spec fn orientation_sqsq(st: Aligned) -> (Aligned, int) {
    let a = faces_arranged(st);
    let r = first_corners(a.0, a.1);
    (rotated(a.0, r.0, r.1), a.1)
}

/// The configuration with its colours named from the first corner of each
/// face on.
pub open spec fn recoloured_sqsq(s: Seq<u8>) -> Seq<u8> {
    colours_cycled(
        s,
        (first_of(s, is_black_corner(), 0) / 2) as int,
        first_of(s, is_white_corner(), 0) / 2 - 4,
    )
}

/// The index that the parts give together.
pub open spec fn combined_sqsq(ep: int, co: int, cp_black: int, cp_white: int) -> int {
    ((ep * 5 + co) * 6 + cp_black) * 6 + cp_white
}

/// The index of a configuration that lies in the position of the arrangement
/// of its faces.
pub open spec fn ranked_sqsq(s: Seq<u8>, co: int) -> int {
    let t = recoloured_sqsq(s);
    combined_sqsq(
        lehmer(ranked_pieces(t, PieceKind::Edge, false)) / 2,
        co,
        lehmer(ranked_pieces(t, PieceKind::BlackCorner, true)),
        lehmer(ranked_pieces(t, PieceKind::WhiteCorner, true)),
    )
}

/// The position of the first corner of a layer that begins with `first`.
pub open spec fn alignment_of(first: u8) -> int {
    (first % 2) as int
}

/// A configuration of two squares as it is given.
pub open spec fn as_given(s: Seq<u8>) -> Aligned {
    (s, alignment_of(s[0]), alignment_of(s[8]))
}

/// The index of a configuration of two squares.
pub open spec fn index_sqsq(s: Seq<u8>) -> int {
    let o = orientation_sqsq(as_given(s));
    ranked_sqsq(o.0.0, o.1)
}

/// The configuration that a symmetry makes of one.
pub open spec fn applied(a: Symmetry, st: Aligned) -> Aligned {
    let f = if a.flip_l {
        flipped(st)
    } else {
        st
    };
    let c = if a.flip_c {
        (colours_flipped(f.0), f.1, f.2)
    } else {
        f
    };
    let m = if a.mirror {
        mirrored(c)
    } else {
        c
    };
    rotated(m, a.up_rot as int, a.down_rot as int)
}

/// The indices that the first `n` of the given symmetries give.
pub open spec fn symmetric_sqsq(s: Seq<u8>, co: int, actions: Seq<Symmetry>, n: int) -> Seq<nat>
    decreases n,
{
    if n <= 0 {
        Seq::empty()
    } else {
        symmetric_sqsq(s, co, actions, n - 1).push(
            ranked_sqsq(applied(actions[n - 1], (s, 0, 0)).0, co) as nat,
        )
    }
}

/// A configuration of two squares with all its pieces, in which the first
/// corner of each layer is where the state holds it to be.
pub open spec fn aligned(st: Aligned) -> bool {
    &&& is_permutation(st.0)
    &&& square_shaped(st.0)
    &&& st.1 == alignment_of(st.0[0])
    &&& st.2 == alignment_of(st.0[8])
}

/// Two squares with all their pieces are well formed, and their corners and
/// edges lie where the alignment says.
pub proof fn lemma_aligned(st: Aligned)
    requires
        aligned(st),
    ensures
        well_formed(st.0),
        divide(st.0) == 8,
        0 <= st.1 <= 1,
        0 <= st.2 <= 1,
        forall|i: int| 0 <= i < 8 ==> corner_of(st, i) % 2 == 0 && corner_of(st, i) < 16,
        forall|i: int| 0 <= i < 8 ==> edge_of(st, i) % 2 == 1 && edge_of(st, i) < 16,
{
    let s = st.0;
    lemma_square_shaped(s);
    lemma_square_kinds(s);
    assert forall|i: int| 0 <= i < 8 implies corner_of(st, i) % 2 == 0 && corner_of(st, i)
        < 16 by {
        lemma_even_double(i);
        if i < 4 {
            assert(s[st.1 + i * 2] < 16);
        } else {
            assert(s[st.2 + i * 2] < 16);
        }
    }
    assert forall|i: int| 0 <= i < 8 implies edge_of(st, i) % 2 == 1 && edge_of(st, i) < 16 by {
        lemma_even_double(i);
        if i < 4 {
            assert(s[1 - st.1 + i * 2] < 16);
        } else {
            assert(s[1 - st.2 + i * 2] < 16);
        }
    }
}

/// Exchanging the layers keeps two squares aligned.
pub proof fn lemma_flipped(st: Aligned)
    requires
        aligned(st),
    ensures
        aligned(flipped(st)),
{
    let s = st.0;
    let r = s.reverse();
    assert(well_formed(s)) by {
        lemma_aligned(st);
    }
    lemma_reverse_well_formed(s);
    lemma_square_kinds(s);
    lemma_even_sum(8, 1);
    lemma_even_sum(0, 0);
    assert(!even(7) && !even(15));
    assert forall|i: int| 0 <= i < 8 implies ((#[trigger] r[i]) % 2 == 0) == ((r[0] % 2 == 0)
        == even(i)) by {
        lemma_even_sum(15, i);
        assert(r[i] == s[15 - i]);
        assert(r[0] == s[15]);
    }
    assert forall|i: int| 8 <= i < 16 implies ((#[trigger] r[i]) % 2 == 0) == ((r[8] % 2 == 0)
        == even(i)) by {
        lemma_even_sum(15, i);
        lemma_even_sum(7, i);
        assert(r[i] == s[15 - i]);
        assert(r[8] == s[7]);
    }
    lemma_kinds_square(r, r[0] % 2 == 0, r[8] % 2 == 0);
    assert(r[0] % 2 != s[8] % 2);
    assert(r[8] % 2 != s[0] % 2);
}

/// Turning the layers to a corner keeps two squares aligned.
pub proof fn lemma_rotated(st: Aligned, up_rot: int, down_rot: int)
    requires
        aligned(st),
        0 <= up_rot <= 3,
        0 <= down_rot <= 3,
    ensures
        aligned(rotated(st, up_rot, down_rot)),
        st.1 + up_rot * 2 <= divide(st.0),
        st.2 + down_rot * 2 <= 16 - divide(st.0),
{
    let s = st.0;
    let up = st.1 + up_rot * 2;
    let down = st.2 + down_rot * 2;
    let t = layers_turned(s, up, down);
    assert(0 <= up <= 8 && 0 <= down <= 8);
    assert(divide(s) == 8 && is_permutation(t)) by {
        lemma_square_shaped(s);
        lemma_turn_well_formed(s, up, down);
    }
    assert(square_shaped(t) && (t[0] % 2 == s[0] % 2) == even(up) && (t[8] % 2 == s[8] % 2)
        == even(down)) by {
        lemma_square_turned(s, up, down);
    }
    assert(even(up) == (st.1 == 0)) by {
        lemma_even_double(up_rot);
    }
    assert(even(down) == (st.2 == 0)) by {
        lemma_even_double(down_rot);
    }
    assert(t[0] % 2 == 0);
    assert(t[8] % 2 == 0);
}

/// The mirror image of two aligned squares is aligned.
pub proof fn lemma_mirrored(st: Aligned)
    requires
        aligned(st),
    ensures
        aligned(mirrored(st)),
{
    let s = st.0;
    let r = mirrored_at(s, 8);
    assert(well_formed(s) && divide(s) == 8) by {
        lemma_aligned(st);
    }
    lemma_mirror_well_formed(s);
    lemma_square_kinds(s);
    lemma_even_sum(8, 1);
    lemma_even_sum(8, 15);
    assert(!even(7) && !even(23));
    assert forall|i: int| 0 <= i < 16 implies (#[trigger] r[i]) % 2 == s[if i < 8 {
        7 - i
    } else {
        23 - i
    }] % 2 by {
        let j = if i < 8 {
            7 - i
        } else {
            23 - i
        };
        assert(s[j] < 16);
        lemma_mirrored_piece(s[j]);
    }
    assert forall|i: int| 0 <= i < 8 implies ((#[trigger] r[i]) % 2 == 0) == ((r[0] % 2 == 0)
        == even(i)) by {
        lemma_even_sum(7, i);
        assert(r[0] % 2 == s[7] % 2);
        assert(r[i] % 2 == s[7 - i] % 2);
    }
    assert forall|i: int| 8 <= i < 16 implies ((#[trigger] r[i]) % 2 == 0) == ((r[8] % 2 == 0)
        == even(i)) by {
        lemma_even_sum(23, i);
        assert(r[8] % 2 == s[15] % 2);
        assert(r[i] % 2 == s[23 - i] % 2);
    }
    lemma_kinds_square(r, r[0] % 2 == 0, r[8] % 2 == 0);
    assert(r[0] % 2 != s[0] % 2);
    assert(r[8] % 2 != s[8] % 2);
}

/// A renaming of the pieces that keeps their kinds keeps two squares aligned.
pub proof fn lemma_renamed_aligned(st: Aligned, t: Seq<u8>)
    requires
        aligned(st),
        is_permutation(t),
        forall|i: int| 0 <= i < 16 ==> (#[trigger] t[i]) % 2 == st.0[i] % 2,
    ensures
        aligned((t, st.1, st.2)),
{
    assert forall|i: int| 0 <= i < 7 implies (#[trigger] t[i]) % 2 != t[i + 1] % 2 by {
        assert(st.0[i] % 2 != st.0[i + 1] % 2);
        assert(t[i + 1] % 2 == st.0[i + 1] % 2);
    }
    assert forall|i: int| 8 <= i < 15 implies (#[trigger] t[i]) % 2 != t[i + 1] % 2 by {
        assert(st.0[i] % 2 != st.0[i + 1] % 2);
        assert(t[i + 1] % 2 == st.0[i + 1] % 2);
    }
}

/// The indexing of a configuration of two squares.
pub struct StateSqSq {
    pub sq1: Square1,
    pub co: usize,
    pub cp_black: usize,
    pub cp_white: usize,
    pub ep: usize,
    pub index: usize,
    pub up_alignment: usize,
    pub down_alignment: usize,
}

impl StateSqSq {
    /// The configuration with the position of the first corner in each
    /// layer.
    pub open spec fn placed(&self) -> Aligned {
        (self.sq1@, self.up_alignment as int, self.down_alignment as int)
    }

    /// The corner at place `corner_index` of the eight.
    pub fn get_corner(&self, corner_index: usize) -> (corner: u8)
        requires
            aligned(self.placed()),
            corner_index < 8,
        ensures
            corner == corner_of(self.placed(), corner_index as int),
            corner % 2 == 0,
            corner < 16,
    {
        proof {
            lemma_aligned(self.placed());
        }
        if corner_index < 4 {
            self.sq1.pieces[self.up_alignment + corner_index * 2]
        } else {
            self.sq1.pieces[self.down_alignment + corner_index * 2]
        }
    }

    /// The edge at place `edge_index` of the eight.
    pub fn get_edge(&self, edge_index: usize) -> (edge: u8)
        requires
            aligned(self.placed()),
            edge_index < 8,
        ensures
            edge == edge_of(self.placed(), edge_index as int),
            edge % 2 == 1,
            edge < 16,
    {
        proof {
            lemma_aligned(self.placed());
        }
        if edge_index < 4 {
            self.sq1.pieces[1 - self.up_alignment + edge_index * 2]
        } else {
            self.sq1.pieces[1 - self.down_alignment + edge_index * 2]
        }
    }

    /// Exchanges the layers.
    pub fn flip_layers(&mut self)
        requires
            aligned(old(self).placed()),
        ensures
            final(self).placed() == flipped(old(self).placed()),
            aligned(final(self).placed()),
            *final(self) == (StateSqSq {
                sq1: final(self).sq1,
                up_alignment: final(self).up_alignment,
                down_alignment: final(self).down_alignment,
                ..*old(self)
            }),
    {
        proof {
            lemma_aligned(self.placed());
            lemma_flipped(self.placed());
        }
        self.sq1.flip_layers();
        let up: usize = 1 - self.down_alignment;
        let down: usize = 1 - self.up_alignment;
        self.up_alignment = up;
        self.down_alignment = down;
    }

    /// Turns each layer until the corner at the given place comes first.
    pub fn rotate_layers(&mut self, up_rot: usize, down_rot: usize)
        requires
            aligned(old(self).placed()),
            up_rot <= 3,
            down_rot <= 3,
        ensures
            final(self).placed() == rotated(old(self).placed(), up_rot as int, down_rot as int),
            aligned(final(self).placed()),
            final(self).up_alignment == 0,
            final(self).down_alignment == 0,
            *final(self) == (StateSqSq {
                sq1: final(self).sq1,
                up_alignment: final(self).up_alignment,
                down_alignment: final(self).down_alignment,
                ..*old(self)
            }),
    {
        proof {
            lemma_aligned(self.placed());
            lemma_rotated(self.placed(), up_rot as int, down_rot as int);
        }
        self.sq1.turn_layers(&(self.up_alignment + up_rot * 2, self.down_alignment + down_rot * 2));
        self.up_alignment = 0;
        self.down_alignment = 0;
    }

    /// Exchanges black and white.
    pub fn flip_colors(&mut self)
        requires
            aligned(old(self).placed()),
        ensures
            final(self).placed() == (
                colours_flipped(old(self).sq1@),
                old(self).up_alignment as int,
                old(self).down_alignment as int,
            ),
            aligned(final(self).placed()),
            *final(self) == (StateSqSq { sq1: final(self).sq1, ..*old(self) }),
    {
        proof {
            lemma_aligned(self.placed());
            lemma_colour_flip_well_formed(self.sq1@);
            lemma_renamed_aligned(self.placed(), colours_flipped(self.sq1@));
        }
        self.sq1.flip_colors();
    }

    /// Takes the mirror image.
    pub fn mirror_layers(&mut self)
        requires
            aligned(old(self).placed()),
        ensures
            final(self).placed() == mirrored(old(self).placed()),
            aligned(final(self).placed()),
            *final(self) == (StateSqSq {
                sq1: final(self).sq1,
                up_alignment: final(self).up_alignment,
                down_alignment: final(self).down_alignment,
                ..*old(self)
            }),
    {
        proof {
            lemma_aligned(self.placed());
            lemma_mirrored(self.placed());
        }
        self.sq1.mirror_layers_atd(8);
        self.up_alignment = 1 - self.up_alignment;
        self.down_alignment = 1 - self.down_alignment;
    }
}

/// No symmetry turns a layer by more than three quarter turns.
pub proof fn lemma_symmetric_actions(co: int)
    ensures
        forall|i: int|
            0 <= i < symmetric_actions(co).len() ==> (#[trigger] symmetric_actions(co)[i]).up_rot
                <= 3 && symmetric_actions(co)[i].down_rot <= 3,
{
}

/// The symmetries of a line table, in its order.
fn actions_of<const N: usize>(table: &[(bool, bool, bool, usize, usize); N]) -> (actions: Vec<
    Symmetry,
>)
    ensures
        actions@ == table@.map_values(|line: (bool, bool, bool, usize, usize)| symmetry_of(line)),
{
    let mut actions: Vec<Symmetry> = Vec::new();
    let mut i: usize = 0;
    while i < N
        invariant
            i <= N,
            actions@.len() == i,
            forall|j: int| 0 <= j < i ==> #[trigger] actions@[j] == symmetry_of(table@[j]),
        decreases N - i,
    {
        let line: (bool, bool, bool, usize, usize) = table[i];
        actions.push(
            Symmetry {
                flip_l: line.0,
                flip_c: line.1,
                mirror: line.2,
                up_rot: line.3,
                down_rot: line.4,
            },
        );
        i += 1;
    }
    assert(actions@ =~= table@.map_values(
        |line: (bool, bool, bool, usize, usize)| symmetry_of(line),
    ));
    actions
}

/// The symmetries of a configuration whose corners lie as `co` says.
fn get_symmetric_actions(co: usize) -> (actions: Vec<Symmetry>)
    ensures
        actions@ == symmetric_actions(co as int),
{
    if co == 0 {
        actions_of(&CO_0)
    } else if co == 1 {
        actions_of(&CO_1)
    } else if co == 2 {
        actions_of(&CO_2)
    } else if co == 3 {
        actions_of(&CO_3)
    } else if co == 4 {
        actions_of(&CO_4)
    } else {
        let actions: Vec<Symmetry> = Vec::new();
        assert(actions@ =~= symmetric_actions(co as int));
        actions
    }
}

impl StateSqSq {
    /// Finds how the corners of the two faces lie in the layers, and brings
    /// the configuration into the position in which that is indexed.
    pub fn calc_orientation(&mut self)
        requires
            aligned(old(self).placed()),
        ensures
            final(self).placed() == orientation_sqsq(old(self).placed()).0,
            final(self).co == orientation_sqsq(old(self).placed()).1,
            final(self).co < 5,
            aligned(final(self).placed()),
            final(self).up_alignment == 0,
            final(self).down_alignment == 0,
            final(self).cp_black == old(self).cp_black,
            final(self).cp_white == old(self).cp_white,
            final(self).ep == old(self).ep,
            final(self).index == old(self).index,
    {
        let black: bool = self.get_corner(0) < 8;
        let mut count: usize = 1;
        if (self.get_corner(1) < 8) == black {
            count += 1;
        }
        if (self.get_corner(2) < 8) == black {
            count += 1;
        }
        if (self.get_corner(3) < 8) == black {
            count += 1;
        }
        if count == 1 {
            self.co = 1;
            if black {
                self.flip_layers();
            }
        } else if count == 2 {
            self.co = 2;
            let mut up_is_opp: bool = false;
            if (self.get_corner(2) < 8) == black {
                self.co += 1;
                up_is_opp = true;
            }
            if (self.get_corner(4) < 8) == (self.get_corner(6) < 8) {
                self.co += 1;
            }
            if self.co == 3 && up_is_opp {
                self.flip_layers();
            }
        } else if count == 3 {
            self.co = 1;
            if !black {
                self.flip_layers();
            }
        } else {
            self.co = 0;
            if !black {
                self.flip_layers();
            }
        }
        assert(self.placed() == faces_arranged(old(self).placed()).0);
        let mut up_rot: usize = 0;
        let mut down_rot: usize = 0;
        if self.get_corner(1) > 7 {
            up_rot = 1;
        }
        if self.get_corner(5) < 8 {
            down_rot = 1;
        }
        if self.get_corner(2) > 7 {
            up_rot = 2;
        }
        if self.get_corner(6) < 8 {
            down_rot = 2;
        }
        if self.get_corner(3) > 7 {
            up_rot = 3;
        }
        if self.get_corner(7) < 8 {
            down_rot = 3;
        }
        if self.co == 2 {
            if up_rot == 3 && self.get_corner(0) > 7 {
                up_rot = 0;
            }
            if down_rot == 3 && self.get_corner(4) < 8 {
                down_rot = 0;
            }
        } else if self.co == 3 {
            if up_rot == 3 && self.get_corner(0) > 7 {
                up_rot = 0;
            }
        }
        self.rotate_layers(up_rot, down_rot);
    }

    /// Names the colours from the first corner of each face on, and ranks
    /// the order of the edges and of the corners of each face.
    pub fn calc_permutation(&mut self)
        requires
            aligned(old(self).placed()),
            old(self).cp_black == 0,
            old(self).cp_white == 0,
            old(self).ep == 0,
        ensures
            final(self).sq1@ == recoloured_sqsq(old(self).sq1@),
            final(self).ep == lehmer(ranked_pieces(final(self).sq1@, PieceKind::Edge, false)) / 2,
            final(self).cp_black == lehmer(
                ranked_pieces(final(self).sq1@, PieceKind::BlackCorner, true),
            ),
            final(self).cp_white == lehmer(
                ranked_pieces(final(self).sq1@, PieceKind::WhiteCorner, true),
            ),
            final(self).ep < 20160,
            final(self).cp_black < 6,
            final(self).cp_white < 6,
            aligned(final(self).placed()),
            final(self).co == old(self).co,
            final(self).index == old(self).index,
            final(self).up_alignment == old(self).up_alignment,
            final(self).down_alignment == old(self).down_alignment,
    {
        proof {
            lemma_aligned(self.placed());
        }
        let found = corner_gaps(&self.sq1);
        proof {
            let up = (first_of(self.sq1@, is_black_corner(), 0) / 2) as int;
            let down = first_of(self.sq1@, is_white_corner(), 0) / 2 - 4;
            lemma_cycle_well_formed(self.sq1@, up, down);
            lemma_renamed_aligned(self.placed(), colours_cycled(self.sq1@, up, down));
        }
        self.sq1.cycle_colors(&(found.1.unwrap(), found.2.unwrap()));
        proof {
            lemma_permutation_counts(self.sq1@);
            lemma_fact_values();
            lemma_pick_len(self.sq1@, is_edge());
            lemma_pick_len(self.sq1@, is_black_corner());
            lemma_pick_len(self.sq1@, is_white_corner());
        }
        self.cp_black += rank_of(&self.sq1, PieceKind::BlackCorner, true);
        self.cp_white += rank_of(&self.sq1, PieceKind::WhiteCorner, true);
        self.ep += rank_of(&self.sq1, PieceKind::Edge, false);
        self.ep = self.ep / 2;
    }

    /// Puts the parts of the index together.
    pub fn combine_to_index(&mut self)
        requires
            old(self).ep < 20160,
            old(self).co < 5,
            old(self).cp_black < 6,
            old(self).cp_white < 6,
        ensures
            final(self).index == combined_sqsq(
                old(self).ep as int,
                old(self).co as int,
                old(self).cp_black as int,
                old(self).cp_white as int,
            ),
            final(self).index < 3_628_800,
            *final(self) == (StateSqSq { index: final(self).index, ..*old(self) }),
    {
        self.index = self.ep;
        self.index = self.index * 5 + self.co;
        self.index = self.index * 6 + self.cp_black;
        self.index = self.index * 6 + self.cp_white;
    }

    /// Computes the index of the configuration.
    pub fn calc_index(&mut self)
        requires
            aligned(old(self).placed()),
            old(self).cp_black == 0,
            old(self).cp_white == 0,
            old(self).ep == 0,
        ensures
            final(self).sq1@ == recoloured_sqsq(orientation_sqsq(old(self).placed()).0.0),
            final(self).co == orientation_sqsq(old(self).placed()).1,
            final(self).index == ranked_sqsq(
                orientation_sqsq(old(self).placed()).0.0,
                orientation_sqsq(old(self).placed()).1,
            ),
            final(self).index < 3_628_800,
            final(self).co < 5,
            aligned(final(self).placed()),
            final(self).up_alignment == 0,
            final(self).down_alignment == 0,
    {
        self.calc_orientation();
        self.calc_permutation();
        self.combine_to_index();
    }
}

impl State for StateSqSq {
    const NAME: &'static str = "sqsq";

    const SIZE: usize = 3_628_800;

    const MAX_SLICES: u8 = 9;

    open spec fn indexable(s: Seq<u8>) -> bool {
        well_formed(s) && square_shaped(s)
    }

    open spec fn canonical_of(s: Seq<u8>) -> Seq<u8> {
        recoloured_sqsq(orientation_sqsq(as_given(s)).0.0)
    }

    open spec fn index_of(s: Seq<u8>) -> nat {
        index_sqsq(s) as nat
    }

    open spec fn symmetric_of(s: Seq<u8>) -> Seq<nat> {
        let co = orientation_sqsq(as_given(s)).1;
        symmetric_sqsq(
            recoloured_sqsq(orientation_sqsq(as_given(s)).0.0),
            co,
            symmetric_actions(co),
            symmetric_actions(co).len() as int,
        )
    }

    open spec fn successors_of(s: Seq<u8>) -> Seq<u64> {
        packed_all(turned_and_sliced(s, turns_view(unique_turns_sqsq(s)), 16))
    }

    open spec fn wf(&self) -> bool {
        &&& aligned(self.placed())
        &&& self.up_alignment == 0
        &&& self.down_alignment == 0
        &&& self.co < 5
        &&& self.index < 3_628_800
    }

    open spec fn spec_pieces(&self) -> Seq<u8> {
        self.sq1@
    }

    open spec fn spec_index(&self) -> nat {
        self.index as nat
    }

    open spec fn spec_symmetric(&self) -> Seq<nat> {
        symmetric_sqsq(
            self.sq1@,
            self.co as int,
            symmetric_actions(self.co as int),
            symmetric_actions(self.co as int).len() as int,
        )
    }

    fn new(sq1: Square1) -> (state: Self) {
        let up_alignment: usize = (sq1.pieces[0] % 2) as usize;
        let down_alignment: usize = (sq1.pieces[8] % 2) as usize;
        let mut state: Self = Self {
            sq1,
            co: 0,
            cp_black: 0,
            cp_white: 0,
            ep: 0,
            index: 0,
            up_alignment,
            down_alignment,
        };
        state.calc_index();
        state
    }

    fn get_index(&self) -> (index: usize) {
        self.index
    }

    fn get_symmetric_indecies(&mut self) -> (indices: Vec<usize>) {
        let sq1: Square1 = self.sq1;
        let actions: Vec<Symmetry> = get_symmetric_actions(self.co);
        let mut indices: Vec<usize> = Vec::new();
        let ghost co = self.co as int;
        let mut i: usize = 0;
        proof {
            lemma_symmetric_actions(co);
        }
        assert(indices_view(indices@) =~= symmetric_sqsq(sq1@, co, actions@, 0));
        while i < actions.len()
            invariant
                i <= actions@.len(),
                actions@ == symmetric_actions(co),
                forall|j: int|
                    0 <= j < actions@.len() ==> (#[trigger] actions@[j]).up_rot <= 3
                        && actions@[j].down_rot <= 3,
                sq1 == old(self).sq1,
                self.sq1 == sq1,
                aligned(self.placed()),
                self.up_alignment == 0,
                self.down_alignment == 0,
                self.co == co,
                co < 5,
                self.index < 3_628_800,
                indices_view(indices@) == symmetric_sqsq(sq1@, co, actions@, i as int),
                forall|j: int| 0 <= j < indices@.len() ==> #[trigger] indices@[j] < 3_628_800,
            decreases actions@.len() - i,
        {
            let action: Symmetry = actions[i];
            if action.flip_l {
                self.flip_layers();
            }
            if action.flip_c {
                self.flip_colors();
            }
            if action.mirror {
                self.mirror_layers();
            }
            self.rotate_layers(action.up_rot, action.down_rot);
            assert(self.placed() == applied(action, (sq1@, 0, 0)));
            self.cp_black = 0;
            self.cp_white = 0;
            self.ep = 0;
            self.calc_permutation();
            self.combine_to_index();
            self.sq1 = sq1;
            let ghost before = indices_view(indices@);
            indices.push(self.index);
            assert(indices_view(indices@) =~= before.push(self.index as nat));
            i += 1;
        }
        indices
    }

    fn get_square1_num(&self) -> (num: u64) {
        proof {
            lemma_aligned(self.placed());
        }
        self.sq1.get_num()
    }

    fn gen_next_positions(sq1num: u64) -> (next: Vec<u64>) {
        let base: Square1 = Square1::from_num(sq1num);
        let table: [(usize, usize); 16] = base.get_unique_turns_sqsq();
        let mut turns: Vec<(usize, usize)> = Vec::new();
        let mut i: usize = 0;
        while i < 16
            invariant
                i <= 16,
                turns@.len() == i,
                forall|j: int| 0 <= j < i ==> #[trigger] turns@[j] == table@[j],
            decreases 16 - i,
        {
            turns.push(table[i]);
            i += 1;
        }
        proof {
            assert(turns@ =~= table@);
            lemma_square_shaped(base@);
            lemma_table_turns(base@);
            assert forall|j: int| 0 <= j < 16 implies turn_allows_slice(
                base@,
                (#[trigger] turns@[j]).0 as int,
                turns@[j].1 as int,
            ) by {
                lemma_square_turn(base@, turns@[j].0 as int, turns@[j].1 as int);
            }
        }
        let next: Vec<u64> = turn_and_slice(&base, &turns);
        proof {
            lemma_turned_and_sliced(base@, turns_view(turns@), 16);
            assert forall|j: int| 0 <= j < next@.len() implies Self::indexable(
                unpacked(#[trigger] next@[j] as nat, 16),
            ) by {
                assert(positions_view(next@)[j] == unpacked(next@[j] as nat, 16));
                assert(turns_view(turns@)[j] == (turns@[j].0 as int, turns@[j].1 as int));
                lemma_square_turn(base@, turns@[j].0 as int, turns@[j].1 as int);
            }
        }
        next
    }

    fn accepts(sq1: &Square1) -> (r: bool) {
        sq1.is_well_formed() && sq1.is_square_shaped()
    }

    proof fn lemma_scheme() {
        crate::square1::lemma_solved();
    }
}

/// Each unique turn of two squares turns no layer by more than seven
/// pieces, and leaves the first pieces of the layers different in kind.
pub proof fn lemma_table_turns(s: Seq<u8>)
    requires
        s.len() == 16,
    ensures
        forall|j: int|
            0 <= j < 16 ==> {
                let t = #[trigger] unique_turns_sqsq(s)[j];
                &&& t.0 <= 8
                &&& t.1 <= 8
                &&& (!even(t.0 + t.1) <==> s[0] % 2 != s[15] % 2)
            },
{
    reveal(even);
}

/// The number of indices of the indexing of two squares, and its greatest
/// depth.
pub proof fn lemma_size_sqsq()
    ensures
        StateSqSq::SIZE == 3_628_800,
        StateSqSq::MAX_SLICES == 9,
{
}

} // verus!
