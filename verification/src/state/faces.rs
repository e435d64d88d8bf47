//! The faces of the eight corners of two squares, and what the symmetries of
//! the indexing of two squares do to them: every symmetric index is the index
//! of the configuration that the symmetry makes.
use vstd::prelude::*;
use crate::counting::{count, lemma_count_take};
use crate::square1::{
    colour_flipped_piece, colours_cycled, colours_flipped, cycled_piece, divide, is_black_corner,
    is_white_corner, layers_turned, lemma_cycled_piece, lemma_layers_turned_pieces,
    lemma_mirrored_piece, lemma_permutation_counts, mirrored_at, mirrored_piece,
};
use crate::state::stateall::{first_of, lemma_first_of};
use crate::state::statesqsq::{
    aligned, applied, as_given, corner_of, faces_arranged, first_corners, flipped, lemma_aligned,
    lemma_flipped, lemma_mirrored, lemma_renamed_aligned, lemma_rotated, lemma_symmetric_actions,
    mirrored, orientation_sqsq, ranked_sqsq, recoloured_sqsq, rotated, symmetric_actions,
    symmetric_sqsq, Aligned, StateSqSq,
};
use crate::state::State;
use crate::state::symmetry::Symmetry;

verus! {

/// For each of the eight corners whether it is black, counted through the
/// upper layer and then through the lower one.
pub type Faces = (bool, bool, bool, bool, bool, bool, bool, bool);

/// Whether the corner at place `i` is black.
pub open spec fn face(f: Faces, i: int) -> bool {
    if i == 0 {
        f.0
    } else if i == 1 {
        f.1
    } else if i == 2 {
        f.2
    } else if i == 3 {
        f.3
    } else if i == 4 {
        f.4
    } else if i == 5 {
        f.5
    } else if i == 6 {
        f.6
    } else {
        f.7
    }
}

/// The number of black corners.
pub open spec fn blacks(f: Faces) -> int {
    (if f.0 {
        1int
    } else {
        0int
    }) + (if f.1 {
        1int
    } else {
        0int
    }) + (if f.2 {
        1int
    } else {
        0int
    }) + (if f.3 {
        1int
    } else {
        0int
    }) + (if f.4 {
        1int
    } else {
        0int
    }) + (if f.5 {
        1int
    } else {
        0int
    }) + (if f.6 {
        1int
    } else {
        0int
    }) + (if f.7 {
        1int
    } else {
        0int
    })
}

/// The faces with the layers exchanged.
pub open spec fn faces_flipped(f: Faces) -> Faces {
    (f.7, f.6, f.5, f.4, f.3, f.2, f.1, f.0)
}

/// The faces with the colours exchanged.
pub open spec fn faces_recoloured(f: Faces) -> Faces {
    (!f.0, !f.1, !f.2, !f.3, !f.4, !f.5, !f.6, !f.7)
}

/// The faces of the mirror image.
pub open spec fn faces_mirrored(f: Faces) -> Faces {
    (!f.3, !f.2, !f.1, !f.0, !f.7, !f.6, !f.5, !f.4)
}

/// The place that comes to the place `i` of a layer when the layer is
/// turned by `rot` corners.
pub open spec fn turned_place(i: int, rot: int) -> int {
    if i + rot < 4 {
        i + rot
    } else {
        i + rot - 4
    }
}

/// The faces with each layer turned until the corner at the given place
/// comes first.
pub open spec fn faces_rotated(f: Faces, up_rot: int, down_rot: int) -> Faces {
    (
        face(f, turned_place(0, up_rot)),
        face(f, turned_place(1, up_rot)),
        face(f, turned_place(2, up_rot)),
        face(f, turned_place(3, up_rot)),
        face(f, 4 + turned_place(0, down_rot)),
        face(f, 4 + turned_place(1, down_rot)),
        face(f, 4 + turned_place(2, down_rot)),
        face(f, 4 + turned_place(3, down_rot)),
    )
}

/// What the faces decide: whether the layers are exchanged, the number of
/// the arrangement, and the corner of each layer that comes first.
pub open spec fn decided(f: Faces) -> (bool, int, int, int) {
    let count = 1 + (if f.1 == f.0 {
        1int
    } else {
        0int
    }) + (if f.2 == f.0 {
        1int
    } else {
        0int
    }) + (if f.3 == f.0 {
        1int
    } else {
        0int
    });
    let co = if count == 1 || count == 3 {
        1
    } else if count == 2 {
        2 + (if f.2 == f.0 {
            1int
        } else {
            0int
        }) + (if f.4 == f.6 {
            1int
        } else {
            0int
        })
    } else {
        0
    };
    let flip = if count == 1 {
        f.0
    } else if count == 2 {
        co == 3 && f.2 == f.0
    } else {
        !f.0
    };
    let a = if flip {
        faces_flipped(f)
    } else {
        f
    };
    let up = if !a.3 {
        3int
    } else if !a.2 {
        2int
    } else if !a.1 {
        1int
    } else {
        0int
    };
    let down = if a.7 {
        3int
    } else if a.6 {
        2int
    } else if a.5 {
        1int
    } else {
        0int
    };
    (
        flip,
        co,
        if (co == 2 || co == 3) && up == 3 && !a.0 {
            0
        } else {
            up
        },
        if co == 2 && down == 3 && a.4 {
            0
        } else {
            down
        },
    )
}

/// The faces in the position in which the arrangement is indexed.
pub open spec fn faces_oriented(f: Faces) -> Faces {
    let d = decided(f);
    faces_rotated(
        if d.0 {
            faces_flipped(f)
        } else {
            f
        },
        d.2,
        d.3,
    )
}

/// The faces of the one position in which an arrangement is indexed.
pub open spec fn canonical_faces(co: int) -> Faces {
    if co == 0 {
        (true, true, true, true, false, false, false, false)
    } else if co == 1 {
        (false, true, true, true, true, false, false, false)
    } else if co == 2 {
        (false, true, true, false, true, false, false, true)
    } else if co == 3 {
        (false, true, true, false, true, false, true, false)
    } else {
        (false, true, false, true, true, false, true, false)
    }
}

/// The faces that a symmetry makes.
pub open spec fn faces_applied(a: Symmetry, f: Faces) -> Faces {
    let flipped = if a.flip_l {
        faces_flipped(f)
    } else {
        f
    };
    let recoloured = if a.flip_c {
        faces_recoloured(flipped)
    } else {
        flipped
    };
    let mirrored = if a.mirror {
        faces_mirrored(recoloured)
    } else {
        recoloured
    };
    faces_rotated(mirrored, a.up_rot as int, a.down_rot as int)
}

/// Whatever the corners of four black and four white faces are, the position
/// in which their arrangement is indexed shows the faces of that
/// arrangement.
pub proof fn lemma_faces_oriented(f: Faces)
    requires
        blacks(f) == 4,
    ensures
        0 <= decided(f).1 <= 4,
        0 <= decided(f).2 <= 3,
        0 <= decided(f).3 <= 3,
        faces_oriented(f) == canonical_faces(decided(f).1),
{
}

/// The turns that the indexing makes of the position in which an
/// arrangement is indexed: none, but for the arrangements with opposite
/// corners in a layer, which look the same after a half turn.
pub open spec fn settled(co: int) -> (int, int) {
    if co == 3 {
        (0, 2)
    } else if co == 4 {
        (2, 2)
    } else {
        (0, 0)
    }
}

/// The faces of an arrangement lie in the position in which it is indexed:
/// they decide for no exchange, and for no turn or one that leaves them as
/// they are.
pub proof fn lemma_canonical_faces(co: int)
    requires
        0 <= co <= 4,
    ensures
        decided(canonical_faces(co)) == (false, co, settled(co).0, settled(co).1),
        faces_rotated(canonical_faces(co), settled(co).0, settled(co).1) == canonical_faces(co),
        blacks(canonical_faces(co)) == 4,
{
}

/// Every symmetry of an arrangement leaves its faces as they are.
pub proof fn lemma_faces_kept(co: int, i: int)
    requires
        0 <= co <= 4,
        0 <= i < symmetric_actions(co).len(),
    ensures
        faces_applied(symmetric_actions(co)[i], canonical_faces(co)) == canonical_faces(co),
{
}

/// The faces of the corners of two squares.
pub open spec fn faces_of(st: Aligned) -> Faces {
    (
        corner_of(st, 0) < 8,
        corner_of(st, 1) < 8,
        corner_of(st, 2) < 8,
        corner_of(st, 3) < 8,
        corner_of(st, 4) < 8,
        corner_of(st, 5) < 8,
        corner_of(st, 6) < 8,
        corner_of(st, 7) < 8,
    )
}

/// Exchanging the layers brings the corners into the opposite order.
pub proof fn lemma_corners_flipped(st: Aligned, i: int)
    requires
        aligned(st),
        0 <= i < 8,
    ensures
        corner_of(flipped(st), i) == corner_of(st, 7 - i),
{
    lemma_aligned(st);
}

/// The mirror image holds the mirror images of the corners, each layer in
/// the opposite order.
pub proof fn lemma_corners_mirrored(st: Aligned, i: int)
    requires
        aligned(st),
        0 <= i < 8,
    ensures
        corner_of(mirrored(st), i) == mirrored_piece(
            corner_of(
                st,
                if i < 4 {
                    3 - i
                } else {
                    11 - i
                },
            ),
        ),
{
    lemma_aligned(st);
    let s = st.0;
    let m = mirrored_at(s, 8);
    let j = if i < 4 {
        1 - st.1 + i * 2
    } else {
        1 - st.2 + i * 2
    };
    assert(m[j] == mirrored_piece(
        s[if j < 8 {
            7 - j
        } else {
            23 - j
        }],
    ));
}

/// Turning the layers brings the corners round.
pub proof fn lemma_corners_rotated(st: Aligned, up_rot: int, down_rot: int, i: int)
    requires
        aligned(st),
        0 <= up_rot <= 3,
        0 <= down_rot <= 3,
        0 <= i < 8,
    ensures
        corner_of(rotated(st, up_rot, down_rot), i) == corner_of(
            st,
            if i < 4 {
                turned_place(i, up_rot)
            } else {
                4 + turned_place(i - 4, down_rot)
            },
        ),
{
    let s = st.0;
    let up = st.1 + up_rot * 2;
    let down = st.2 + down_rot * 2;
    assert(divide(s) == 8 && s.len() == 16 && 0 <= st.1 <= 1 && 0 <= st.2 <= 1) by {
        lemma_aligned(st);
    }
    lemma_layers_turned_pieces(s, up, down);
    let t = layers_turned(s, up, down);
    if i < 4 {
        if i + up_rot < 4 {
            assert(t[i * 2] == s[i * 2 + up]);
        } else {
            assert(t[i * 2] == s[i * 2 - (8 - up)]);
        }
    } else {
        if i - 4 + down_rot < 4 {
            assert(t[i * 2] == s[i * 2 + down]);
        } else {
            assert(t[i * 2] == s[i * 2 - (8 - down)]);
        }
    }
}

/// The faces after the layers are exchanged.
pub proof fn lemma_faces_flipped(st: Aligned)
    requires
        aligned(st),
    ensures
        faces_of(flipped(st)) == faces_flipped(faces_of(st)),
        aligned(flipped(st)),
{
    lemma_flipped(st);
    lemma_corners_flipped(st, 0);
    lemma_corners_flipped(st, 1);
    lemma_corners_flipped(st, 2);
    lemma_corners_flipped(st, 3);
    lemma_corners_flipped(st, 4);
    lemma_corners_flipped(st, 5);
    lemma_corners_flipped(st, 6);
    lemma_corners_flipped(st, 7);
}

/// The face of the mirror image of the corner at place `i`.
pub proof fn lemma_face_mirrored(st: Aligned, i: int)
    requires
        aligned(st),
        0 <= i < 8,
    ensures
        (corner_of(mirrored(st), i) < 8) == !(corner_of(
            st,
            if i < 4 {
                3 - i
            } else {
                11 - i
            },
        ) < 8),
{
    lemma_aligned(st);
    lemma_corners_mirrored(st, i);
    let j = if i < 4 {
        3 - i
    } else {
        11 - i
    };
    assert(corner_of(st, j) < 16);
    lemma_mirrored_piece(corner_of(st, j));
}

/// The faces of the mirror image.
pub proof fn lemma_faces_mirrored(st: Aligned)
    requires
        aligned(st),
    ensures
        faces_of(mirrored(st)) == faces_mirrored(faces_of(st)),
        aligned(mirrored(st)),
{
    lemma_mirrored(st);
    lemma_face_mirrored(st, 0);
    lemma_face_mirrored(st, 1);
    lemma_face_mirrored(st, 2);
    lemma_face_mirrored(st, 3);
    lemma_face_mirrored(st, 4);
    lemma_face_mirrored(st, 5);
    lemma_face_mirrored(st, 6);
    lemma_face_mirrored(st, 7);
}

/// The faces after the layers are turned.
pub proof fn lemma_faces_rotated(st: Aligned, up_rot: int, down_rot: int)
    requires
        aligned(st),
        0 <= up_rot <= 3,
        0 <= down_rot <= 3,
    ensures
        faces_of(rotated(st, up_rot, down_rot)) == faces_rotated(faces_of(st), up_rot, down_rot),
        aligned(rotated(st, up_rot, down_rot)),
        rotated(st, up_rot, down_rot).1 == 0,
        rotated(st, up_rot, down_rot).2 == 0,
{
    assert(aligned(rotated(st, up_rot, down_rot))) by {
        lemma_rotated(st, up_rot, down_rot);
    }
    lemma_corners_rotated(st, up_rot, down_rot, 0);
    lemma_corners_rotated(st, up_rot, down_rot, 1);
    lemma_corners_rotated(st, up_rot, down_rot, 2);
    lemma_corners_rotated(st, up_rot, down_rot, 3);
    lemma_corners_rotated(st, up_rot, down_rot, 4);
    lemma_corners_rotated(st, up_rot, down_rot, 5);
    lemma_corners_rotated(st, up_rot, down_rot, 6);
    lemma_corners_rotated(st, up_rot, down_rot, 7);
}

/// The faces after the colours are exchanged.
pub proof fn lemma_faces_recoloured(st: Aligned)
    requires
        aligned(st),
    ensures
        faces_of((colours_flipped(st.0), st.1, st.2)) == faces_recoloured(faces_of(st)),
        aligned((colours_flipped(st.0), st.1, st.2)),
{
    lemma_aligned(st);
    crate::square1::lemma_colour_flip_well_formed(st.0);
    lemma_renamed_aligned(st, colours_flipped(st.0));
    let after = (colours_flipped(st.0), st.1, st.2);
    assert forall|i: int| 0 <= i < 8 implies (corner_of(after, i) < 8) == !(corner_of(st, i)
        < 8) by {
        assert(corner_of(st, i) < 16 && corner_of(st, i) % 2 == 0);
        assert(corner_of(after, i) == colour_flipped_piece(corner_of(st, i)));
    }
    assert((corner_of(after, 0) < 8) == !(corner_of(st, 0) < 8));
    assert((corner_of(after, 1) < 8) == !(corner_of(st, 1) < 8));
    assert((corner_of(after, 2) < 8) == !(corner_of(st, 2) < 8));
    assert((corner_of(after, 3) < 8) == !(corner_of(st, 3) < 8));
    assert((corner_of(after, 4) < 8) == !(corner_of(st, 4) < 8));
    assert((corner_of(after, 5) < 8) == !(corner_of(st, 5) < 8));
    assert((corner_of(after, 6) < 8) == !(corner_of(st, 6) < 8));
    assert((corner_of(after, 7) < 8) == !(corner_of(st, 7) < 8));
}

/// Cycling the colours keeps the faces.
pub proof fn lemma_faces_cycled(st: Aligned, up: int, down: int)
    requires
        aligned(st),
        0 <= up <= 4,
        0 <= down <= 4,
    ensures
        faces_of((colours_cycled(st.0, up, down), st.1, st.2)) == faces_of(st),
        aligned((colours_cycled(st.0, up, down), st.1, st.2)),
{
    lemma_aligned(st);
    crate::square1::lemma_cycle_well_formed(st.0, up, down);
    lemma_renamed_aligned(st, colours_cycled(st.0, up, down));
    let after = (colours_cycled(st.0, up, down), st.1, st.2);
    assert forall|i: int| 0 <= i < 8 implies (corner_of(after, i) < 8) == (corner_of(st, i)
        < 8) by {
        assert(corner_of(st, i) < 16);
        lemma_cycled_piece(corner_of(st, i), up, down);
    }
    assert((corner_of(after, 0) < 8) == (corner_of(st, 0) < 8));
    assert((corner_of(after, 1) < 8) == (corner_of(st, 1) < 8));
    assert((corner_of(after, 2) < 8) == (corner_of(st, 2) < 8));
    assert((corner_of(after, 3) < 8) == (corner_of(st, 3) < 8));
    assert((corner_of(after, 4) < 8) == (corner_of(st, 4) < 8));
    assert((corner_of(after, 5) < 8) == (corner_of(st, 5) < 8));
    assert((corner_of(after, 6) < 8) == (corner_of(st, 6) < 8));
    assert((corner_of(after, 7) < 8) == (corner_of(st, 7) < 8));
}

/// The position in which the arrangement of the faces is indexed is what
/// the faces decide.
pub proof fn lemma_orientation_decided(st: Aligned)
    requires
        aligned(st),
    ensures
        orientation_sqsq(st) == (
            rotated(
                if decided(faces_of(st)).0 {
                    flipped(st)
                } else {
                    st
                },
                decided(faces_of(st)).2,
                decided(faces_of(st)).3,
            ),
            decided(faces_of(st)).1,
        ),
{
    let f = faces_of(st);
    let d = decided(f);
    let a = faces_arranged(st);
    assert(a.1 == d.1);
    assert(a.0 == if d.0 {
        flipped(st)
    } else {
        st
    });
    if d.0 {
        lemma_faces_flipped(st);
    }
    let r = first_corners(a.0, a.1);
    assert(r == (d.2, d.3));
}

/// Four of the corners of two squares are black.
pub proof fn lemma_four_blacks(st: Aligned)
    requires
        aligned(st),
    ensures
        blacks(faces_of(st)) == 4,
{
    let s = st.0;
    let kind = is_black_corner();
    lemma_aligned(st);
    lemma_permutation_counts(s);
    assert(s.take(0).len() == 0);
    assert(count(s.take(0), kind) == 0);
    lemma_count_take(s, 0, kind);
    lemma_count_take(s, 1, kind);
    lemma_count_take(s, 2, kind);
    lemma_count_take(s, 3, kind);
    lemma_count_take(s, 4, kind);
    lemma_count_take(s, 5, kind);
    lemma_count_take(s, 6, kind);
    lemma_count_take(s, 7, kind);
    lemma_count_take(s, 8, kind);
    lemma_count_take(s, 9, kind);
    lemma_count_take(s, 10, kind);
    lemma_count_take(s, 11, kind);
    lemma_count_take(s, 12, kind);
    lemma_count_take(s, 13, kind);
    lemma_count_take(s, 14, kind);
    lemma_count_take(s, 15, kind);
    assert(s.take(16) =~= s);
    assert forall|i: int| 0 <= i < 4 implies kind(s[st.1 + i * 2]) == (corner_of(st, i) < 8)
        && !kind(s[1 - st.1 + i * 2]) by {
        assert(corner_of(st, i) % 2 == 0);
        assert(crate::state::statesqsq::edge_of(st, i) % 2 == 1);
    }
    assert forall|i: int| 4 <= i < 8 implies kind(s[st.2 + i * 2]) == (corner_of(st, i) < 8)
        && !kind(s[1 - st.2 + i * 2]) by {
        assert(corner_of(st, i) % 2 == 0);
        assert(crate::state::statesqsq::edge_of(st, i) % 2 == 1);
    }
    assert(kind(s[st.1 + 0 * 2]) == (corner_of(st, 0) < 8) && !kind(s[1 - st.1 + 0 * 2]));
    assert(kind(s[st.1 + 1 * 2]) == (corner_of(st, 1) < 8) && !kind(s[1 - st.1 + 1 * 2]));
    assert(kind(s[st.1 + 2 * 2]) == (corner_of(st, 2) < 8) && !kind(s[1 - st.1 + 2 * 2]));
    assert(kind(s[st.1 + 3 * 2]) == (corner_of(st, 3) < 8) && !kind(s[1 - st.1 + 3 * 2]));
    assert(kind(s[st.2 + 4 * 2]) == (corner_of(st, 4) < 8) && !kind(s[1 - st.2 + 4 * 2]));
    assert(kind(s[st.2 + 5 * 2]) == (corner_of(st, 5) < 8) && !kind(s[1 - st.2 + 5 * 2]));
    assert(kind(s[st.2 + 6 * 2]) == (corner_of(st, 6) < 8) && !kind(s[1 - st.2 + 6 * 2]));
    assert(kind(s[st.2 + 7 * 2]) == (corner_of(st, 7) < 8) && !kind(s[1 - st.2 + 7 * 2]));
}

/// The position in which the arrangement of the faces is indexed: two
/// squares with the first corners in front, whose faces are those of the
/// arrangement.
pub proof fn lemma_oriented(st: Aligned)
    requires
        aligned(st),
    ensures
        aligned(orientation_sqsq(st).0),
        orientation_sqsq(st).0.1 == 0,
        orientation_sqsq(st).0.2 == 0,
        0 <= orientation_sqsq(st).1 <= 4,
        faces_of(orientation_sqsq(st).0) == canonical_faces(orientation_sqsq(st).1),
{
    let f = faces_of(st);
    let d = decided(f);
    lemma_four_blacks(st);
    lemma_faces_oriented(f);
    lemma_orientation_decided(st);
    lemma_faces_flipped(st);
    let a = if d.0 {
        flipped(st)
    } else {
        st
    };
    lemma_faces_rotated(a, d.2, d.3);
}

/// Two squares whose faces lie in the position in which their arrangement is
/// indexed are turned by the indexing as far as `settled` says, and no
/// further.
pub proof fn lemma_settled(st: Aligned, co: int)
    requires
        aligned(st),
        0 <= co <= 4,
        faces_of(st) == canonical_faces(co),
    ensures
        orientation_sqsq(st) == (rotated(st, settled(co).0, settled(co).1), co),
{
    lemma_canonical_faces(co);
    lemma_orientation_decided(st);
}

/// The faces that a symmetry makes of two squares.
pub proof fn lemma_faces_applied(a: Symmetry, st: Aligned)
    requires
        aligned(st),
        a.up_rot <= 3,
        a.down_rot <= 3,
    ensures
        aligned(applied(a, st)),
        applied(a, st).1 == 0,
        applied(a, st).2 == 0,
        faces_of(applied(a, st)) == faces_applied(a, faces_of(st)),
{
    let f = if a.flip_l {
        flipped(st)
    } else {
        st
    };
    lemma_faces_flipped(st);
    let c = if a.flip_c {
        (colours_flipped(f.0), f.1, f.2)
    } else {
        f
    };
    lemma_faces_recoloured(f);
    let m = if a.mirror {
        mirrored(c)
    } else {
        c
    };
    lemma_faces_mirrored(c);
    lemma_faces_rotated(m, a.up_rot as int, a.down_rot as int);
}

/// Turning the layers of two squares twice is turning them once by both
/// turns together.
pub proof fn lemma_rotated_twice(st: Aligned, r1: int, r2: int, su: int, sd: int)
    requires
        aligned(st),
        0 <= r1 <= 3,
        0 <= r2 <= 3,
        0 <= su <= 3,
        0 <= sd <= 3,
    ensures
        rotated(rotated(st, r1, r2), su, sd) == rotated(
            st,
            turned_place(r1, su),
            turned_place(r2, sd),
        ),
{
    let s = st.0;
    let first = rotated(st, r1, r2);
    let a = st.1 + r1 * 2;
    let b = st.2 + r2 * 2;
    assert(divide(s) == 8 && s.len() == 16 && 0 <= st.1 <= 1 && 0 <= st.2 <= 1) by {
        lemma_aligned(st);
    }
    assert(divide(first.0) == 8 && first.0.len() == 16) by {
        lemma_rotated(st, r1, r2);
        lemma_aligned(first);
    }
    let t1 = first.0;
    let t2 = layers_turned(t1, su * 2, sd * 2);
    let a2 = st.1 + turned_place(r1, su) * 2;
    let b2 = st.2 + turned_place(r2, sd) * 2;
    let target = layers_turned(s, a2, b2);
    lemma_layers_turned_pieces(s, a, b);
    lemma_layers_turned_pieces(t1, su * 2, sd * 2);
    lemma_layers_turned_pieces(s, a2, b2);
    assert forall|j: int| 0 <= j < 16 implies t2[j] == target[j] by {
        if j < 8 {
            let k = if j < 8 - su * 2 {
                j + su * 2
            } else {
                j - (8 - su * 2)
            };
            assert(t2[j] == t1[k]);
            assert(t1[k] == s[if k < 8 - a {
                k + a
            } else {
                k - (8 - a)
            }]);
        } else {
            let k = if j < 16 - sd * 2 {
                j + sd * 2
            } else {
                j - (8 - sd * 2)
            };
            assert(t2[j] == t1[k]);
            assert(t1[k] == s[if k < 16 - b {
                k + b
            } else {
                k - (8 - b)
            }]);
        }
    }
    assert(t2 =~= target);
}

/// The symmetry with its turns grown by the turns that the indexing makes
/// of the position of the arrangement.
pub open spec fn resettled(a: Symmetry, co: int) -> Symmetry {
    Symmetry {
        flip_l: a.flip_l,
        flip_c: a.flip_c,
        mirror: a.mirror,
        up_rot: turned_place(a.up_rot as int, settled(co).0) as usize,
        down_rot: turned_place(a.down_rot as int, settled(co).1) as usize,
    }
}

/// The place in the list of symmetries of the symmetry that the indexing
/// makes of the one at place `i`; minus one where it makes no symmetry at
/// all of it.
pub open spec fn partner(co: int, i: int) -> int {
    if co == 3 {
        if i < 3 {
            i + 4
        } else if i == 3 {
            -1
        } else {
            i - 4
        }
    } else if co == 4 {
        if i < 7 {
            i + 24
        } else if i < 15 {
            i + 8
        } else if i < 23 {
            i - 8
        } else if i == 23 {
            -1
        } else {
            i - 24
        }
    } else {
        i
    }
}

/// The symmetry that changes nothing.
pub open spec fn no_symmetry() -> Symmetry {
    Symmetry { flip_l: false, flip_c: false, mirror: false, up_rot: 0, down_rot: 0 }
}

/// The indexing makes of each symmetry of an arrangement another symmetry
/// of the arrangement, or none.
pub proof fn lemma_partner(co: int, i: int)
    requires
        0 <= co <= 4,
        0 <= i < symmetric_actions(co).len(),
    ensures
        -1 <= partner(co, i) < symmetric_actions(co).len(),
        resettled(symmetric_actions(co)[i], co) == if partner(co, i) == -1 {
            no_symmetry()
        } else {
            symmetric_actions(co)[partner(co, i)]
        },
{
}

/// What the symmetric indices are: for each symmetry the index of the
/// configuration that it makes, taken as it lies.
pub proof fn lemma_symmetric_sqsq(s: Seq<u8>, co: int, actions: Seq<Symmetry>, n: int)
    requires
        0 <= n <= actions.len(),
    ensures
        symmetric_sqsq(s, co, actions, n).len() == n,
        forall|j: int|
            0 <= j < n ==> #[trigger] symmetric_sqsq(s, co, actions, n)[j] == ranked_sqsq(
                applied(actions[j], (s, 0, 0)).0,
                co,
            ) as nat,
    decreases n,
{
    if n > 0 {
        lemma_symmetric_sqsq(s, co, actions, n - 1);
        let before = symmetric_sqsq(s, co, actions, n - 1);
        let now = symmetric_sqsq(s, co, actions, n);
        assert(now == before.push(
            ranked_sqsq(applied(actions[n - 1], (s, 0, 0)).0, co) as nat,
        ));
        assert forall|j: int| 0 <= j < n implies #[trigger] now[j] == ranked_sqsq(
            applied(actions[j], (s, 0, 0)).0,
            co,
        ) as nat by {
            if j < n - 1 {
                assert(now[j] == before[j]);
            }
        }
    }
}

/// The first piece of a kind, from position `k` on, where a piece of the
/// kind lies at position `at`: its position.
pub proof fn lemma_first_of_place(s: Seq<u8>, kind: spec_fn(u8) -> bool, k: int, at: int) -> (j:
    int)
    requires
        0 <= k <= at < s.len(),
        kind(s[at]),
    ensures
        k <= j <= at,
        kind(s[j]),
        first_of(s, kind, k) == s[j],
        forall|y: int| k <= y < j ==> !kind(#[trigger] s[y]),
    decreases at - k,
{
    if kind(s[k]) {
        k
    } else {
        lemma_first_of_place(s, kind, k + 1, at)
    }
}

/// Two squares hold a black and a white corner, and the first of each says
/// by how much the colours are cycled.
pub proof fn lemma_first_corners(st: Aligned) -> (places: (int, int))
    requires
        aligned(st),
    ensures
        0 <= places.0 < 16,
        0 <= places.1 < 16,
        first_of(st.0, is_black_corner(), 0) == st.0[places.0],
        first_of(st.0, is_white_corner(), 0) == st.0[places.1],
        (is_black_corner())(st.0[places.0]),
        (is_white_corner())(st.0[places.1]),
        forall|y: int| 0 <= y < places.0 ==> !(is_black_corner())(#[trigger] st.0[y]),
        forall|y: int| 0 <= y < places.1 ==> !(is_white_corner())(#[trigger] st.0[y]),
        st.0[places.0] < 8,
        8 <= st.0[places.1] < 16,
{
    let s = st.0;
    lemma_aligned(st);
    lemma_four_blacks(st);
    let f = faces_of(st);
    let black = if f.0 {
        0int
    } else if f.1 {
        1int
    } else if f.2 {
        2int
    } else if f.3 {
        3int
    } else if f.4 {
        4int
    } else if f.5 {
        5int
    } else if f.6 {
        6int
    } else {
        7int
    };
    let white = if !f.0 {
        0int
    } else if !f.1 {
        1int
    } else if !f.2 {
        2int
    } else if !f.3 {
        3int
    } else if !f.4 {
        4int
    } else if !f.5 {
        5int
    } else if !f.6 {
        6int
    } else {
        7int
    };
    assert(corner_of(st, black) < 8 && corner_of(st, black) % 2 == 0);
    assert(corner_of(st, white) >= 8 && corner_of(st, white) % 2 == 0 && corner_of(st, white)
        < 16);
    let at_black = if black < 4 {
        st.1 + black * 2
    } else {
        st.2 + black * 2
    };
    let at_white = if white < 4 {
        st.1 + white * 2
    } else {
        st.2 + white * 2
    };
    let b = lemma_first_of_place(s, is_black_corner(), 0, at_black);
    let w = lemma_first_of_place(s, is_white_corner(), 0, at_white);
    assert(s[w] < 16);
    (b, w)
}

/// Naming the colours from the first corner of each face on keeps two
/// squares aligned, keeps the faces, and changes nothing when it is done
/// again.
pub proof fn lemma_recoloured(st: Aligned)
    requires
        aligned(st),
    ensures
        aligned((recoloured_sqsq(st.0), st.1, st.2)),
        faces_of((recoloured_sqsq(st.0), st.1, st.2)) == faces_of(st),
        recoloured_sqsq(recoloured_sqsq(st.0)) == recoloured_sqsq(st.0),
{
    let s = st.0;
    let places = lemma_first_corners(st);
    let up = (s[places.0] / 2) as int;
    let down = s[places.1] / 2 - 4;
    assert(0 <= up <= 3 && 0 <= down <= 3);
    let t = colours_cycled(s, up, down);
    assert(t == recoloured_sqsq(s));
    lemma_faces_cycled(st, up, down);
    assert(s.len() == 16 && t.len() == 16) by {
        lemma_aligned(st);
    }
    assert forall|y: int| 0 <= y < 16 implies (is_black_corner())(#[trigger] t[y]) == (
    is_black_corner())(s[y]) && (is_white_corner())(t[y]) == (is_white_corner())(s[y]) by {
        lemma_aligned(st);
        assert(s[y] < 16);
        lemma_cycled_piece(s[y], up, down);
        if up == 0 && down == 0 {
            assert(t[y] == s[y]);
        } else {
            assert(t[y] == cycled_piece(s[y], up, down));
        }
    }
    lemma_first_of(t, is_black_corner(), 0, places.0);
    lemma_first_of(t, is_white_corner(), 0, places.1);
    assert(t[places.0] == 0 && t[places.1] == 8) by {
        lemma_cycled_piece(s[places.0], up, down);
        lemma_cycled_piece(s[places.1], up, down);
        if up == 0 && down == 0 {
            assert(t[places.0] == s[places.0]);
            assert(t[places.1] == s[places.1]);
        } else {
            assert(t[places.0] == cycled_piece(s[places.0], up, down));
            assert(t[places.1] == cycled_piece(s[places.1], up, down));
        }
    }
    assert(recoloured_sqsq(t) == colours_cycled(t, 0, 0));
}

/// The configuration in the position in which it is indexed, with the
/// position of the first corner in each layer.
pub open spec fn canonical_placed(c: Seq<u8>) -> Aligned {
    (StateSqSq::canonical_of(c), 0, 0)
}

/// The number of the arrangement of the faces of a configuration.
pub open spec fn arrangement(c: Seq<u8>) -> int {
    orientation_sqsq(as_given(c)).1
}

/// The configuration in the position in which it is indexed: two squares
/// with the first corners in front, whose faces are those of its
/// arrangement, and whose colours are named from the first corners on.
pub proof fn lemma_canonical(c: Seq<u8>)
    requires
        StateSqSq::indexable(c),
    ensures
        aligned(canonical_placed(c)),
        0 <= arrangement(c) <= 4,
        faces_of(canonical_placed(c)) == canonical_faces(arrangement(c)),
        StateSqSq::index_of(c) == ranked_sqsq(StateSqSq::canonical_of(c), arrangement(c)) as nat,
{
    let given = as_given(c);
    assert(aligned(given));
    lemma_oriented(given);
    let o = orientation_sqsq(given);
    lemma_recoloured(o.0);
}

/// The index of the configuration that a symmetry makes of a configuration
/// in the position in which it is indexed, where the symmetry keeps the
/// faces: it is what the symmetry that the indexing makes of it gives,
/// taken as it lies.
pub proof fn lemma_index_of_symmetric(c: Seq<u8>, a: Symmetry)
    requires
        StateSqSq::indexable(c),
        a.up_rot <= 3,
        a.down_rot <= 3,
        faces_applied(a, canonical_faces(arrangement(c))) == canonical_faces(arrangement(c)),
    ensures
        StateSqSq::indexable(applied(a, canonical_placed(c)).0),
        StateSqSq::index_of(applied(a, canonical_placed(c)).0) == ranked_sqsq(
            applied(resettled(a, arrangement(c)), canonical_placed(c)).0,
            arrangement(c),
        ) as nat,
{
    let co = arrangement(c);
    let st = canonical_placed(c);
    lemma_canonical(c);
    lemma_faces_applied(a, st);
    let x = applied(a, st);
    lemma_aligned(x);
    assert(as_given(x.0) == x);
    lemma_settled(x, co);
    // the turn that the indexing makes goes into the symmetry
    let f = if a.flip_l {
        flipped(st)
    } else {
        st
    };
    lemma_faces_flipped(st);
    let recoloured = if a.flip_c {
        (colours_flipped(f.0), f.1, f.2)
    } else {
        f
    };
    lemma_faces_recoloured(f);
    let m = if a.mirror {
        mirrored(recoloured)
    } else {
        recoloured
    };
    lemma_faces_mirrored(recoloured);
    lemma_rotated_twice(m, a.up_rot as int, a.down_rot as int, settled(co).0, settled(co).1);
    assert(rotated(x, settled(co).0, settled(co).1) == applied(resettled(a, co), st));
}

/// Every symmetric index of a configuration of two squares belongs to a
/// configuration that is symmetric to it, and the indices of these
/// configurations are the index of the configuration and its symmetric
/// indices: the configuration that the symmetry at place `i` makes of the
/// configuration in the position in which it is indexed has the index of the
/// configuration or one of its symmetric indices.
pub proof fn lemma_symmetric_class(c: Seq<u8>, i: int)
    requires
        StateSqSq::indexable(c),
        0 <= i < symmetric_actions(arrangement(c)).len(),
    ensures
        StateSqSq::symmetric_of(c).len() == symmetric_actions(arrangement(c)).len(),
        StateSqSq::indexable(
            applied(symmetric_actions(arrangement(c))[i], canonical_placed(c)).0,
        ),
        StateSqSq::index_of(
            applied(symmetric_actions(arrangement(c))[i], canonical_placed(c)).0,
        ) == if partner(arrangement(c), i) == -1 {
            StateSqSq::index_of(c)
        } else {
            StateSqSq::symmetric_of(c)[partner(arrangement(c), i)]
        },
{
    let co = arrangement(c);
    let st = canonical_placed(c);
    let actions = symmetric_actions(co);
    let a = actions[i];
    lemma_canonical(c);
    lemma_symmetric_actions(co);
    lemma_faces_kept(co, i);
    lemma_partner(co, i);
    lemma_index_of_symmetric(c, a);
    lemma_symmetric_sqsq(st.0, co, actions, actions.len() as int);
    if partner(co, i) == -1 {
        // the symmetry that changes nothing leaves the configuration, whose
        // colours are named already
        assert(aligned(st));
        lemma_aligned(st);
        assert(applied(no_symmetry(), st).0 =~= st.0) by {
            lemma_layers_turned_pieces(st.0, 0, 0);
        }
        let given = as_given(c);
        lemma_oriented(given);
        lemma_recoloured(orientation_sqsq(given).0);
    }
}

/// The configuration in the position in which it is indexed has the index
/// of the configuration or one of its symmetric indices.
pub proof fn lemma_canonical_class(c: Seq<u8>)
    requires
        StateSqSq::indexable(c),
    ensures
        StateSqSq::indexable(StateSqSq::canonical_of(c)),
        StateSqSq::index_of(StateSqSq::canonical_of(c)) == if arrangement(c) == 3 {
            StateSqSq::symmetric_of(c)[3]
        } else if arrangement(c) == 4 {
            StateSqSq::symmetric_of(c)[23]
        } else {
            StateSqSq::index_of(c)
        },
{
    let co = arrangement(c);
    let st = canonical_placed(c);
    let actions = symmetric_actions(co);
    lemma_canonical(c);
    lemma_canonical_faces(co);
    lemma_index_of_symmetric(c, no_symmetry());
    lemma_symmetric_sqsq(st.0, co, actions, actions.len() as int);
    lemma_aligned(st);
    assert(applied(no_symmetry(), st).0 =~= st.0) by {
        lemma_layers_turned_pieces(st.0, 0, 0);
    }
    if co == 3 {
        assert(actions[3] == resettled(no_symmetry(), co));
    } else if co == 4 {
        assert(actions[23] == resettled(no_symmetry(), co));
    } else {
        let given = as_given(c);
        lemma_oriented(given);
        lemma_recoloured(orientation_sqsq(given).0);
    }
}

} // verus!
