//! How the parts that the cameras saw are put together to a configuration.
use vstd::prelude::*;
use crate::robot::partpiece::{adjacent, piece_of, PartPiece, Shape};
use crate::square1::{colours_cycled, Square1};

verus! {

/// The layer can be cut before the part `turn` and the part opposite to it:
/// neither is the second half of a corner.
pub open spec fn turn_possible(layer: Seq<PartPiece>, turn: int) -> bool {
    layer[turn].shape != Shape::CornerEnd && layer[turn + 6].shape != Shape::CornerEnd
}

/// How far a turn is from a turn of three parts.
pub open spec fn turn_distance(turn: int) -> int {
    if turn < 3 {
        3 - turn
    } else {
        turn - 3
    }
}

/// The best of the turns by less than `n` parts before which the layer can
/// be cut: the one next to a turn of three parts, the first of equals.
pub open spec fn best_turn(layer: Seq<PartPiece>, n: int) -> Option<int>
    decreases n,
{
    if n <= 0 {
        None
    } else {
        let before = best_turn(layer, n - 1);
        if turn_possible(layer, n - 1) {
            match before {
                Some(found) => if turn_distance(n - 1) < turn_distance(found) {
                    Some(n - 1)
                } else {
                    before
                },
                None => Some(n - 1),
            }
        } else {
            before
        }
    }
}

/// The turn that brings a layer of twelve parts to the slice line: of the
/// turns by less than six parts before which the layer can be cut, the one
/// next to a turn of three parts, the first of equals; none where there is
/// no such turn.
pub fn get_turn_to_valid(layer: &Vec<PartPiece>) -> (best: Option<usize>)
    requires
        layer@.len() == 12,
    ensures
        match best {
            Some(turn) => best_turn(layer@, 6) == Some(turn as int),
            None => best_turn(layer@, 6) is None,
        },
        match best {
            Some(turn) => {
                &&& turn < 6
                &&& turn_possible(layer@, turn as int)
                &&& forall|other: int|
                    0 <= other < 6 && turn_possible(layer@, other) ==> turn_distance(turn as int)
                        <= turn_distance(other)
                &&& forall|other: int|
                    0 <= other < turn && turn_possible(layer@, other) ==> turn_distance(
                        turn as int,
                    ) < turn_distance(other)
            },
            None => forall|other: int| 0 <= other < 6 ==> !turn_possible(layer@, other),
        },
{
    let mut best: Option<usize> = None;
    let mut turn: usize = 0;
    while turn < 6
        invariant
            turn <= 6,
            layer@.len() == 12,
            match best {
                Some(found) => best_turn(layer@, turn as int) == Some(found as int),
                None => best_turn(layer@, turn as int) is None,
            },
            match best {
                Some(found) => {
                    &&& found < turn
                    &&& turn_possible(layer@, found as int)
                    &&& forall|other: int|
                        0 <= other < turn && turn_possible(layer@, other) ==> turn_distance(
                            found as int,
                        ) <= turn_distance(other)
                    &&& forall|other: int|
                        0 <= other < found && turn_possible(layer@, other) ==> turn_distance(
                            found as int,
                        ) < turn_distance(other)
                },
                None => forall|other: int| 0 <= other < turn ==> !turn_possible(layer@, other),
            },
        decreases 6 - turn,
    {
        let possible: bool = match layer[turn].shape {
            Shape::CornerEnd => false,
            _ => match layer[turn + 6].shape {
                Shape::CornerEnd => false,
                _ => true,
            },
        };
        if possible {
            best = match best {
                Some(found) => {
                    let best_diff: usize = if found < 3 {
                        3 - found
                    } else {
                        found - 3
                    };
                    let new_diff: usize = if turn < 3 {
                        3 - turn
                    } else {
                        turn - 3
                    };
                    if new_diff < best_diff {
                        Some(turn)
                    } else {
                        Some(found)
                    }
                },
                None => Some(turn),
            };
        }
        turn += 1;
    }
    best
}

/// The layer after the part that was detected at one spot is entered; the
/// spot fails where nothing was detected or the other half of a corner
/// falls on a part that is known already.
pub open spec fn entered(
    layer: Seq<Option<PartPiece>>,
    at: int,
    detected: Option<PartPiece>,
    left: bool,
) -> Option<Seq<Option<PartPiece>>> {
    if layer[at] is Some {
        Some(layer)
    } else {
        match detected {
            None => None,
            Some(part) => match part.shape {
                Shape::Edge => Some(layer.update(at, Some(part))),
                Shape::CornerStart => if layer[(at + 1) % 12] is Some {
                    None
                } else {
                    Some(layer.update((at + 1) % 12, adjacent(part, left)).update(at, Some(part)))
                },
                Shape::CornerEnd => if layer[(12 + at - 1) % 12] is Some {
                    None
                } else {
                    Some(
                        layer.update((12 + at - 1) % 12, adjacent(part, left)).update(
                            at,
                            Some(part),
                        ),
                    )
                },
            },
        }
    }
}

/// Enters the part that was detected at one spot into the layer.
fn enter(layer: &mut Vec<Option<PartPiece>>, at: usize, detected: Option<PartPiece>, left: bool) -> (ok:
    bool)
    requires
        old(layer)@.len() == 12,
        at < 12,
    ensures
        final(layer)@.len() == 12,
        match entered(old(layer)@, at as int, detected, left) {
            Some(after) => ok && final(layer)@ == after,
            None => !ok && final(layer)@ == old(layer)@,
        },
{
    if layer[at].is_some() {
        return true;
    }
    match detected {
        Some(part) => {
            match part.shape {
                Shape::CornerStart => {
                    let adj_index: usize = (at + 1) % 12;
                    if layer[adj_index].is_some() {
                        return false;
                    }
                    layer.set(adj_index, part.get_adj(left));
                },
                Shape::Edge => {},
                Shape::CornerEnd => {
                    let adj_index: usize = (12 + at - 1) % 12;
                    if layer[adj_index].is_some() {
                        return false;
                    }
                    layer.set(adj_index, part.get_adj(left));
                },
            }
            layer.set(at, Some(part));
            true
        },
        None => false,
    }
}

/// The spots of a picture in the order in which they are entered.
pub open spec fn spot_order(small_steps: bool) -> Seq<int> {
    if small_steps {
        seq![0int, 1]
    } else {
        seq![1int, 0, 2, 3]
    }
}

/// The number under which a spot is detected.
pub open spec fn detection_of(spot: int, small_steps: bool) -> int {
    if small_steps {
        spot + 1
    } else {
        spot
    }
}

/// The layer after the first `n` spots of a picture are entered, or the
/// spot that failed.
pub open spec fn filled(
    layer: Seq<Option<PartPiece>>,
    detected: Seq<Option<PartPiece>>,
    offset: int,
    left: bool,
    small_steps: bool,
    n: int,
) -> Result<Seq<Option<PartPiece>>, int>
    decreases n,
{
    if n <= 0 {
        Ok(layer)
    } else {
        match filled(layer, detected, offset, left, small_steps, n - 1) {
            Ok(before) => {
                let spot = spot_order(small_steps)[n - 1];
                match entered(
                    before,
                    offset + spot,
                    detected[detection_of(spot, small_steps)],
                    left,
                ) {
                    Some(after) => Ok(after),
                    None => Err(spot),
                }
            },
            Err(spot) => Err(spot),
        }
    }
}

/// Enters the parts that were detected in the picture `pic_num` into a layer
/// of twelve parts. Fails with the spot at which nothing was detected or a
/// corner falls on a part that is known already; the layer then holds what
/// was entered before.
pub fn fill_layer(
    layer: &mut Vec<Option<PartPiece>>,
    detected: &[Option<PartPiece>; 4],
    pic_num: usize,
    left: bool,
    small_steps: bool,
) -> (res: Result<(), usize>)
    requires
        old(layer)@.len() == 12,
        pic_num < if small_steps {
            6int
        } else {
            3int
        },
    ensures
        final(layer)@.len() == 12,
        match filled(
            old(layer)@,
            detected@,
            if small_steps {
                pic_num * 2
            } else {
                pic_num * 4
            },
            left,
            small_steps,
            spot_order(small_steps).len() as int,
        ) {
            Ok(after) => res is Ok && final(layer)@ == after,
            Err(spot) => res matches Err(failed) && failed == spot,
        },
{
    let offset: usize = if small_steps {
        pic_num * 2
    } else {
        pic_num * 4
    };
    let spots: Vec<usize> = if small_steps {
        vec![0, 1]
    } else {
        vec![1, 0, 2, 3]
    };
    let ghost order = spot_order(small_steps);
    let ghost start = layer@;
    assert(order.len() == spots@.len());
    assert forall|j: int| 0 <= j < spots@.len() implies spots@[j] == order[j] by {}
    let mut i: usize = 0;
    while i < spots.len()
        invariant
            i <= spots@.len(),
            order == spot_order(small_steps),
            start == old(layer)@,
            offset == if small_steps {
                pic_num * 2
            } else {
                pic_num * 4
            },
            order.len() == spots@.len(),
            forall|j: int| 0 <= j < spots@.len() ==> spots@[j] == order[j] && 0 <= order[j] < 4,
            layer@.len() == 12,
            offset + 3 < 12 || (small_steps && offset + 1 < 12),
            filled(start, detected@, offset as int, left, small_steps, i as int) == Ok::<
                Seq<Option<PartPiece>>,
                int,
            >(layer@),
        decreases spots@.len() - i,
    {
        let spot: usize = spots[i];
        assert(spot == order[i as int]);
        let seen: Option<PartPiece> = detected[if small_steps {
            spot + 1
        } else {
            spot
        }];
        if !enter(layer, offset + spot, seen, left) {
            proof {
                assert(filled(start, detected@, offset as int, left, small_steps, i + 1) == Err::<
                    Seq<Option<PartPiece>>,
                    int,
                >(spot as int));
                lemma_filled_fails(
                    start,
                    detected@,
                    offset as int,
                    left,
                    small_steps,
                    i + 1,
                    order.len() as int,
                );
            }
            return Err(spot);
        }
        i += 1;
    }
    Ok(())
}

/// Where a spot fails, the spots behind it are not entered.
pub proof fn lemma_filled_fails(
    layer: Seq<Option<PartPiece>>,
    detected: Seq<Option<PartPiece>>,
    offset: int,
    left: bool,
    small_steps: bool,
    n: int,
    m: int,
)
    requires
        0 <= n <= m,
        filled(layer, detected, offset, left, small_steps, n) is Err,
    ensures
        filled(layer, detected, offset, left, small_steps, m) == filled(
            layer,
            detected,
            offset,
            left,
            small_steps,
            n,
        ),
    decreases m - n,
{
    if n < m {
        lemma_filled_fails(layer, detected, offset, left, small_steps, n, m - 1);
    }
}

/// The pieces that the parts of a layer name, in their order.
pub open spec fn piece_ids(layer: Seq<PartPiece>, left: bool) -> Seq<u8>
    decreases layer.len(),
{
    if layer.len() == 0 {
        Seq::empty()
    } else {
        match piece_of(layer.last(), left) {
            Some(id) => piece_ids(layer.drop_last(), left).push(id),
            None => piece_ids(layer.drop_last(), left),
        }
    }
}

/// The number of parts by which a layer is turned for the turn `turn` to
/// the slice line: the turn itself where it is less than four, and else a
/// half turn more.
pub open spec fn parts_turned(turn: int) -> int {
    if turn < 4 {
        turn
    } else {
        turn + 6
    }
}

/// The turn that the motor makes for the turn `turn` to the slice line.
pub open spec fn motor_turn(turn: int) -> int {
    if turn < 4 {
        turn
    } else {
        turn - 6
    }
}

/// A layer turned to the left by `k` parts.
pub open spec fn layer_turned<T>(layer: Seq<T>, k: int) -> Seq<T> {
    layer.subrange(k, layer.len() as int) + layer.subrange(0, k)
}

/// The pieces that the parts of a layer name.
fn ids_of(layer: &Vec<PartPiece>, left: bool) -> (ids: Vec<u8>)
    ensures
        ids@ == piece_ids(layer@, left),
        ids@.len() <= layer@.len(),
{
    let mut ids: Vec<u8> = Vec::new();
    let mut i: usize = 0;
    assert(layer@.take(0).len() == 0);
    while i < layer.len()
        invariant
            i <= layer@.len(),
            ids@ == piece_ids(layer@.take(i as int), left),
            ids@.len() <= i,
        decreases layer@.len() - i,
    {
        proof {
            assert(layer@.take(i + 1).drop_last() =~= layer@.take(i as int));
        }
        match layer[i].get_id(left) {
            Some(id) => {
                ids.push(id);
            },
            None => {},
        }
        i += 1;
    }
    assert(layer@.take(layer@.len() as int) =~= layer@);
    ids
}

/// The layer turned to the left by `k` parts.
fn turn_layer<T: Copy>(layer: &Vec<T>, k: usize) -> (turned: Vec<T>)
    requires
        k <= layer@.len(),
    ensures
        turned@ == layer_turned(layer@, k as int),
{
    let mut turned: Vec<T> = Vec::new();
    let len: usize = layer.len();
    let mut i: usize = 0;
    while i < len
        invariant
            i <= len,
            len == layer@.len(),
            k <= len,
            turned@.len() == i,
            forall|j: int|
                0 <= j < i ==> #[trigger] turned@[j] == layer@[if j + k < len {
                    j + k
                } else {
                    j + k - len
                }],
        decreases len - i,
    {
        let from: usize = if i < len - k {
            i + k
        } else {
            i - (len - k)
        };
        turned.push(layer[from]);
        i += 1;
    }
    assert(turned@ =~= layer_turned(layer@, k as int));
    turned
}

/// The number of parts by which the layers were turned between two
/// pictures.
pub open spec fn picture_step(small_steps: bool) -> int {
    if small_steps {
        2
    } else {
        4
    }
}

/// Sets right what the turning between the pictures has shifted, in two
/// layers of twelve parts: the left layer is turned to the right by half a
/// step between two pictures, the right layer to the left by six parts less
/// than that.
pub fn settle_layers(
    left_layer: &mut Vec<Option<PartPiece>>,
    right_layer: &mut Vec<Option<PartPiece>>,
    small_steps: bool,
)
    requires
        old(left_layer)@.len() == 12,
        old(right_layer)@.len() == 12,
    ensures
        final(left_layer)@ == layer_turned(
            old(left_layer)@,
            12 - picture_step(small_steps) / 2,
        ),
        final(right_layer)@ == layer_turned(
            old(right_layer)@,
            6 - picture_step(small_steps) / 2,
        ),
{
    let half: usize = if small_steps {
        1
    } else {
        2
    };
    let left: Vec<Option<PartPiece>> = turn_layer(left_layer, 12 - half);
    let right: Vec<Option<PartPiece>> = turn_layer(right_layer, 6 - half);
    *left_layer = left;
    *right_layer = right;
}

/// The parts of a layer, if every part was detected.
fn cleared(layer: &Vec<Option<PartPiece>>) -> (parts: Option<Vec<PartPiece>>)
    ensures
        match parts {
            Some(all) => all@.len() == layer@.len() && forall|i: int|
                0 <= i < layer@.len() ==> layer@[i] == Some(#[trigger] all@[i]),
            None => exists|i: int| 0 <= i < layer@.len() && layer@[i] is None,
        },
{
    let mut parts: Vec<PartPiece> = Vec::new();
    let mut i: usize = 0;
    while i < layer.len()
        invariant
            i <= layer@.len(),
            parts@.len() == i,
            forall|j: int| 0 <= j < i ==> layer@[j] == Some(#[trigger] parts@[j]),
        decreases layer@.len() - i,
    {
        match layer[i] {
            Some(part) => {
                parts.push(part);
            },
            None => {
                return None;
            },
        }
        i += 1;
    }
    Some(parts)
}

/// What the detected layers give: the configuration, and the turns that the
/// motors make to bring the layers to the slice line.
pub struct Converted {
    pub square1: Square1,
    pub left_motor_turn: i8,
    pub right_motor_turn: i8,
}

/// The pieces of the configuration that two layers of detected parts give,
/// each turned to the slice line.
pub open spec fn converted_pieces(
    left: Seq<PartPiece>,
    right: Seq<PartPiece>,
    left_turn: int,
    right_turn: int,
) -> Seq<u8> {
    piece_ids(layer_turned(left, parts_turned(left_turn)), true) + piece_ids(
        layer_turned(right, parts_turned(right_turn)),
        false,
    )
}

/// The configuration as the solver takes it: the layers exchanged where the
/// thumb does not point to the camera, and the colours cycled by two where
/// the small red side is not on top.
pub open spec fn as_held(pieces: Seq<u8>, thumb_to_cam: bool, red_top: bool) -> Seq<u8> {
    let held = if thumb_to_cam {
        pieces
    } else {
        pieces.reverse()
    };
    if red_top {
        held
    } else {
        colours_cycled(held, 2, 2)
    }
}

/// The parts of a layer of which every part was detected.
pub open spec fn parts_of(layer: Seq<Option<PartPiece>>) -> Seq<PartPiece> {
    Seq::new(layer.len(), |i: int| layer[i]->0)
}

/// Every part of a layer was detected.
pub open spec fn all_detected(layer: Seq<Option<PartPiece>>) -> bool {
    forall|i: int| 0 <= i < layer.len() ==> (#[trigger] layer[i]) is Some
}

/// What two detected layers give: the pieces of the configuration, and the
/// turns that the motors make to bring the layers to the slice line; nothing
/// where a part was not detected, where a layer cannot be turned to the
/// slice line, or where the parts do not name sixteen pieces.
pub open spec fn conversion(
    left_layer: Seq<Option<PartPiece>>,
    right_layer: Seq<Option<PartPiece>>,
    thumb_to_cam: bool,
    red_top: bool,
) -> Option<(Seq<u8>, int, int)> {
    let left = parts_of(left_layer);
    let right = parts_of(right_layer);
    if !all_detected(left_layer) || !all_detected(right_layer) {
        None
    } else {
        match (best_turn(left, 6), best_turn(right, 6)) {
            (Some(left_turn), Some(right_turn)) => {
                let pieces = converted_pieces(left, right, left_turn, right_turn);
                if pieces.len() == 16 {
                    Some(
                        (
                            as_held(pieces, thumb_to_cam, red_top),
                            -motor_turn(left_turn),
                            motor_turn(right_turn),
                        ),
                    )
                } else {
                    None
                }
            },
            _ => None,
        }
    }
}

/// Puts two detected layers of twelve parts together to a configuration.
/// Gives nothing where a part was not detected, where a layer cannot be
/// turned to the slice line, or where the parts do not name sixteen pieces.
pub fn convert_partpieces(
    left_layer: &Vec<Option<PartPiece>>,
    right_layer: &Vec<Option<PartPiece>>,
    thumb_to_cam: bool,
    red_top: bool,
) -> (converted: Option<Converted>)
    requires
        left_layer@.len() == 12,
        right_layer@.len() == 12,
    ensures
        match conversion(left_layer@, right_layer@, thumb_to_cam, red_top) {
            Some(expected) => converted matches Some(c) && c.square1@ == expected.0
                && c.left_motor_turn == expected.1 && c.right_motor_turn == expected.2,
            None => converted is None,
        },
{
    let left: Vec<PartPiece> = match cleared(left_layer) {
        Some(parts) => parts,
        None => {
            return None;
        },
    };
    let right: Vec<PartPiece> = match cleared(right_layer) {
        Some(parts) => parts,
        None => {
            return None;
        },
    };
    proof {
        assert(left@ =~= parts_of(left_layer@));
        assert(right@ =~= parts_of(right_layer@));
        assert forall|i: int| 0 <= i < 12 implies (#[trigger] left_layer@[i]) is Some by {
            assert(left_layer@[i] == Some(left@[i]));
        }
        assert forall|i: int| 0 <= i < 12 implies (#[trigger] right_layer@[i]) is Some by {
            assert(right_layer@[i] == Some(right@[i]));
        }
    }
    let left_turn: usize = match get_turn_to_valid(&left) {
        Some(turn) => turn,
        None => {
            return None;
        },
    };
    let right_turn: usize = match get_turn_to_valid(&right) {
        Some(turn) => turn,
        None => {
            return None;
        },
    };
    let left_turned: Vec<PartPiece> = turn_layer(
        &left,
        if left_turn < 4 {
            left_turn
        } else {
            left_turn + 6
        },
    );
    let right_turned: Vec<PartPiece> = turn_layer(
        &right,
        if right_turn < 4 {
            right_turn
        } else {
            right_turn + 6
        },
    );
    let left_motor_turn: i8 = if left_turn < 4 {
        left_turn as i8
    } else {
        left_turn as i8 - 6
    };
    let right_motor_turn: i8 = if right_turn < 4 {
        right_turn as i8
    } else {
        right_turn as i8 - 6
    };
    let left_pieces: Vec<u8> = ids_of(&left_turned, true);
    let right_pieces: Vec<u8> = ids_of(&right_turned, false);
    if left_pieces.len() + right_pieces.len() != 16 {
        return None;
    }
    let mut pieces: [u8; 16] = [0; 16];
    let split: usize = left_pieces.len();
    let mut i: usize = 0;
    while i < 16
        invariant
            i <= 16,
            split == left_pieces@.len(),
            split + right_pieces@.len() == 16,
            forall|j: int|
                0 <= j < i ==> #[trigger] pieces@[j] == (left_pieces@ + right_pieces@)[j],
        decreases 16 - i,
    {
        pieces[i] = if i < split {
            left_pieces[i]
        } else {
            right_pieces[i - split]
        };
        i += 1;
    }
    assert(pieces@ =~= left_pieces@ + right_pieces@);
    let mut square1: Square1 = Square1::from_arr(pieces);
    if !thumb_to_cam {
        square1.flip_layers();
    }
    if !red_top {
        square1.cycle_colors(&(2, 2));
    }
    proof {
        assert(converted_pieces(left@, right@, left_turn as int, right_turn as int)
            == left_pieces@ + right_pieces@);
    }
    Some(Converted { square1, left_motor_turn: -left_motor_turn, right_motor_turn })
}

} // verus!
