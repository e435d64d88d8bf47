//! What is read out of the numbers that the pictures give: the colour of a
//! spot from the median of its pixels, the shape of a part from the angle of
//! a line, and how the puzzle is held from the lines of the slice.
use vstd::prelude::*;
use crate::robot::partpiece::{Shape, SideColor, UDColor};

verus! {

/// The number of values of a list that are at most `v`.
pub open spec fn count_up_to(values: Seq<u8>, v: int) -> int
    decreases values.len(),
{
    if values.len() == 0 {
        0
    } else {
        count_up_to(values.drop_last(), v) + if values.last() <= v {
            1int
        } else {
            0int
        }
    }
}

/// `m` is the median of the values: the value in the middle when they stand
/// in order, the upper one of two; that is the least value that more than
/// half of the values do not exceed.
pub open spec fn is_median(values: Seq<u8>, m: u8) -> bool {
    &&& count_up_to(values, m as int) > values.len() / 2
    &&& forall|v: int| 0 <= v < m ==> #[trigger] count_up_to(values, v) <= values.len() / 2
}

/// The number of values of a list that are at most `v`.
fn count_values_up_to(values: &Vec<u8>, v: u8) -> (count: usize)
    ensures
        count == count_up_to(values@, v as int),
        count <= values@.len(),
{
    let mut count: usize = 0;
    let mut i: usize = 0;
    assert(values@.take(0).len() == 0);
    while i < values.len()
        invariant
            i <= values@.len(),
            count == count_up_to(values@.take(i as int), v as int),
            count <= i,
        decreases values@.len() - i,
    {
        proof {
            assert(values@.take(i + 1).drop_last() =~= values@.take(i as int));
        }
        if values[i] <= v {
            count += 1;
        }
        i += 1;
    }
    assert(values@.take(values@.len() as int) =~= values@);
    count
}

/// Every value is at most 255.
pub proof fn lemma_count_up_to_all(values: Seq<u8>)
    ensures
        count_up_to(values, 255) == values.len(),
    decreases values.len(),
{
    if values.len() > 0 {
        lemma_count_up_to_all(values.drop_last());
    }
}

/// The median of the values.
pub fn median(values: &Vec<u8>) -> (m: u8)
    requires
        values@.len() > 0,
    ensures
        is_median(values@, m),
{
    let half: usize = values.len() / 2;
    let mut v: u8 = 0;
    proof {
        lemma_count_up_to_all(values@);
    }
    while v < 255 && count_values_up_to(values, v) <= half
        invariant
            half == values@.len() / 2,
            values@.len() > 0,
            count_up_to(values@, 255) == values@.len(),
            forall|w: int| 0 <= w < v ==> #[trigger] count_up_to(values@, w) <= half,
        decreases 255 - v,
    {
        v += 1;
    }
    v
}

/// The position of the first of the least values of a list.
pub fn arg_min(values: &Vec<i32>) -> (at: usize)
    requires
        values@.len() > 0,
    ensures
        at < values@.len(),
        forall|i: int| 0 <= i < values@.len() ==> values@[at as int] <= values@[i],
        forall|i: int| 0 <= i < at ==> values@[at as int] < values@[i],
{
    let mut at: usize = 0;
    let mut i: usize = 1;
    while i < values.len()
        invariant
            1 <= i <= values@.len(),
            at < i,
            forall|j: int| 0 <= j < i ==> values@[at as int] <= values@[j],
            forall|j: int| 0 <= j < at ==> values@[at as int] < values@[j],
        decreases values@.len() - i,
    {
        if values[i] < values[at] {
            at = i;
        }
        i += 1;
    }
    at
}

/// The colour of a face whose pixels have the median brightness `value`.
pub fn classify_udcolor(value: u8) -> (color: UDColor)
    ensures
        color == if value < 70 {
            UDColor::Black
        } else {
            UDColor::White
        },
{
    if value < 70 {
        UDColor::Black
    } else {
        UDColor::White
    }
}

/// The side colour of the spot `id` whose pixels have the median hue `hue`.
pub open spec fn side_color_of(hue: u8, id: int) -> SideColor {
    if hue < 11 && (id == 0 || id == 3) {
        SideColor::Red
    } else if hue < 20 && (id == 1 || id == 2 || id == 4) {
        SideColor::Red
    } else if hue < 60 {
        SideColor::Orange
    } else if hue < 100 {
        SideColor::Green
    } else {
        SideColor::Blue
    }
}

/// The side colour of the spot `id` whose pixels have the median hue `hue`.
pub fn classify_sidecolor(hue: u8, id: usize) -> (color: SideColor)
    ensures
        color == side_color_of(hue, id as int),
{
    if hue < 11 && (id == 0 || id == 3) {
        SideColor::Red
    } else if hue < 20 && (id == 1 || id == 2 || id == 4) {
        SideColor::Red
    } else if hue < 60 {
        SideColor::Orange
    } else if hue < 100 {
        SideColor::Green
    } else {
        SideColor::Blue
    }
}

/// The distances of an angle from the angles of the classes.
pub open spec fn distances(deg: i32, classes: Seq<i32>) -> Seq<int> {
    Seq::new(classes.len(), |i: int| if deg - classes[i] < 0 {
        classes[i] - deg
    } else {
        deg - classes[i]
    })
}

/// The shape that a line of the class `deg_class` shows at the spot `id`.
pub open spec fn shape_of_class(deg_class: int, id: int) -> Option<Shape> {
    if deg_class - id == 0 && id != 0 {
        Some(Shape::CornerStart)
    } else if deg_class - id == 1 {
        Some(Shape::Edge)
    } else if deg_class - id == 2 && id != 3 {
        Some(Shape::CornerEnd)
    } else {
        None
    }
}

/// The shape that a line of the class `deg_class` shows at the spot `id`.
pub fn classify_shape(deg_class: usize, id: usize) -> (shape: Option<Shape>)
    ensures
        shape == shape_of_class(deg_class as int, id as int),
{
    if deg_class == id {
        if id != 0 {
            Some(Shape::CornerStart)
        } else {
            None
        }
    } else if id < usize::MAX && deg_class == id + 1 {
        Some(Shape::Edge)
    } else if id < usize::MAX - 1 && deg_class == id + 2 {
        if id != 3 {
            Some(Shape::CornerEnd)
        } else {
            None
        }
    } else {
        None
    }
}

/// The class of an angle: the position of the class angle that is next to
/// it, the first of equals.
pub fn line_class(deg: i32, classes: &[i32; 6]) -> (class: usize)
    requires
        forall|i: int|
            0 <= i < 6 ==> -0x7fff_ffff <= deg - #[trigger] classes@[i] <= 0x7fff_ffff,
    ensures
        class < 6,
        forall|i: int|
            0 <= i < 6 ==> distances(deg, classes@)[class as int] <= #[trigger] distances(
                deg,
                classes@,
            )[i],
        forall|i: int|
            0 <= i < class ==> distances(deg, classes@)[class as int] < #[trigger] distances(
                deg,
                classes@,
            )[i],
{
    let mut diffs: Vec<i32> = Vec::new();
    let mut i: usize = 0;
    while i < 6
        invariant
            i <= 6,
            forall|j: int|
                0 <= j < 6 ==> -0x7fff_ffff <= deg - #[trigger] classes@[j] <= 0x7fff_ffff,
            diffs@.len() == i,
            forall|j: int| 0 <= j < i ==> #[trigger] diffs@[j] == distances(deg, classes@)[j],
        decreases 6 - i,
    {
        let diff: i32 = deg - classes[i];
        diffs.push(
            if diff < 0 {
                -diff
            } else {
                diff
            },
        );
        i += 1;
    }
    let class: usize = arg_min(&diffs);
    proof {
        let all = distances(deg, classes@);
        assert forall|j: int| 0 <= j < 6 implies all[class as int] <= #[trigger] all[j] by {
            assert(diffs@[j] == all[j]);
            assert(diffs@[class as int] == all[class as int]);
        }
        assert forall|j: int| 0 <= j < class implies all[class as int] < #[trigger] all[j] by {
            assert(diffs@[j] == all[j]);
            assert(diffs@[class as int] == all[class as int]);
        }
    }
    class
}

/// Whether a line of the upper slice area shows the thumb towards the
/// camera: one between minus twenty and nought degrees does.
pub open spec fn shows_thumb(lines: Seq<i32>) -> bool {
    exists|i: int| 0 <= i < lines.len() && -20 < #[trigger] lines[i] < 0
}

/// Whether every line of the lower slice area lies below nought or above
/// twenty degrees.
pub open spec fn all_outside(lines: Seq<i32>) -> bool {
    forall|i: int| 0 <= i < lines.len() ==> (#[trigger] lines[i]) < 0 || lines[i] > 20
}

/// Whether a line of the upper slice area shows the thumb towards the
/// camera.
pub fn thumb_to_cam(lines: &Vec<i32>) -> (seen: bool)
    ensures
        seen == shows_thumb(lines@),
{
    let mut seen: bool = false;
    let mut i: usize = 0;
    while i < lines.len()
        invariant
            i <= lines@.len(),
            seen == exists|j: int| 0 <= j < i && -20 < #[trigger] lines@[j] < 0,
        decreases lines@.len() - i,
    {
        if !seen {
            seen = lines[i] > -20 && lines[i] < 0;
        }
        i += 1;
    }
    seen
}

/// Whether the slice is solved: it is where the thumb points to the camera
/// and every line of the lower slice area lies outside, or neither.
pub fn slice_solved(thumb_to_cam: bool, lines: &Vec<i32>) -> (solved: bool)
    ensures
        solved == (thumb_to_cam == all_outside(lines@)),
{
    let mut outside: bool = true;
    let mut i: usize = 0;
    while i < lines.len()
        invariant
            i <= lines@.len(),
            outside == forall|j: int|
                0 <= j < i ==> (#[trigger] lines@[j]) < 0 || lines@[j] > 20,
        decreases lines@.len() - i,
    {
        if outside {
            outside = lines[i] < 0 || lines[i] > 20;
        }
        i += 1;
    }
    thumb_to_cam == outside
}

/// Whether the small red side is on top: it is where the extra spot is red
/// and the thumb points to the camera, or neither.
pub fn red_top(extra: SideColor, thumb_to_cam: bool) -> (top: bool)
    ensures
        top == ((extra == SideColor::Red) == thumb_to_cam),
{
    match extra {
        SideColor::Red => thumb_to_cam,
        _ => !thumb_to_cam,
    }
}

/// The angle of a line as it is compared: between minus ninety and ninety
/// degrees.
pub fn line_angle(angle_in_degrees: u32) -> (deg: i32)
    requires
        angle_in_degrees <= 180,
    ensures
        deg == if angle_in_degrees > 90 {
            angle_in_degrees - 180
        } else {
            angle_in_degrees as int
        },
{
    if angle_in_degrees > 90 {
        angle_in_degrees as i32 - 180
    } else {
        angle_in_degrees as i32
    }
}

/// Whether the colour of the other spot of a side is read for a part: for
/// the first half of a corner at the second spot, and for the second half
/// at the third.
pub fn reads_other_spot(shape: Shape, id: usize) -> (alt: bool)
    ensures
        alt == match shape {
            Shape::CornerStart => id == 1,
            Shape::Edge => false,
            Shape::CornerEnd => id == 2,
        },
{
    match shape {
        Shape::CornerStart => id == 1,
        Shape::Edge => false,
        Shape::CornerEnd => id == 2,
    }
}

} // verus!
