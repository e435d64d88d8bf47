//! The bytes that tell the motors what to do.
use vstd::prelude::*;

verus! {

/// The number that stands for a position of the slice motor: minus two and
/// two hold the puzzle, minus one and one leave it free.
pub open spec fn slice_pos_code(slice_pos: i8) -> Option<u8> {
    if slice_pos == -2 {
        Some(0u8)
    } else if slice_pos == -1 {
        Some(1u8)
    } else if slice_pos == 1 {
        Some(2u8)
    } else if slice_pos == 2 {
        Some(3u8)
    } else {
        None
    }
}

/// The number that stands for a position of the slice motor.
pub fn ser_slice_pos(slice_pos: i8) -> (code: u8)
    requires
        slice_pos_code(slice_pos) is Some,
    ensures
        Some(code) == slice_pos_code(slice_pos),
{
    if slice_pos == -2 {
        0
    } else if slice_pos == -1 {
        1
    } else if slice_pos == 1 {
        2
    } else {
        3
    }
}

/// The byte that stops the motors.
pub const STOP: u8 = 0xf0;

/// The byte that sets the motors to their slow pace.
pub const SLOW_MODE: u8 = 0xfc;

/// The byte that sets the motors to their fast pace.
pub const FAST_MODE: u8 = 0xfd;

/// The byte that starts the motors with the slice motor in the given
/// position.
pub fn start_command(slice_pos: i8) -> (byte: u8)
    requires
        slice_pos_code(slice_pos) is Some,
    ensures
        byte == 0xf4 + slice_pos_code(slice_pos).unwrap(),
{
    0xf4 + ser_slice_pos(slice_pos)
}

/// The byte that sends the slice motor to the given position.
pub fn slice_command(slice_pos: i8) -> (byte: u8)
    requires
        slice_pos_code(slice_pos) is Some,
    ensures
        byte == 0xf8 + slice_pos_code(slice_pos).unwrap(),
{
    0xf8 + ser_slice_pos(slice_pos)
}

/// The position in which the slice motor holds the puzzle as it was put in:
/// on the lower side where the thumb points to the camera and the bar is
/// solved, or where neither holds.
pub fn slice_pos_found(thumb_to_cam: bool, bar_solved: bool) -> (found: i8)
    ensures
        found == if thumb_to_cam == bar_solved {
            -2i8
        } else {
            2i8
        },
{
    if thumb_to_cam == bar_solved {
        -2
    } else {
        2
    }
}

/// A turn of a layer can be sent: it lies between minus six and eleven.
pub open spec fn turn_in_reach(turn: i8) -> bool {
    -6 <= turn <= 11
}

/// A turn as the motors count it: from nought to eleven.
pub open spec fn motor_turn(turn: i8) -> int {
    if turn < 0 {
        turn + 12
    } else {
        turn as int
    }
}

/// The byte that tells the motors to turn the layers: the left layer in the
/// high half, the right one in the low half; the layers change sides when
/// the thumb does not point to the camera.
pub open spec fn layer_turn_byte(up: i8, down: i8, thumb_to_cam: bool) -> int {
    if thumb_to_cam {
        motor_turn(up) * 16 + motor_turn(down)
    } else {
        motor_turn(down) * 16 + motor_turn(up)
    }
}

/// The byte that tells the motors to turn the layers, or nothing where a
/// turn lies out of reach.
pub fn layer_turn_command(up: i8, down: i8, thumb_to_cam: bool) -> (byte: Option<u8>)
    ensures
        byte is Some <==> turn_in_reach(up) && turn_in_reach(down),
        byte matches Some(b) ==> b == layer_turn_byte(up, down, thumb_to_cam),
{
    if up < -6 || up > 11 || down < -6 || down > 11 {
        return None;
    }
    let left: u8 = (if up < 0 {
        up + 12
    } else {
        up
    }) as u8;
    let right: u8 = (if down < 0 {
        down + 12
    } else {
        down
    }) as u8;
    Some(
        if thumb_to_cam {
            left * 16 + right
        } else {
            right * 16 + left
        },
    )
}

/// The position of the slice motor after the slice move: the other side.
pub fn slice_pos_turned(slice_pos: i8) -> (turned: i8)
    requires
        slice_pos > -128,
    ensures
        turned == -slice_pos,
{
    if slice_pos != 0 {
        -slice_pos
    } else {
        slice_pos
    }
}

/// The position in which the slice motor holds the puzzle, on the side on
/// which it stands.
pub fn slice_pos_grabbed(slice_pos: i8) -> (grabbed: i8)
    ensures
        grabbed == if slice_pos < 0 {
            -2i8
        } else {
            2i8
        },
{
    if slice_pos < 0 {
        -2
    } else {
        2
    }
}

/// The position in which the slice motor leaves the puzzle free, on the side
/// on which it holds it; nothing where it holds nothing.
pub fn slice_pos_released(slice_pos: i8) -> (released: Option<i8>)
    ensures
        released == if slice_pos > 1 {
            Some((slice_pos / 2) as i8)
        } else if slice_pos < -1 {
            Some((-((-slice_pos) / 2)) as i8)
        } else {
            None
        },
{
    if slice_pos > 1 {
        Some(slice_pos / 2)
    } else if slice_pos == -128 {
        Some(-64)
    } else if slice_pos < -1 {
        Some(-((-slice_pos) / 2))
    } else {
        None
    }
}

} // verus!
