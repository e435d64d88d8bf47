use square1_solver::robot::motors::{
    layer_turn_command, ser_slice_pos, slice_command, slice_pos_found, slice_pos_grabbed,
    slice_pos_released, slice_pos_turned, start_command, FAST_MODE, SLOW_MODE, STOP,
};
use square1_solver::robot::partpiece::{PartPiece, Shape, SideColor, UDColor};

fn part(shape: Shape, udcolor: UDColor, sidecolor: SideColor) -> PartPiece {
    PartPiece { shape, udcolor, sidecolor }
}

#[test]
fn an_edge_names_its_piece_by_its_colours() {
    assert_eq!(part(Shape::Edge, UDColor::Black, SideColor::Red).get_id(true), Some(7));
    assert_eq!(part(Shape::Edge, UDColor::Black, SideColor::Blue).get_id(false), Some(1));
    assert_eq!(part(Shape::Edge, UDColor::Black, SideColor::Orange).get_id(true), Some(3));
    assert_eq!(part(Shape::Edge, UDColor::Black, SideColor::Green).get_id(true), Some(5));
    assert_eq!(part(Shape::Edge, UDColor::White, SideColor::Red).get_id(true), Some(11));
    assert_eq!(part(Shape::Edge, UDColor::White, SideColor::Blue).get_id(true), Some(13));
    assert_eq!(part(Shape::Edge, UDColor::White, SideColor::Orange).get_id(false), Some(15));
    assert_eq!(part(Shape::Edge, UDColor::White, SideColor::Green).get_id(true), Some(9));
}

#[test]
fn the_first_half_of_a_corner_names_its_piece_by_its_layer() {
    let black = [
        (SideColor::Red, 0, 6),
        (SideColor::Blue, 2, 0),
        (SideColor::Orange, 4, 2),
        (SideColor::Green, 6, 4),
    ];
    for (side, left, right) in black {
        let p = part(Shape::CornerStart, UDColor::Black, side);
        assert_eq!(p.get_id(true), Some(left));
        assert_eq!(p.get_id(false), Some(right));
    }
    let white = [
        (SideColor::Red, 10, 12),
        (SideColor::Blue, 12, 14),
        (SideColor::Orange, 14, 8),
        (SideColor::Green, 8, 10),
    ];
    for (side, left, right) in white {
        let p = part(Shape::CornerStart, UDColor::White, side);
        assert_eq!(p.get_id(true), Some(left));
        assert_eq!(p.get_id(false), Some(right));
    }
}

#[test]
fn the_second_half_of_a_corner_names_no_piece() {
    assert_eq!(part(Shape::CornerEnd, UDColor::Black, SideColor::Red).get_id(true), None);
    assert_eq!(part(Shape::CornerEnd, UDColor::White, SideColor::Green).get_id(false), None);
}

#[test]
fn an_edge_has_no_other_half() {
    assert_eq!(part(Shape::Edge, UDColor::Black, SideColor::Red).get_adj(true), None);
    assert_eq!(part(Shape::Edge, UDColor::White, SideColor::Blue).get_adj(false), None);
}

#[test]
fn the_other_half_of_a_corner_has_the_neighbouring_side_colour() {
    let start = part(Shape::CornerStart, UDColor::Black, SideColor::Red);
    assert_eq!(start.get_adj(true), Some(part(Shape::CornerEnd, UDColor::Black, SideColor::Blue)));
    assert_eq!(
        start.get_adj(false),
        Some(part(Shape::CornerEnd, UDColor::Black, SideColor::Green))
    );
    let end = part(Shape::CornerEnd, UDColor::Black, SideColor::Blue);
    assert_eq!(end.get_adj(true), Some(part(Shape::CornerStart, UDColor::Black, SideColor::Red)));
    let white = part(Shape::CornerStart, UDColor::White, SideColor::Orange);
    assert_eq!(
        white.get_adj(true),
        Some(part(Shape::CornerEnd, UDColor::White, SideColor::Blue))
    );
    assert_eq!(
        white.get_adj(false),
        Some(part(Shape::CornerEnd, UDColor::White, SideColor::Green))
    );
}

#[test]
fn the_other_half_of_the_other_half_is_the_part_itself() {
    for shape in [Shape::CornerStart, Shape::CornerEnd] {
        for up_down in [UDColor::Black, UDColor::White] {
            for side in [SideColor::Red, SideColor::Blue, SideColor::Orange, SideColor::Green] {
                for left in [true, false] {
                    let p = part(shape, up_down, side);
                    let back = p.get_adj(left).unwrap().get_adj(left).unwrap();
                    assert_eq!(back, p);
                }
            }
        }
    }
}

#[test]
fn parts_have_names() {
    assert_eq!(Shape::CornerStart.name(), "corner start");
    assert_eq!(Shape::Edge.name(), "edge");
    assert_eq!(Shape::CornerEnd.name(), "corner end");
    assert_eq!(UDColor::Black.name(), "black");
    assert_eq!(UDColor::White.name(), "white");
    assert_eq!(SideColor::Red.name(), "red");
    assert_eq!(SideColor::Blue.name(), "blue");
    assert_eq!(SideColor::Orange.name(), "orange");
    assert_eq!(SideColor::Green.name(), "green");
}

#[test]
fn the_slice_positions_have_their_numbers() {
    assert_eq!(ser_slice_pos(-2), 0);
    assert_eq!(ser_slice_pos(-1), 1);
    assert_eq!(ser_slice_pos(1), 2);
    assert_eq!(ser_slice_pos(2), 3);
    assert_eq!(slice_pos_turned(2), -2);
    assert_eq!(slice_pos_turned(-1), 1);
    assert_eq!(slice_pos_turned(0), 0);
    assert_eq!(slice_pos_grabbed(-1), -2);
    assert_eq!(slice_pos_grabbed(1), 2);
    assert_eq!(slice_pos_grabbed(0), 2);
}

#[test]
fn a_layer_turn_is_one_byte() {
    assert_eq!(layer_turn_command(0, 0, true), Some(0));
    assert_eq!(layer_turn_command(3, 5, true), Some(0x35));
    assert_eq!(layer_turn_command(3, 5, false), Some(0x53));
    assert_eq!(layer_turn_command(-2, 2, true), Some(0xa2));
    assert_eq!(layer_turn_command(-6, 11, true), Some(0x6b));
    assert_eq!(layer_turn_command(11, -1, false), Some(0xbb));
}

#[test]
fn a_layer_turn_out_of_reach_is_not_sent() {
    assert_eq!(layer_turn_command(-7, 0, true), None);
    assert_eq!(layer_turn_command(0, 12, true), None);
    assert_eq!(layer_turn_command(12, -7, false), None);
}

use square1_solver::robot::builder::{
    convert_partpieces, fill_layer, get_turn_to_valid, settle_layers,
};
use square1_solver::robot::picconfig::PicConfig;
use square1_solver::robot::pictureset::{
    arg_min, classify_shape, classify_sidecolor, classify_udcolor, line_angle, line_class, median,
    reads_other_spot, red_top, slice_solved, thumb_to_cam,
};

fn edge(udcolor: UDColor, sidecolor: SideColor) -> PartPiece {
    part(Shape::Edge, udcolor, sidecolor)
}

fn corner(udcolor: UDColor, sidecolor: SideColor, left: bool) -> [PartPiece; 2] {
    let start = part(Shape::CornerStart, udcolor, sidecolor);
    [start, start.get_adj(left).unwrap()]
}

/// The parts of the upper layer of the solved puzzle as the left camera
/// sees them, and of the lower layer as the right camera sees them.
fn solved_layers() -> (Vec<PartPiece>, Vec<PartPiece>) {
    let mut left = vec![];
    for side in [SideColor::Red, SideColor::Blue, SideColor::Orange, SideColor::Green] {
        left.extend(corner(UDColor::Black, side, true));
        let next = match side {
            SideColor::Red => SideColor::Blue,
            SideColor::Blue => SideColor::Orange,
            SideColor::Orange => SideColor::Green,
            SideColor::Green => SideColor::Red,
        };
        left.push(edge(UDColor::Black, next));
    }
    let mut right = vec![];
    for (c, e) in [
        (SideColor::Orange, SideColor::Green),
        (SideColor::Green, SideColor::Red),
        (SideColor::Red, SideColor::Blue),
        (SideColor::Blue, SideColor::Orange),
    ] {
        right.extend(corner(UDColor::White, c, false));
        right.push(edge(UDColor::White, e));
    }
    (left, right)
}

#[test]
fn the_solved_layers_name_the_solved_configuration() {
    let (left, right) = solved_layers();
    let ids: Vec<u8> = left.iter().filter_map(|p| p.get_id(true)).collect();
    assert_eq!(ids, vec![0, 1, 2, 3, 4, 5, 6, 7]);
    let ids: Vec<u8> = right.iter().filter_map(|p| p.get_id(false)).collect();
    assert_eq!(ids, vec![8, 9, 10, 11, 12, 13, 14, 15]);
    let left: Vec<Option<PartPiece>> = left.into_iter().map(Some).collect();
    let right: Vec<Option<PartPiece>> = right.into_iter().map(Some).collect();
    // Both layers are turned by three parts, to the cut that lies next to a
    // turn of three parts.
    let converted = convert_partpieces(&left, &right, true, true).unwrap();
    assert_eq!(converted.square1.pieces, [2, 3, 4, 5, 6, 7, 0, 1, 10, 11, 12, 13, 14, 15, 8, 9]);
    assert_eq!((converted.left_motor_turn, converted.right_motor_turn), (-3, 3));
    let flipped = convert_partpieces(&left, &right, false, true).unwrap();
    assert_eq!(flipped.square1.pieces, [9, 8, 15, 14, 13, 12, 11, 10, 1, 0, 7, 6, 5, 4, 3, 2]);
    let cycled = convert_partpieces(&left, &right, true, false).unwrap();
    assert_eq!(cycled.square1.pieces, [6, 7, 0, 1, 2, 3, 4, 5, 14, 15, 8, 9, 10, 11, 12, 13]);
}

#[test]
fn layers_are_turned_to_the_slice_line() {
    let (left, right) = solved_layers();
    let mut left_turned = left.clone();
    left_turned.rotate_right(1);
    let mut right_turned = right.clone();
    right_turned.rotate_right(5);
    assert_eq!(get_turn_to_valid(&left), Some(3));
    assert_eq!(get_turn_to_valid(&left_turned), Some(3));
    assert_eq!(get_turn_to_valid(&right_turned), Some(2));
    // A layer of two corners and eight edges that can be cut before the
    // parts 0, 1, 4 and 5: the fourth lies next to three.
    let e = edge(UDColor::Black, SideColor::Red);
    let c = corner(UDColor::Black, SideColor::Red, true);
    let far = vec![e, c[0], c[1], e, e, e, e, e, c[0], c[1], e, e];
    assert_eq!(get_turn_to_valid(&far), Some(4));
    let six = [c[0], c[1]].repeat(6);
    assert_eq!(get_turn_to_valid(&six), Some(2));
    let far: Vec<Option<PartPiece>> = far.into_iter().map(Some).collect();
    let six: Vec<Option<PartPiece>> = six.into_iter().map(Some).collect();
    let converted = convert_partpieces(&far, &six, true, true).unwrap();
    assert_eq!((converted.left_motor_turn, converted.right_motor_turn), (2, 2));
    assert_eq!(converted.square1.pieces, [7, 7, 7, 0, 7, 7, 7, 7, 7, 0, 6, 6, 6, 6, 6, 6]);
    let left_turned: Vec<Option<PartPiece>> = left_turned.into_iter().map(Some).collect();
    let right_turned: Vec<Option<PartPiece>> = right_turned.into_iter().map(Some).collect();
    let converted = convert_partpieces(&left_turned, &right_turned, true, true).unwrap();
    assert_eq!((converted.left_motor_turn, converted.right_motor_turn), (-3, 2));
    assert_eq!(converted.square1.pieces, [1, 2, 3, 4, 5, 6, 7, 0, 14, 15, 8, 9, 10, 11, 12, 13]);
    assert!(converted.square1.is_valid());

}

#[test]
fn a_layer_that_cannot_be_cut_or_is_not_whole_gives_nothing() {
    let (left, right) = solved_layers();
    let whole_left: Vec<Option<PartPiece>> = left.iter().copied().map(Some).collect();
    let whole_right: Vec<Option<PartPiece>> = right.iter().copied().map(Some).collect();
    let mut missing = whole_left.clone();
    missing[5] = None;
    assert!(convert_partpieces(&missing, &whole_right, true, true).is_none());
    assert!(convert_partpieces(&whole_left, &missing, true, true).is_none());
    let ends = vec![part(Shape::CornerEnd, UDColor::Black, SideColor::Red); 12];
    assert_eq!(get_turn_to_valid(&ends), None);
    let ends: Vec<Option<PartPiece>> = ends.into_iter().map(Some).collect();
    assert!(convert_partpieces(&ends, &whole_right, true, true).is_none());
    let edges: Vec<Option<PartPiece>> =
        vec![Some(edge(UDColor::Black, SideColor::Red)); 12];
    assert!(convert_partpieces(&edges, &whole_right, true, true).is_none());
}

#[test]
fn detected_parts_are_entered_with_the_other_half_of_a_corner() {
    let start = part(Shape::CornerStart, UDColor::Black, SideColor::Red);
    let end = part(Shape::CornerEnd, UDColor::White, SideColor::Blue);
    let e = edge(UDColor::Black, SideColor::Green);
    let mut layer: Vec<Option<PartPiece>> = vec![None; 12];
    assert_eq!(fill_layer(&mut layer, &[None, Some(e), Some(start), None], 1, true, true), Ok(()));
    assert_eq!(layer[2], Some(e));
    assert_eq!(layer[3], Some(start));
    assert_eq!(layer[4], start.get_adj(true));
    assert_eq!(layer.iter().filter(|p| p.is_some()).count(), 3);
    // The spot that is known is not asked for again.
    assert_eq!(fill_layer(&mut layer, &[None, None, None, None], 1, true, true), Ok(()));
    // Nothing detected at the first spot of the next picture.
    assert_eq!(fill_layer(&mut layer, &[None, None, Some(e), None], 2, true, true), Ok(()));
    assert_eq!(layer[5], Some(e));
    assert_eq!(fill_layer(&mut layer, &[None, None, Some(e), None], 3, true, true), Err(0));
    let mut layer: Vec<Option<PartPiece>> = vec![None; 12];
    assert_eq!(
        fill_layer(&mut layer, &[Some(end), Some(e), Some(e), Some(e)], 0, false, false),
        Ok(())
    );
    assert_eq!(layer[0], Some(end));
    assert_eq!(layer[11], end.get_adj(false));
    assert_eq!(layer[1], Some(e));
    // A corner that falls on a part that is known.
    let mut layer: Vec<Option<PartPiece>> = vec![None; 12];
    layer[6] = Some(e);
    assert_eq!(
        fill_layer(&mut layer, &[Some(e), Some(start), Some(e), Some(e)], 1, false, false),
        Err(1)
    );
    assert_eq!(layer[5], None);
}

#[test]
fn the_median_is_the_value_in_the_middle() {
    assert_eq!(median(&vec![7]), 7);
    assert_eq!(median(&vec![3, 1, 2]), 2);
    assert_eq!(median(&vec![4, 1, 3, 2]), 3);
    assert_eq!(median(&vec![255, 0, 255]), 255);
    assert_eq!(median(&vec![0, 0, 9]), 0);
    let mut values: Vec<u8> = (0..=200).rev().collect();
    values.extend([5, 5, 5]);
    let mut sorted = values.clone();
    sorted.sort();
    assert_eq!(median(&values), sorted[sorted.len() / 2]);
}

#[test]
fn the_least_value_is_found_the_first_of_equals() {
    assert_eq!(arg_min(&vec![5]), 0);
    assert_eq!(arg_min(&vec![5, 3, 9, 3]), 1);
    assert_eq!(arg_min(&vec![-1, -7, 2]), 1);
    assert_eq!(line_class(12, &[-60, -30, 10, 14, 40, 80]), 2);
    assert_eq!(line_class(-100, &[-60, -30, 10, 14, 40, 80]), 0);
    assert_eq!(line_class(41, &[-60, -30, 10, 14, 40, 80]), 4);
    assert_eq!(line_class(2_000_000, &[-60, -30, 10, 14, 40, 5000]), 5);
    assert_eq!(line_class(i32::MAX, &[0, 1, 2, 3, 4, 5]), 5);
}

#[test]
fn colours_and_shapes_are_told_apart_by_their_numbers() {
    assert_eq!(classify_udcolor(0), UDColor::Black);
    assert_eq!(classify_udcolor(69), UDColor::Black);
    assert_eq!(classify_udcolor(70), UDColor::White);
    assert_eq!(classify_sidecolor(10, 0), SideColor::Red);
    assert_eq!(classify_sidecolor(10, 3), SideColor::Red);
    assert_eq!(classify_sidecolor(11, 0), SideColor::Orange);
    assert_eq!(classify_sidecolor(19, 1), SideColor::Red);
    assert_eq!(classify_sidecolor(19, 4), SideColor::Red);
    assert_eq!(classify_sidecolor(20, 2), SideColor::Orange);
    assert_eq!(classify_sidecolor(59, 5), SideColor::Orange);
    assert_eq!(classify_sidecolor(60, 1), SideColor::Green);
    assert_eq!(classify_sidecolor(99, 1), SideColor::Green);
    assert_eq!(classify_sidecolor(100, 1), SideColor::Blue);
    assert_eq!(classify_shape(0, 0), None);
    assert_eq!(classify_shape(1, 1), Some(Shape::CornerStart));
    assert_eq!(classify_shape(1, 0), Some(Shape::Edge));
    assert_eq!(classify_shape(4, 3), Some(Shape::Edge));
    assert_eq!(classify_shape(2, 0), Some(Shape::CornerEnd));
    assert_eq!(classify_shape(5, 3), None);
    assert_eq!(classify_shape(5, 1), None);
    assert_eq!(classify_shape(0, 2), None);
    assert!(reads_other_spot(Shape::CornerStart, 1));
    assert!(!reads_other_spot(Shape::CornerStart, 2));
    assert!(reads_other_spot(Shape::CornerEnd, 2));
    assert!(!reads_other_spot(Shape::Edge, 1));
}

#[test]
fn the_lines_of_the_slice_tell_how_the_puzzle_is_held() {
    assert!(!thumb_to_cam(&vec![]));
    assert!(thumb_to_cam(&vec![40, -10, 3]));
    assert!(!thumb_to_cam(&vec![-20, 0, 25]));
    assert!(slice_solved(true, &vec![]));
    assert!(slice_solved(true, &vec![-5, 21]));
    assert!(!slice_solved(true, &vec![-5, 20]));
    assert!(slice_solved(false, &vec![0]));
    assert!(!slice_solved(false, &vec![-1]));
    assert!(red_top(SideColor::Red, true));
    assert!(!red_top(SideColor::Red, false));
    assert!(red_top(SideColor::Blue, false));
    assert_eq!(line_angle(0), 0);
    assert_eq!(line_angle(90), 90);
    assert_eq!(line_angle(91), -89);
    assert_eq!(line_angle(180), 0);
}

#[test]
fn the_places_in_the_pictures_are_found_by_their_numbers() {
    let config = PicConfig {
        spi: 0,
        usb_port: 12,
        line_classes: [1, 2, 3, 4, 5, 6],
        spots_left_ud: [(1, 1), (2, 2)],
        spots_left_side_e: [(3, 3), (4, 4)],
        spots_left_side_cs: [(5, 5), (6, 6)],
        spots_left_side_ce: [(7, 7), (8, 8)],
        spots_right_ud: [(9, 9), (10, 10)],
        spots_right_side_e: [(11, 11), (12, 12)],
        spots_right_side_cs: [(13, 13), (14, 14)],
        spots_right_side_ce: [(15, 15), (16, 16)],
        spot_extra: (17, 17),
        areas_left: [(1, 2, 3, 4), (5, 6, 7, 8)],
        areas_right: [(9, 10, 11, 12), (13, 14, 15, 16)],
        area_upper_slice: (17, 18, 19, 20),
        area_lower_slice: (21, 22, 23, 24),
    };
    assert_eq!(config.get_spi_path(), "/dev/spidev0.0");
    assert_eq!(config.get_usb_path(), "/dev/ttyACM12");
    assert_eq!(config.get_line_classes(), [1, 2, 3, 4, 5, 6]);
    assert_eq!(config.get_spot(0, Shape::Edge), Some((1, 1)));
    assert_eq!(config.get_spot(1, Shape::CornerEnd), Some((2, 2)));
    assert_eq!(config.get_spot(2, Shape::Edge), Some((3, 3)));
    assert_eq!(config.get_spot(3, Shape::CornerStart), Some((6, 6)));
    assert_eq!(config.get_spot(3, Shape::CornerEnd), Some((8, 8)));
    assert_eq!(config.get_spot(5, Shape::Edge), Some((10, 10)));
    assert_eq!(config.get_spot(6, Shape::Edge), Some((11, 11)));
    assert_eq!(config.get_spot(7, Shape::CornerStart), Some((14, 14)));
    assert_eq!(config.get_spot(8, Shape::Edge), Some((17, 17)));
    assert_eq!(config.get_spot(9, Shape::Edge), None);
    assert_eq!(config.get_spot(10, Shape::Edge), None);
    assert_eq!(config.get_area(0), Some((1, 2, 3, 4)));
    assert_eq!(config.get_area(3), Some((13, 14, 15, 16)));
    assert_eq!(config.get_area(4), Some((17, 18, 19, 20)));
    assert_eq!(config.get_area(5), Some((21, 22, 23, 24)));
    assert_eq!(config.get_area(6), None);
}

#[test]
fn the_layers_are_set_right_by_half_a_step_between_pictures() {
    let e = edge(UDColor::Black, SideColor::Green);
    let f = edge(UDColor::White, SideColor::Red);
    let mut given: Vec<Option<PartPiece>> = vec![None; 12];
    given[0] = Some(e);
    given[7] = Some(f);
    // Small steps: the left layer by one part to the right, the right layer
    // by five parts to the left.
    let mut left = given.clone();
    let mut right = given.clone();
    settle_layers(&mut left, &mut right, true);
    let mut std_left = given.clone();
    let mut std_right = given.clone();
    std_left.rotate_right(1);
    std_right.rotate_left(5);
    assert_eq!(left, std_left);
    assert_eq!(right, std_right);
    assert_eq!(left[1], Some(e));
    assert_eq!(left[8], Some(f));
    assert_eq!(right[7], Some(e));
    assert_eq!(right[2], Some(f));
    // Large steps: by two parts to the right, by four parts to the left.
    let mut left = given.clone();
    let mut right = given.clone();
    settle_layers(&mut left, &mut right, false);
    assert_eq!(left[2], Some(e));
    assert_eq!(left[9], Some(f));
    assert_eq!(right[8], Some(e));
    assert_eq!(right[3], Some(f));
    assert_eq!(left.iter().filter(|p| p.is_some()).count(), 2);
    assert_eq!(right.iter().filter(|p| p.is_some()).count(), 2);
}

#[test]
fn the_slice_motor_starts_on_the_side_that_thumb_and_bar_give() {
    assert_eq!(slice_pos_found(true, true), -2);
    assert_eq!(slice_pos_found(false, false), -2);
    assert_eq!(slice_pos_found(true, false), 2);
    assert_eq!(slice_pos_found(false, true), 2);
    assert_eq!(ser_slice_pos(slice_pos_found(true, true)), 0);
    assert_eq!(ser_slice_pos(slice_pos_found(false, true)), 3);
}

#[test]
fn the_commands_carry_the_position_of_the_slice_motor() {
    assert_eq!(STOP, 0b11110000);
    assert_eq!(SLOW_MODE, 0b11111100);
    assert_eq!(FAST_MODE, 0b11111101);
    assert_eq!(start_command(-2), 0b11110100);
    assert_eq!(start_command(-1), 0b11110101);
    assert_eq!(start_command(1), 0b11110110);
    assert_eq!(start_command(2), 0b11110111);
    assert_eq!(slice_command(-2), 0b11111000);
    assert_eq!(slice_command(-1), 0b11111001);
    assert_eq!(slice_command(1), 0b11111010);
    assert_eq!(slice_command(2), 0b11111011);
}

#[test]
fn the_slice_motor_lets_go_on_the_side_on_which_it_holds() {
    assert_eq!(slice_pos_released(2), Some(1));
    assert_eq!(slice_pos_released(-2), Some(-1));
    assert_eq!(slice_pos_released(1), None);
    assert_eq!(slice_pos_released(-1), None);
    assert_eq!(slice_pos_released(0), None);
    assert_eq!(slice_pos_released(-3), Some(-1));
    assert_eq!(slice_pos_released(5), Some(2));
}
