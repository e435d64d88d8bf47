use square1_solver::square1::Square1;

fn arr(sq: &Square1) -> [u8; 16] {
    sq.pieces
}

#[test]
fn the_solved_configuration_holds_the_pieces_in_order() {
    let solved = Square1::solved();
    assert_eq!(arr(&solved), [0, 1, 2, 3, 4, 5, 6, 7, 8, 9, 10, 11, 12, 13, 14, 15]);
    assert_eq!(solved.get_num(), 0x0123_4567_89ab_cdef);
    assert!(solved.is_valid());
    assert!(solved.is_well_formed());
    assert!(solved.is_square_shaped());
}

#[test]
fn a_number_holds_the_pieces_as_hexadecimal_digits() {
    let sq = Square1::from_num(2837015813540066400);
    assert_eq!(sq.get_num(), 2837015813540066400);
    assert_eq!(arr(&Square1::from_num(0xfedc_ba98_7654_3210)), [
        15, 14, 13, 12, 11, 10, 9, 8, 7, 6, 5, 4, 3, 2, 1, 0,
    ]);
    assert_eq!(arr(&Square1::from_num(1)), [0, 0, 0, 0, 0, 0, 0, 0, 0, 0, 0, 0, 0, 0, 0, 1]);
    let given = Square1::from_arr([2, 7, 13, 15, 5, 1, 14, 0, 11, 12, 3, 9, 10, 6, 8, 4]);
    assert_eq!(arr(&Square1::from_num(given.get_num())), arr(&given));
    assert_eq!(given.get_num(), 0x27df_51e0_bc39_a684);
}

#[test]
fn the_angle_of_a_corner_is_two_and_of_an_edge_one() {
    let solved = Square1::solved();
    assert_eq!(solved.get_angle(0), 2);
    assert_eq!(solved.get_angle(1), 1);
    assert_eq!(solved.get_angle(14), 2);
    assert_eq!(solved.get_angle(15), 1);
    assert_eq!(solved.get_divide(), 8);
}

#[test]
fn the_slice_move_turns_the_right_half_over() {
    let mut sq = Square1::solved();
    assert_eq!(sq.turn_slice(), Ok(()));
    assert_eq!(arr(&sq), [0, 1, 2, 3, 11, 10, 9, 8, 7, 6, 5, 4, 12, 13, 14, 15]);
    assert_eq!(sq.turn_slice(), Ok(()));
    assert_eq!(arr(&sq), arr(&Square1::solved()));
}

#[test]
fn the_slice_move_fails_and_changes_nothing_where_a_piece_lies_across_the_line() {
    let upper = [0, 1, 2, 4, 3, 5, 6, 7, 8, 9, 10, 11, 12, 13, 14, 15];
    let mut sq = Square1::from_arr(upper);
    assert_eq!(sq.turn_slice(), Err(()));
    assert_eq!(arr(&sq), upper);
    let lower = [0, 1, 2, 3, 4, 5, 6, 7, 8, 9, 10, 12, 11, 13, 14, 15];
    let mut sq = Square1::from_arr(lower);
    assert_eq!(sq.turn_slice(), Err(()));
    assert_eq!(arr(&sq), lower);
}

#[test]
fn a_layer_turn_rotates_each_layer_to_the_left() {
    let mut sq = Square1::solved();
    sq.turn_layers(&(1, 0));
    assert_eq!(arr(&sq), [1, 2, 3, 4, 5, 6, 7, 0, 8, 9, 10, 11, 12, 13, 14, 15]);
    let mut sq = Square1::solved();
    sq.turn_layers(&(3, 6));
    assert_eq!(arr(&sq), [3, 4, 5, 6, 7, 0, 1, 2, 14, 15, 8, 9, 10, 11, 12, 13]);
    let mut sq = Square1::solved();
    sq.turn_layers(&(0, 0));
    assert_eq!(arr(&sq), arr(&Square1::solved()));
    let mut sq = Square1::solved();
    sq.turn_layers(&(8, 8));
    assert_eq!(arr(&sq), arr(&Square1::solved()));
}

#[test]
fn a_layer_turn_is_undone_by_the_turn_that_completes_the_circle() {
    let start = Square1::from_arr([2, 7, 13, 15, 5, 1, 14, 0, 11, 12, 3, 9, 10, 6, 8, 4]);
    let divide = start.get_divide();
    for up in 0..=divide {
        for down in 0..=(16 - divide) {
            let mut sq = start;
            sq.turn_layers(&(up, down));
            sq.turn_layers(&(divide - up, 16 - divide - down));
            assert_eq!(arr(&sq), arr(&start));
        }
    }
}

#[test]
fn flipping_twice_and_mirroring_twice_change_nothing() {
    let start = Square1::from_arr([2, 7, 13, 15, 5, 1, 14, 0, 11, 12, 3, 9, 10, 6, 8, 4]);
    let mut sq = start;
    sq.flip_layers();
    assert_eq!(arr(&sq), [4, 8, 6, 10, 9, 3, 12, 11, 0, 14, 1, 5, 15, 13, 7, 2]);
    sq.flip_layers();
    assert_eq!(arr(&sq), arr(&start));
    for divide in 0..=16 {
        let mut sq = start;
        sq.mirror_layers_atd(divide);
        sq.mirror_layers_atd(divide);
        assert_eq!(arr(&sq), arr(&start));
    }
    let mut sq = Square1::solved();
    sq.mirror_layers();
    assert_eq!(arr(&sq), [11, 10, 9, 8, 15, 14, 13, 12, 3, 2, 1, 0, 7, 6, 5, 4]);
    sq.mirror_layers();
    assert_eq!(arr(&sq), arr(&Square1::solved()));
}

#[test]
fn exchanging_the_colours_twice_changes_nothing() {
    let mut sq = Square1::solved();
    sq.flip_colors();
    assert_eq!(arr(&sq), [14, 13, 12, 11, 10, 9, 8, 15, 6, 5, 4, 3, 2, 1, 0, 7]);
    sq.flip_colors();
    assert_eq!(arr(&sq), arr(&Square1::solved()));
}

#[test]
fn cycling_the_colours_round_changes_nothing() {
    let mut sq = Square1::solved();
    sq.cycle_colors(&(1, 2));
    assert_eq!(arr(&sq), [6, 7, 0, 1, 2, 3, 4, 5, 12, 13, 14, 15, 8, 9, 10, 11]);
    let start = Square1::from_arr([2, 7, 13, 15, 5, 1, 14, 0, 11, 12, 3, 9, 10, 6, 8, 4]);
    for up in 0..=4u8 {
        for down in 0..=4u8 {
            let mut sq = start;
            sq.cycle_colors(&(up, down));
            sq.cycle_colors(&(4 - up, 4 - down));
            assert_eq!(arr(&sq), arr(&start));
        }
    }
    let mut sq = start;
    sq.cycle_colors(&(0, 0));
    assert_eq!(arr(&sq), arr(&start));
}

#[test]
fn validity_asks_for_every_piece_two_layers_and_the_slice_line() {
    assert!(Square1::from_arr([2, 7, 13, 15, 5, 1, 14, 0, 11, 12, 3, 9, 10, 6, 8, 4]).is_well_formed());
    let twice = Square1::from_arr([0, 0, 2, 3, 4, 5, 6, 7, 8, 9, 10, 11, 12, 13, 14, 15]);
    assert!(!twice.is_valid());
    assert!(!twice.is_well_formed());
    let too_big = Square1::from_arr([16, 1, 2, 3, 4, 5, 6, 7, 8, 9, 10, 11, 12, 13, 14, 15]);
    assert!(!too_big.is_valid());
    // Seven corners in a row: the thirteenth unit is the second half of one.
    let split = Square1::from_arr([1, 0, 2, 4, 6, 8, 10, 12, 14, 3, 5, 7, 9, 11, 13, 15]);
    assert!(!split.is_well_formed());
    assert!(!split.is_valid());
    let across = Square1::from_arr([0, 1, 2, 4, 3, 5, 6, 7, 8, 9, 10, 11, 12, 13, 14, 15]);
    assert!(across.is_well_formed());
    assert!(!across.is_valid());
    assert!(!across.is_square_shaped());
}

#[test]
fn every_turn_that_is_offered_allows_the_slice_move() {
    let mut frontier = vec![Square1::solved()];
    for _ in 0..3 {
        let mut next = vec![];
        for sq in &frontier {
            let unique = sq.get_unique_turns();
            let all = sq.get_all_turns();
            assert_eq!(all.len(), 2 * unique.len());
            for turn in &unique {
                assert!(all.contains(turn));
            }
            for turn in all {
                let mut adj = *sq;
                adj.turn_layers(&turn);
                assert_eq!(adj.turn_slice(), Ok(()));
                assert!(adj.is_valid());
                let mut back = adj;
                assert_eq!(back.turn_slice(), Ok(()));
                let divide = back.get_divide();
                back.turn_layers(&(divide - turn.0, 16 - divide - turn.1));
                assert_eq!(back.pieces, sq.pieces);
                if next.len() < 40 {
                    next.push(adj);
                }
            }
        }
        frontier = next;
    }
}

#[test]
fn the_solved_configuration_has_its_turns() {
    let solved = Square1::solved();
    let unique = solved.get_unique_turns();
    assert_eq!(unique.len(), 32);
    assert_eq!(&unique[..4], &[(0, 0), (4, 0), (1, 0), (5, 0)]);
    let all = solved.get_all_turns();
    assert_eq!(all.len(), 64);
    assert_eq!(&all[..4], &[(0, 0), (4, 4), (0, 4), (4, 0)]);
}

#[test]
fn two_squares_have_their_turns_by_table() {
    let solved = Square1::solved();
    let turns = solved.get_unique_turns_sqsq();
    assert_eq!(turns[0], (1, 0));
    assert_eq!(turns[15], (6, 7));
    for turn in turns {
        let mut adj = solved;
        adj.turn_layers(&turn);
        assert_eq!(adj.turn_slice(), Ok(()));
        assert!(adj.is_square_shaped());
    }
    let mut turned = solved;
    turned.turn_layers(&(1, 0));
    assert_eq!(turned.get_unique_turns_sqsq()[0], (0, 0));
    assert_eq!(turned.get_unique_turns_sqsq()[5], (1, 5));
    let mut other = solved;
    other.turn_layers(&(0, 1));
    assert_eq!(other.get_unique_turns_sqsq()[5], (5, 1));
    assert_eq!(solved.get_all_turns_sqsq()[0], (1, 0));
    assert_eq!(turned.get_all_turns_sqsq()[31], (7, 7));
    for turn in turned.get_all_turns_sqsq() {
        let mut adj = turned;
        adj.turn_layers(&turn);
        assert_eq!(adj.turn_slice(), Ok(()));
        assert!(adj.is_square_shaped());
    }
}

#[test]
fn a_turn_is_written_in_angular_units() {
    let solved = Square1::solved();
    assert_eq!(solved.get_human_readable((0, 0)), (0, 0));
    assert_eq!(solved.get_human_readable((1, 0)), (2, 0));
    assert_eq!(solved.get_human_readable((2, 1)), (3, 2));
    assert_eq!(solved.get_human_readable((4, 4)), (6, 6));
    assert_eq!(solved.get_human_readable((5, 7)), (-4, -1));
    assert_eq!(solved.get_human_readable((8, 8)), (0, 0));
    assert_eq!(solved.get_human_readable((7, 3)), (-1, 5));
}

#[test]
fn a_scramble_is_valid_and_follows_its_choices() {
    assert_eq!(Square1::scrambled(&vec![]).pieces, Square1::solved().pieces);
    let once = Square1::scrambled(&vec![33]);
    let mut expected = Square1::solved();
    expected.turn_layers(&(4, 0));
    assert_eq!(expected.turn_slice(), Ok(()));
    assert_eq!(once.pieces, expected.pieces);
    let many = Square1::scrambled(&vec![5, 17, 2, 40, 11, 9, 23, 7, 0, 31, 12, 3]);
    assert!(many.is_valid());
    assert_ne!(many.pieces, Square1::solved().pieces);
}

#[test]
fn the_lists_of_turns_are_complete_and_hold_no_turn_twice() {
    let mut frontier = vec![Square1::solved()];
    for _ in 0..3 {
        let mut next = vec![];
        for sq in &frontier {
            let unique = sq.get_unique_turns();
            let all = sq.get_all_turns();
            for (i, turn) in all.iter().enumerate() {
                assert!(!all[i + 1..].contains(turn));
            }
            for (i, turn) in unique.iter().enumerate() {
                assert!(!unique[i + 1..].contains(turn));
            }
            let divide = sq.get_divide();
            let mut count = 0;
            for up in 0..divide {
                for down in 0..16 - divide {
                    let mut adj = *sq;
                    adj.turn_layers(&(up, down));
                    if adj.turn_slice().is_ok() {
                        count += 1;
                        assert!(all.contains(&(up, down)));
                        let half = |from: usize, len: usize, at: usize| {
                            let angle = |to: usize| -> u8 {
                                (from..from + to).map(|i| sq.get_angle(i)).sum()
                            };
                            (0..len)
                                .find(|&other| (angle(other) + 6) % 12 == angle(at) % 12)
                                .unwrap()
                        };
                        let partner = (half(0, divide, up), half(divide, 16 - divide, down));
                        assert!(unique.contains(&(up, down)) != unique.contains(&partner));
                    }
                }
            }
            assert_eq!(count, all.len());
            if let Some(turn) = unique.first() {
                let mut adj = *sq;
                adj.turn_layers(turn);
                assert_eq!(adj.turn_slice(), Ok(()));
                if next.len() < 30 {
                    next.push(adj);
                }
            }
            for turn in unique.iter().skip(1).take(6) {
                let mut adj = *sq;
                adj.turn_layers(turn);
                assert_eq!(adj.turn_slice(), Ok(()));
                if next.len() < 30 {
                    next.push(adj);
                }
            }
        }
        frontier = next;
    }
}
