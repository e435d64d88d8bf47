use square1_solver::square1::Square1;
use square1_solver::state::rank::{count_higher, rank_of, PieceKind};
use square1_solver::state::shape::{
    get_case_2e, get_case_4e, get_case_6e, get_shape, get_shape_turn, max, min, mirror_case_4e_of,
    sum_sum_to_of, sum_to_of,
};
use square1_solver::state::stateall::StateAll;
use square1_solver::state::statecs::StateCS;
use square1_solver::state::statesqsq::{StateSqSq, CO_0, CO_1, CO_2, CO_3, CO_4};
use square1_solver::state::State;

const SCRAMBLED: [u8; 16] = [2, 7, 13, 15, 5, 1, 14, 0, 11, 12, 3, 9, 10, 6, 8, 4];

fn walk(steps: usize) -> Vec<Square1> {
    let mut seen = vec![Square1::solved()];
    let mut at = Square1::solved();
    for step in 0..steps {
        let turns = at.get_unique_turns();
        let turn = turns[(step * 7 + 3) % turns.len()];
        at.turn_layers(&turn);
        assert_eq!(at.turn_slice(), Ok(()));
        seen.push(at);
    }
    seen
}

fn class_all(sq: Square1) -> Vec<usize> {
    let mut state = StateAll::new(sq);
    let mut class = vec![state.get_index()];
    class.extend(state.get_symmetric_indecies());
    class
}

#[test]
fn the_shape_of_a_layer_counts_the_edges_between_its_corners() {
    let solved = Square1::solved();
    assert_eq!(get_shape(&solved, true), vec![1, 1, 1, 1]);
    assert_eq!(get_shape(&solved, false), vec![1, 1, 1, 1]);
    let given = Square1::from_arr(SCRAMBLED);
    assert_eq!(get_shape(&given, true), vec![5, 0, 1]);
    assert_eq!(get_shape(&given, false), vec![0, 0, 0, 2, 0]);
}

#[test]
fn lists_have_their_greatest_and_least() {
    assert_eq!(max(&vec![]), 0);
    assert_eq!(min(&vec![]), 0);
    assert_eq!(max(&vec![2, 5, 1]), 5);
    assert_eq!(min(&vec![2, 5, 1]), 1);
    assert_eq!(sum_to_of(0), 0);
    assert_eq!(sum_to_of(4), 10);
    assert_eq!(sum_to_of(8), 36);
    assert_eq!(sum_sum_to_of(0), 0);
    assert_eq!(sum_sum_to_of(1), 1);
    assert_eq!(sum_sum_to_of(2), 4);
    assert_eq!(sum_sum_to_of(3), 10);
    assert_eq!(sum_sum_to_of(4), 20);
    assert_eq!(sum_sum_to_of(5), 35);
    assert_eq!(sum_sum_to_of(6), 56);
    assert_eq!(sum_to_of(1000), 500_500);
    assert_eq!(sum_to_of(100_000), 5_000_050_000);
    assert_eq!(count_higher(&vec![3, 9, 5, 1], 4), 2);
}

#[test]
fn the_shapes_have_their_cases() {
    assert_eq!(get_case_4e(&vec![1, 1, 1, 1]), 0);
    assert_eq!(get_case_4e(&vec![2, 0, 2, 0]), 3);
    assert_eq!(get_case_4e(&vec![0, 2, 0, 2]), 3);
    assert_eq!(get_case_4e(&vec![4, 0, 0, 0]), 7);
    assert_eq!(get_case_4e(&vec![3, 1, 0, 0]), 9);
    assert_eq!(get_case_4e(&vec![3, 0, 0, 1]), 5);
    assert_eq!(get_case_4e(&vec![2, 1, 1, 0]), 8);
    assert_eq!(get_case_4e(&vec![2, 0, 1, 1]), 1);
    assert_eq!(mirror_case_4e_of(1), 8);
    assert_eq!(mirror_case_4e_of(5), 9);
    assert_eq!(mirror_case_4e_of(8), 1);
    assert_eq!(mirror_case_4e_of(9), 5);
    assert_eq!(mirror_case_4e_of(3), 3);
    assert_eq!(get_case_6e(&vec![2, 2, 2]), 3);
    assert_eq!(get_case_6e(&vec![6, 0, 0]), 6);
    assert_eq!(get_case_6e(&vec![5, 0, 1]), 2);
    assert_eq!(get_case_2e(&vec![0, 0, 0, 0, 0]), 0);
    assert_eq!(get_case_2e(&vec![1, 1, 0, 0, 0]), 1);
    assert_eq!(get_case_2e(&vec![1, 0, 0, 0, 1]), 1);
    assert_eq!(get_case_2e(&vec![1, 0, 1, 0, 0]), 2);
    assert_eq!(get_case_2e(&vec![2, 0, 0, 0, 0]), 0);
}

#[test]
fn a_layer_is_turned_behind_its_first_longest_run_of_edges() {
    let solved = Square1::solved();
    assert_eq!(get_shape_turn(&solved, true, &vec![1, 1, 1, 1]), 2);
    assert_eq!(get_shape_turn(&solved, false, &vec![1, 1, 1, 1]), 7);
}

#[test]
fn an_arrangement_is_ranked_by_the_greater_pieces_before_each_piece() {
    let solved = Square1::solved();
    assert_eq!(rank_of(&solved, PieceKind::Edge, false), 0);
    assert_eq!(rank_of(&solved, PieceKind::BlackCorner, true), 0);
    assert_eq!(rank_of(&solved, PieceKind::WhiteCorner, true), 0);
    let mut back = solved;
    back.flip_layers();
    assert_eq!(rank_of(&back, PieceKind::Edge, false), 40319);
    assert_eq!(rank_of(&back, PieceKind::BlackCorner, false), 23);
    assert_eq!(rank_of(&back, PieceKind::BlackCorner, true), 5);
    assert_eq!(rank_of(&back, PieceKind::WhiteCorner, true), 5);
    let given = Square1::from_arr(SCRAMBLED);
    // The edges 7, 13, 15, 5, 1, 11, 3, 9: 0 + 0 + 0 + 3 * 6 + 4 * 24
    // + 2 * 120 + 5 * 720 + 3 * 5040.
    assert_eq!(rank_of(&given, PieceKind::Edge, false), 19074);
}

#[test]
fn the_solved_configuration_has_its_indices() {
    let solved = Square1::solved();
    assert_eq!(StateAll::new(solved).get_index(), 481_573_224);
    let cs = StateCS::new(solved);
    // Shape nought; the turn behind the first edge of each layer leaves the
    // pieces in an odd arrangement.
    assert_eq!(cs.get_index(), 65);
    assert_eq!(StateSqSq::new(solved).get_index(), 0);
    assert_eq!(StateAll::NAME, "all");
    assert_eq!(StateCS::NAME, "cs");
    assert_eq!(StateSqSq::NAME, "sqsq");
    assert_eq!(StateAll::SIZE, 3_302_208_000);
    assert_eq!(StateCS::SIZE, 113);
    assert_eq!(StateSqSq::SIZE, 3_628_800);
    assert_eq!((StateAll::MAX_SLICES, StateCS::MAX_SLICES, StateSqSq::MAX_SLICES), (12, 7, 9));
}

#[test]
fn every_index_lies_below_the_size_of_its_indexing() {
    for sq in walk(60) {
        let mut all = StateAll::new(sq);
        assert!(all.get_index() < StateAll::SIZE);
        for index in all.get_symmetric_indecies() {
            assert!(index < StateAll::SIZE);
        }
        let mut cs = StateCS::new(sq);
        assert!(cs.get_index() < StateCS::SIZE);
        assert!(cs.get_symmetric_indecies().is_empty());
        assert!(StateAll::accepts(&sq));
        assert!(StateCS::accepts(&sq));
    }
}

#[test]
fn the_state_keeps_its_configuration_over_the_symmetric_indices() {
    let mut state = StateAll::new(Square1::from_arr(SCRAMBLED));
    let before = state.get_square1_num();
    let first = state.get_symmetric_indecies();
    assert_eq!(state.get_square1_num(), before);
    let second = state.get_symmetric_indecies();
    assert_eq!(first, second);
    if let Some(last) = first.last() {
        assert_eq!(state.get_index(), *last);
    }
}

#[test]
fn turning_a_layer_does_not_change_the_index() {
    for sq in walk(12) {
        let index = StateAll::new(sq).get_index();
        let coarse = StateCS::new(sq).get_index();
        let divide = sq.get_divide();
        for up in 0..=divide {
            let mut turned = sq;
            turned.turn_layers(&(up, 0));
            if !turned.is_well_formed() {
                continue;
            }
            assert_eq!(StateCS::new(turned).get_index(), coarse);
            assert!(class_all(turned).contains(&index));
        }
    }
}

#[test]
fn the_layers_exchanged_and_the_mirror_image_share_the_class_of_indices() {
    for sq in walk(12) {
        let class = class_all(sq);
        let mut flipped = sq;
        flipped.flip_layers();
        assert!(class.contains(&StateAll::new(flipped).get_index()));
        let mut mirrored = sq;
        mirrored.mirror_layers();
        assert!(class.contains(&StateAll::new(mirrored).get_index()));
        let mut recoloured = sq;
        recoloured.flip_colors();
        assert!(class.contains(&StateAll::new(recoloured).get_index()));
        let mut cycled = sq;
        cycled.cycle_colors(&(1, 3));
        assert!(class.contains(&StateAll::new(cycled).get_index()));
    }
}

#[test]
fn the_next_positions_are_one_turn_and_the_slice_move_away() {
    let solved = Square1::solved();
    let next = StateAll::gen_next_positions(solved.get_num());
    assert_eq!(next.len(), 32);
    assert_eq!(next[0], 0x0123_ba98_7654_cdef);
    let mut second = solved;
    second.turn_layers(&(4, 0));
    assert_eq!(second.turn_slice(), Ok(()));
    assert_eq!(next[1], second.get_num());
    for num in &next {
        assert!(Square1::from_num(*num).is_valid());
    }
    let coarse = StateCS::gen_next_positions(solved.get_num());
    assert_eq!(coarse.len(), 64);
    assert_eq!(&coarse[..32], &next[..]);
    let squares = StateSqSq::gen_next_positions(solved.get_num());
    assert_eq!(squares.len(), 16);
    let mut first = solved;
    first.turn_layers(&(1, 0));
    assert_eq!(first.turn_slice(), Ok(()));
    assert_eq!(squares[0], first.get_num());
    for num in squares {
        let sq = Square1::from_num(num);
        assert!(StateSqSq::accepts(&sq));
        assert!(StateSqSq::new(sq).get_index() < StateSqSq::SIZE);
    }
}

#[test]
fn the_indexing_of_two_squares_covers_two_squares_only() {
    assert!(StateSqSq::accepts(&Square1::solved()));
    assert!(!StateSqSq::accepts(&Square1::from_arr(SCRAMBLED)));
    assert!(StateAll::accepts(&Square1::from_arr(SCRAMBLED)));
    let twice = Square1::from_arr([0, 0, 2, 3, 4, 5, 6, 7, 8, 9, 10, 11, 12, 13, 14, 15]);
    assert!(!StateAll::accepts(&twice));
    assert!(!StateCS::accepts(&twice));
    assert!(!StateSqSq::accepts(&twice));
}

#[test]
fn two_squares_have_as_many_symmetric_indices_as_their_corners_allow() {
    let mut at = Square1::solved();
    let mut counts = vec![];
    for step in 0..40 {
        let mut state = StateSqSq::new(at);
        assert!(state.co < 5);
        let expected = [63, 3, 7, 7, 31][state.co];
        let symmetric = state.get_symmetric_indecies();
        assert_eq!(symmetric.len(), expected);
        for index in &symmetric {
            assert!(*index < StateSqSq::SIZE);
        }
        counts.push(state.co);
        let turns = at.get_unique_turns_sqsq();
        at.turn_layers(&turns[(step * 5 + 1) % 16]);
        assert_eq!(at.turn_slice(), Ok(()));
    }
    assert_eq!(counts[0], 0);
}

#[test]
fn two_squares_hold_their_corners_and_edges_by_turns() {
    let state = StateSqSq {
        sq1: Square1::solved(),
        co: 0,
        cp_black: 0,
        cp_white: 0,
        ep: 0,
        index: 0,
        up_alignment: 0,
        down_alignment: 0,
    };
    for place in 0..8 {
        assert_eq!(state.get_corner(place), 2 * place as u8);
        assert_eq!(state.get_edge(place), 2 * place as u8 + 1);
    }
    let mut turned = Square1::solved();
    turned.turn_layers(&(1, 3));
    let state = StateSqSq { sq1: turned, up_alignment: 1, down_alignment: 1, ..state };
    assert_eq!(state.get_corner(0), 2);
    assert_eq!(state.get_edge(0), 1);
    assert_eq!(state.get_corner(4), 12);
    assert_eq!(state.get_edge(4), 11);
}

fn squares_walk(steps: usize) -> Vec<Square1> {
    let mut seen = vec![Square1::solved()];
    let mut at = Square1::solved();
    for step in 0..steps {
        let turns = at.get_unique_turns_sqsq();
        at.turn_layers(&turns[(step * 7 + 3) % 16]);
        assert_eq!(at.turn_slice(), Ok(()));
        seen.push(at);
    }
    seen
}

#[test]
fn the_symmetries_of_two_squares_stay_within_the_class_of_indices() {
    let mut arrangements = [0usize; 5];
    for sq in squares_walk(80) {
        let mut state = StateSqSq::new(sq);
        let mut class = vec![state.get_index()];
        class.extend(state.get_symmetric_indecies());
        let canonical = state.sq1;
        arrangements[state.co] += 1;
        assert!(class.contains(&StateSqSq::new(canonical).get_index()));
        let lines: &[(bool, bool, bool, usize, usize)] = match state.co {
            0 => &CO_0,
            1 => &CO_1,
            2 => &CO_2,
            3 => &CO_3,
            _ => &CO_4,
        };
        for line in lines {
            let mut made = StateSqSq {
                sq1: canonical,
                co: state.co,
                cp_black: 0,
                cp_white: 0,
                ep: 0,
                index: 0,
                up_alignment: 0,
                down_alignment: 0,
            };
            if line.0 {
                made.flip_layers();
            }
            if line.1 {
                made.flip_colors();
            }
            if line.2 {
                made.mirror_layers();
            }
            made.rotate_layers(line.3, line.4);
            let index = StateSqSq::new(made.sq1).get_index();
            assert!(class.contains(&index));
        }
    }
    assert!(arrangements.iter().filter(|count| **count > 0).count() >= 3);
}
