use std::str::FromStr;

use square1_solver::notation::{compact, is_whitespace, signed_string};
use square1_solver::solver::{
    get_length, get_length_swap, get_onhead, get_swap, load_table, solve, Solution, Step,
    TableHandle,
};
use square1_solver::square1::Square1;

fn text_of(notation: Vec<(i8, i8)>) -> String {
    Solution { notation }.to_string()
}

#[test]
fn test_parse() {
    let s = Solution::from_str("(2,3)/(-2,5)/(6,0)/(0,1)").unwrap();
    println!("{}", s.to_string());
    assert_eq!(s.notation, vec![(2, 3), (-2, 5), (6, 0), (0, 1)]);
    assert_eq!(s.to_string(), "(2,3)/(-2,5)/(6,0)/(0,1)");
}

#[test]
fn parse_reads_a_leading_stroke_as_a_turn_of_nothing() {
    let s = Solution::from_str("/(1,2)").unwrap();
    assert_eq!(s.notation, vec![(0, 0), (1, 2)]);
}

#[test]
fn parse_reads_a_trailing_stroke_as_a_turn_of_nothing() {
    let s = Solution::from_str("(1,2)/").unwrap();
    assert_eq!(s.notation, vec![(1, 2), (0, 0)]);
    let both = Solution::from_str("/ (3,-3) /").unwrap();
    assert_eq!(both.notation, vec![(0, 0), (3, -3), (0, 0)]);
}

#[test]
fn parse_skips_white_space_and_takes_repeated_signs() {
    let s = Solution::from_str(" ( 1 , - 2 ) /\t( --4 , 0 )\n").unwrap();
    assert_eq!(s.notation, vec![(1, -2), (4, 0)]);
}

#[test]
fn parse_rejects_what_is_no_solution() {
    assert!(Solution::from_str("x").is_err());
    assert!(Solution::from_str("(1,2").is_err());
    assert!(Solution::from_str("(1;2)").is_err());
    assert!(Solution::from_str("(1,2)(3,4)").is_err());
    assert!(Solution::from_str("(1,2)//(3,4)").is_err());
    assert!(Solution::from_str("//").is_err());
    assert!(Solution::from_str("(+1,2)").is_err());
    assert!(Solution::from_str("(1,-)").is_err());
    assert!(Solution::from_str("(,1)").is_err());
    assert!(Solution::from_str("(1,2)/x").is_err());
    assert!(Solution::from_str("(128,0)").is_err());
    assert!(Solution::from_str("(0,-129)").is_err());
    assert!(Solution::from_str("(--128,0)").is_err());
    assert!(Solution::from_str("(99999999999999999999,0)").is_err());
}

#[test]
fn parse_reads_numbers_of_more_than_one_digit() {
    assert_eq!(Solution::from_str("(10,2)").unwrap().notation, vec![(10, 2)]);
    assert_eq!(Solution::from_str("(-11,11)").unwrap().notation, vec![(-11, 11)]);
    assert_eq!(Solution::from_str("(-128,127)").unwrap().notation, vec![(-128, 127)]);
    assert_eq!(Solution::from_str("(007,--12)").unwrap().notation, vec![(7, 12)]);
    assert_eq!(Solution::from_str("(1 0,2)").unwrap().notation, vec![(10, 2)]);
}

#[test]
fn the_empty_text_holds_no_turn() {
    assert_eq!(Solution::from_str("").unwrap().notation, vec![]);
    assert_eq!(Solution::from_str("  \t ").unwrap().notation, vec![]);
    assert_eq!(text_of(vec![]), "");
}

#[test]
fn format_leaves_out_a_turn_of_nothing_at_either_end() {
    assert_eq!(text_of(vec![(0, 0)]), "(0,0)");
    assert_eq!(text_of(vec![(1, 2)]), "(1,2)");
    assert_eq!(text_of(vec![(0, 0), (1, 2)]), "/(1,2)");
    assert_eq!(text_of(vec![(1, 2), (0, 0)]), "(1,2)/");
    assert_eq!(text_of(vec![(0, 0), (0, 0), (0, 0)]), "/(0,0)/");
    assert_eq!(text_of(vec![(-5, 6), (0, 0), (3, -1)]), "(-5,6)/(0,0)/(3,-1)");
    assert_eq!(text_of(vec![(0, 0), (0, 0)]), "/");
}

#[test]
fn format_writes_numbers_of_more_than_one_digit() {
    assert_eq!(text_of(vec![(-128, 127)]), "(-128,127)");
    assert_eq!(text_of(vec![(10, 11), (0, 0)]), "(10,11)/");
    assert_eq!(signed_string(-10), "-10");
    assert_eq!(signed_string(0), "0");
}

#[test]
fn reading_the_text_of_a_solution_gives_it_back() {
    let samples: Vec<Vec<(i8, i8)>> = vec![
        vec![],
        vec![(0, 0)],
        vec![(0, 0), (0, 0)],
        vec![(10, -11)],
        vec![(-128, 127), (0, 0)],
        vec![(0, 0), (11, 0), (100, -100)],
        vec![(9, -9)],
        vec![(0, 0), (1, 0)],
        vec![(1, 0), (0, 0)],
        vec![(0, 0), (0, 0), (0, 0)],
        vec![(0, 0), (2, 3), (0, 0)],
        vec![(-1, 6), (3, 3), (-5, 0), (6, 6), (0, -2)],
    ];
    for sample in samples {
        let text = text_of(sample.clone());
        let back = Solution::from_str(&text).unwrap();
        assert_eq!(back.notation, sample);
    }
}

#[test]
fn a_single_stroke_is_two_turns_of_nothing() {
    let text = text_of(vec![(0, 0), (0, 0)]);
    assert_eq!(text, "/");
    assert_eq!(Solution::from_str(&text).unwrap().notation, vec![(0, 0), (0, 0)]);
    assert_eq!(Solution::from_str(" / ").unwrap().notation, vec![(0, 0), (0, 0)]);
}

#[test]
fn white_space_is_told_apart() {
    assert!(is_whitespace(' '));
    assert!(is_whitespace('\t'));
    assert!(is_whitespace('\n'));
    assert!(is_whitespace('\u{a0}'));
    assert!(is_whitespace('\u{2003}'));
    assert!(is_whitespace('\u{3000}'));
    assert!(!is_whitespace('('));
    assert!(!is_whitespace('0'));
    assert!(!is_whitespace('\u{200b}'));
    assert_eq!(compact(" a\tb \u{2028}c"), vec!['a', 'b', 'c']);
    for code in 0u32..0x3100 {
        if let Some(c) = char::from_u32(code) {
            assert_eq!(is_whitespace(c), c.is_whitespace());
        }
    }
}

#[test]
fn inverse_turns_the_sequence_round() {
    let s = Solution { notation: vec![(2, 3), (-2, 5), (6, 0), (0, 1)] };
    let undo = s.inverse();
    assert_eq!(undo.notation, vec![(0, -1), (-6, 0), (2, -5), (-2, -3)]);
    assert_eq!(undo.inverse().notation, s.notation);
    let none = Solution { notation: vec![] };
    assert_eq!(none.inverse().notation, vec![]);
}

#[test]
fn a_turn_costs_its_greater_part() {
    assert_eq!(get_length((0, 0)), 0);
    assert_eq!(get_length((2, -5)), 5);
    assert_eq!(get_length((-6, 1)), 6);
    assert_eq!(get_length((6, 6)), 6);
    assert_eq!(get_length((11, -7)), 11);
    assert_eq!(get_length((-127, 100)), 127);
}

#[test]
fn a_swapped_turn_costs_six_less_its_smaller_part() {
    assert_eq!(get_length_swap((0, 0)), 6);
    assert_eq!(get_length_swap((2, -5)), 4);
    assert_eq!(get_length_swap((-6, 1)), 5);
    assert_eq!(get_length_swap((6, 6)), 0);
}

#[test]
fn a_swap_adds_a_half_turn_to_both_parts() {
    assert_eq!(get_swap((6, 6)), (0, 0));
    assert_eq!(get_swap((0, 0)), (6, 6));
    assert_eq!(get_swap((-6, -6)), (0, 0));
    assert_eq!(get_swap((1, -1)), (-5, 5));
    assert_eq!(get_swap((2, 0)), (-4, 6));
    assert_eq!(get_swap((7, 11)), (1, 5));
    assert_eq!(get_swap((11, -6)), (5, 0));
    assert_eq!(get_swap((8, 9)), (2, 3));
    assert_eq!(get_swap((10, 1)), (4, -5));
    assert_eq!(get_swap((5, -5)), (-1, 1));
    assert_eq!(get_onhead((3, -2)), (-2, 3));
    for up in -6i8..=6 {
        for down in -6i8..=6 {
            let swapped = get_swap((up, down));
            assert!(-6 <= swapped.0 && swapped.0 <= 6);
            assert!(-6 <= swapped.1 && swapped.1 <= 6);
            assert_eq!(get_length(swapped), get_length_swap((up, down)));
        }
    }
}

fn end(readable: (i8, i8)) -> Step {
    Step { readable, next_steps: vec![], slices: -1 }
}

#[test]
fn the_last_turn_is_swapped_only_where_that_is_strictly_cheaper() {
    let half = end((6, 6));
    let (swap_odd, swap_even, cost, path) = half.get_best_path_raw(6, 6);
    assert_eq!((swap_odd, swap_even, cost, path), (false, false, 6, vec![(6, 6)]));
    let (swap_odd, swap_even, cost, path) = half.get_best_path_raw(5, 6);
    assert_eq!((swap_odd, swap_even, cost, path), (true, false, 0, vec![(0, 0)]));
    let small = end((1, 0));
    let (swap_odd, _, cost, path) = small.get_best_path_raw(6, 6);
    assert_eq!((swap_odd, cost, path), (false, 1, vec![(1, 0)]));
    let (swap_odd, _, cost, path) = small.get_best_path_raw(-6, 6);
    assert_eq!((swap_odd, cost, path), (true, 6, vec![(-5, 6)]));
}

#[test]
fn the_cheapest_of_the_steps_that_follow_is_taken_and_the_first_of_equals() {
    let tree = Step {
        readable: (0, 0),
        next_steps: vec![
            Step { readable: (3, 0), next_steps: vec![end((2, 1))], slices: 0 },
            Step { readable: (1, 0), next_steps: vec![end((1, 1))], slices: 0 },
            Step { readable: (0, 1), next_steps: vec![end((-1, 1))], slices: 0 },
        ],
        slices: 1,
    };
    assert_eq!(tree.get_best_path(), vec![(1, 0), (1, 1)]);
}

#[test]
fn a_step_and_the_end_below_it_are_swapped_together() {
    // The step above costs 5 as it is and 1 swapped; the end costs 6 as it
    // is and 0 swapped.
    let tree = Step {
        readable: (0, 0),
        next_steps: vec![Step {
            readable: (0, 0),
            next_steps: vec![Step {
                readable: (5, 5),
                next_steps: vec![Step { readable: (0, 0), next_steps: vec![end((6, 6))], slices: 0 }],
                slices: 1,
            }],
            slices: 2,
        }],
        slices: 3,
    };
    let (swap_odd, swap_even, cost, path) = tree.get_best_path_raw(6, 6);
    assert!(!swap_odd);
    assert!(!swap_even);
    assert_eq!(path, vec![(0, 0), (0, 0), (-1, -1), (0, 0), (0, 0)]);
    assert_eq!(cost, 1);
    assert_eq!(tree.get_best_path(), vec![(0, 0), (-1, -1), (0, 0), (0, 0)]);
}

#[test]
fn a_step_with_nothing_below_it_is_a_dead_end() {
    let tree = Step { readable: (0, 0), next_steps: vec![], slices: 2 };
    let (_, _, cost, path) = tree.get_best_path_raw(6, 6);
    assert_eq!(cost, 85);
    assert!(path.is_empty());
    assert!(tree.get_best_path().is_empty());
}

#[test]
fn a_table_of_the_wrong_length_is_not_taken() {
    assert!(load_table(vec![]).is_none());
    assert!(load_table(vec![0; 57]).is_none());
}

fn table_of_noughts() -> TableHandle {
    load_table(vec![0u8; 1_651_104_000]).unwrap()
}

#[test]
fn the_solved_configuration_needs_no_move() {
    let table = table_of_noughts();
    let solution = solve(Square1::solved(), true, &table).unwrap();
    assert_eq!(solution.notation, vec![(0, 0)]);
}

#[test]
fn one_layer_turn_is_undone_by_the_opposite_turn() {
    let table = table_of_noughts();
    let mut square1 = Square1::solved();
    square1.turn_layers(&(1, 0));
    let solution = solve(square1, true, &table).unwrap();
    assert_eq!(solution.notation, vec![(-2, 0)]);
    let mut other = Square1::solved();
    other.turn_layers(&(3, 6));
    let solution = solve(other, true, &table).unwrap();
    assert_eq!(solution.notation, vec![(-5, 3)]);
}

#[test]
fn a_configuration_that_is_not_valid_is_not_solved() {
    let table = table_of_noughts();
    let twice = Square1::from_arr([0, 0, 2, 3, 4, 5, 6, 7, 8, 9, 10, 11, 12, 13, 14, 15]);
    assert!(solve(twice, true, &table).is_err());
    let unaligned = Square1::from_arr([0, 1, 2, 4, 3, 5, 6, 7, 8, 9, 10, 11, 12, 13, 14, 15]);
    assert!(!unaligned.is_valid());
    assert!(solve(unaligned, false, &table).is_err());
}

fn walk(steps: usize) -> (Square1, Solution) {
    let mut at = Square1::solved();
    let mut notation = vec![];
    for step in 0..steps {
        if step > 0 {
            assert_eq!(at.turn_slice(), Ok(()));
        }
        let turns = at.get_unique_turns();
        let turn = turns[(step * 5 + 2) % turns.len()];
        notation.push(at.get_human_readable(turn));
        at.turn_layers(&turn);
    }
    (at, Solution { notation })
}

#[test]
fn a_solution_is_performed_and_undone() {
    let start = Square1::solved();
    for steps in 0..9 {
        let (end, moves) = walk(steps);
        let mut sq = start;
        assert_eq!(moves.perform(&mut sq), Ok(()));
        assert_eq!(sq.pieces, end.pieces);
        assert!(sq.is_well_formed());
        assert_eq!(moves.inverse().perform(&mut sq), Ok(()));
        assert_eq!(sq.pieces, start.pieces);
    }
    let (end, _) = walk(6);
    assert_ne!(end.pieces, start.pieces);
    let mut turned = Square1::solved();
    assert_eq!(turned.turn_by((3, -3)), Ok(()));
    assert_eq!(turned.pieces, [2, 3, 4, 5, 6, 7, 0, 1, 14, 15, 8, 9, 10, 11, 12, 13]);
    assert_eq!(turned.turn_by((-3, 3)), Ok(()));
    assert_eq!(turned.pieces, Square1::solved().pieces);
    assert_eq!(turned.turn_by((12, 0)), Ok(()));
    assert_eq!(turned.pieces, Square1::solved().pieces);
    assert_eq!(turned.turn_by((2, 0)), Ok(()));
    assert_eq!(turned.pieces, [1, 2, 3, 4, 5, 6, 7, 0, 8, 9, 10, 11, 12, 13, 14, 15]);
}

#[test]
fn a_move_that_cannot_be_made_is_not_made() {
    let mut sq = Square1::solved();
    assert_eq!(sq.turn_by((1, 0)), Err(()));
    assert_eq!(sq.pieces, Square1::solved().pieces);
    assert_eq!(sq.turn_by((0, 4)), Err(()));
    assert_eq!(sq.pieces, Square1::solved().pieces);
    let within = Solution { notation: vec![(3, 0), (1, 0)] };
    assert_eq!(within.perform(&mut sq), Err(()));
    // A turn after which a piece lies across the slice line.
    let (shaped, _) = walk(4);
    let mut found = false;
    for up in 0..12i8 {
        let mut turned = shaped;
        if turned.turn_by((up, 0)).is_ok() && !turned.is_valid() {
            let moves = Solution { notation: vec![(up, 0), (0, 0)] };
            let mut sq = shaped;
            assert_eq!(moves.perform(&mut sq), Err(()));
            assert_eq!(sq.pieces, turned.pieces);
            found = true;
        }
    }
    assert!(found);
}

#[test]
fn the_solution_of_a_layer_turn_leads_to_the_solved_configuration() {
    let table = table_of_noughts();
    for turn in [(1, 0), (3, 6), (0, 7), (4, 4), (7, 1)] {
        let mut sq = Square1::solved();
        sq.turn_layers(&turn);
        if !sq.is_valid() {
            continue;
        }
        let solution = solve(sq, true, &table).unwrap();
        assert_eq!(solution.notation.len(), 1);
        assert_eq!(solution.perform(&mut sq), Ok(()));
        assert_eq!(sq.pieces, Square1::solved().pieces);
    }
}
