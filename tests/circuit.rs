use zk_sudoku::bits::{decode, encode, serialize_input, RangeError, CELL_BITS};
use zk_sudoku::gadgets::{alloc_bit, alloc_cell, alloc_digit, enforce_equal, enforce_group};
use zk_sudoku::r1cs::{ConstraintSystem, SynthesisError, Term};
use zk_sudoku::grid::{box_side, group_indices};
use zk_sudoku::sudoku::Circuit;

const PUZZLE: [[u8; 9]; 9] = [
    [5, 3, 0, 0, 7, 0, 0, 0, 0],
    [6, 0, 0, 1, 9, 5, 0, 0, 0],
    [0, 9, 8, 0, 0, 0, 0, 6, 0],
    [8, 0, 0, 0, 6, 0, 0, 0, 3],
    [4, 0, 0, 8, 0, 3, 0, 0, 1],
    [7, 0, 0, 0, 2, 0, 0, 0, 6],
    [0, 6, 0, 0, 0, 0, 2, 8, 0],
    [0, 0, 0, 4, 1, 9, 0, 0, 5],
    [0, 0, 0, 0, 8, 0, 0, 7, 9],
];

const SOLUTION: [[u8; 9]; 9] = [
    [5, 3, 4, 6, 7, 8, 9, 1, 2],
    [6, 7, 2, 1, 9, 5, 3, 4, 8],
    [1, 9, 8, 3, 4, 2, 5, 6, 7],
    [8, 5, 9, 7, 6, 1, 4, 2, 3],
    [4, 2, 6, 8, 5, 3, 7, 9, 1],
    [7, 1, 3, 9, 2, 4, 8, 5, 6],
    [9, 6, 1, 5, 3, 7, 2, 8, 4],
    [2, 8, 7, 4, 1, 9, 6, 3, 5],
    [3, 4, 5, 2, 8, 6, 1, 7, 9],
];

fn flat(grid: [[u8; 9]; 9]) -> Vec<u8> {
    grid.iter().flat_map(|row| row.iter().copied()).collect()
}

fn satisfied(n: usize, solution: Vec<u8>, puzzle: Vec<u8>) -> bool {
    let mut cs = ConstraintSystem::new();
    let circuit = Circuit { n, solution, puzzle };
    assert_eq!(circuit.generate_constraints(&mut cs), Ok(()));
    assert!(cs.finalized);
    cs.is_satisfied()
}

#[test]
fn sample_puzzle_is_satisfied() {
    let puzzle = flat(PUZZLE);
    assert_eq!(puzzle.iter().filter(|&&v| v == 0).count(), 51);
    assert!(satisfied(9, flat(SOLUTION), puzzle));
}

#[test]
fn sample_public_input_matches_circuit() {
    let puzzle = flat(PUZZLE);
    let mut cs = ConstraintSystem::new();
    let circuit = Circuit { n: 9, solution: flat(SOLUTION), puzzle: puzzle.clone() };
    circuit.generate_constraints(&mut cs).unwrap();
    let public: Vec<bool> = (1..cs.values.len())
        .filter(|&i| cs.public[i])
        .map(|i| cs.values[i] == 1)
        .collect();
    let input = serialize_input(&puzzle);
    assert_eq!(input.len(), 81 * 8);
    assert_eq!(public, input);
}

#[test]
fn flipping_one_digit_breaks_satisfaction() {
    let mut solution = flat(SOLUTION);
    // cell (0, 2) is blank in the puzzle
    solution[2] = 5;
    assert!(!satisfied(9, solution, flat(PUZZLE)));
}

#[test]
fn row_duplicate_is_unsatisfied() {
    let mut solution = flat(SOLUTION);
    // copy cell (4, 3) onto (4, 1), a blank cell of the puzzle
    solution[4 * 9 + 1] = solution[4 * 9 + 3];
    assert!(!satisfied(9, solution, flat(PUZZLE)));
}

#[test]
fn clue_mismatch_is_unsatisfied_even_for_valid_grid() {
    // A valid grid: the sample solution with digits 1 and 2 swapped everywhere.
    let swapped: Vec<u8> = flat(SOLUTION)
        .into_iter()
        .map(|v| if v == 1 { 2 } else if v == 2 { 1 } else { v })
        .collect();
    let blank = vec![0u8; 81];
    assert!(satisfied(9, swapped.clone(), blank));
    assert!(!satisfied(9, swapped, flat(PUZZLE)));
}

#[test]
fn empty_puzzle_accepts_any_valid_grid() {
    assert!(satisfied(9, flat(SOLUTION), vec![0u8; 81]));
}

#[test]
fn out_of_range_values_are_unsatisfied() {
    let mut zero = flat(SOLUTION);
    zero[2] = 0;
    assert!(!satisfied(9, zero, vec![0u8; 81]));
    let mut ten = flat(SOLUTION);
    ten[2] = 10;
    assert!(!satisfied(9, ten, vec![0u8; 81]));
}

#[test]
fn four_by_four_grid() {
    let solution = vec![1, 2, 3, 4, 3, 4, 1, 2, 2, 1, 4, 3, 4, 3, 2, 1];
    let puzzle = vec![1, 0, 0, 4, 0, 0, 1, 0, 0, 1, 0, 0, 4, 0, 0, 1];
    assert!(satisfied(4, solution.clone(), puzzle.clone()));
    // rows and columns are permutations but the top-left box is not
    let bad = vec![1, 2, 3, 4, 2, 3, 4, 1, 3, 4, 1, 2, 4, 1, 2, 3];
    assert!(!satisfied(4, bad, vec![0u8; 16]));
}

#[test]
fn one_by_one_grid() {
    assert!(satisfied(1, vec![1], vec![1]));
    assert!(!satisfied(1, vec![1], vec![2]));
}

#[test]
fn dimension_errors() {
    let mut cs = ConstraintSystem::new();
    let c = Circuit { n: 9, solution: vec![1u8; 80], puzzle: vec![0u8; 81] };
    assert_eq!(c.generate_constraints(&mut cs), Err(SynthesisError::DimensionMismatch));
    let c = Circuit { n: 3, solution: vec![1u8; 9], puzzle: vec![0u8; 9] };
    assert_eq!(c.generate_constraints(&mut cs), Err(SynthesisError::DimensionMismatch));
    let c = Circuit { n: 0, solution: vec![], puzzle: vec![] };
    assert_eq!(c.generate_constraints(&mut cs), Err(SynthesisError::DimensionMismatch));
    assert_eq!(cs.num_constraints(), 0);
    assert_eq!(cs.num_variables(), 1);
}

#[test]
fn finalized_system_is_refused() {
    let mut cs = ConstraintSystem::new();
    cs.finalize();
    let c = Circuit { n: 9, solution: flat(SOLUTION), puzzle: flat(PUZZLE) };
    assert_eq!(c.generate_constraints(&mut cs), Err(SynthesisError::Finalized));
    assert_eq!(cs.num_constraints(), 0);
}

#[test]
fn constraint_count_for_nine_by_nine() {
    let mut cs = ConstraintSystem::new();
    let c = Circuit { n: 9, solution: flat(SOLUTION), puzzle: flat(PUZZLE) };
    c.generate_constraints(&mut cs).unwrap();
    // per solution cell: 8 bits + 1 tie + 9 indicators + 2; per puzzle cell: 8 + 1;
    // 30 clues; 27 groups of 9 digit sums
    assert_eq!(cs.num_constraints(), 81 * 20 + 81 * 9 + 30 + 27 * 9);
}

#[test]
fn encode_decode_round_trip_all_bytes() {
    for v in 0u64..=255 {
        let bits = encode(v, CELL_BITS).unwrap();
        assert_eq!(bits.len(), 8);
        assert_eq!(decode(&bits), v);
    }
}

#[test]
fn encode_is_least_significant_first() {
    assert_eq!(encode(6, 4), Ok(vec![false, true, true, false]));
    assert_eq!(encode(0, 0), Ok(vec![]));
    assert_eq!(decode(&vec![true, false, true]), 5);
    assert_eq!(decode(&vec![true; 64]), u64::MAX);
}

#[test]
fn encode_range_error() {
    assert_eq!(encode(256, 8), Err(RangeError));
    assert_eq!(encode(1, 0), Err(RangeError));
    assert_eq!(encode(255, 8).map(|b| b.len()), Ok(8));
}

#[test]
fn puzzle_encoding_layout() {
    let bits = serialize_input(&vec![1, 2]);
    let mut expected = vec![true, false, false, false, false, false, false, false];
    expected.extend(vec![false, true, false, false, false, false, false, false]);
    assert_eq!(bits, expected);
}

#[test]
fn box_sides() {
    assert_eq!(box_side(9), Some(3));
    assert_eq!(box_side(4), Some(2));
    assert_eq!(box_side(1), Some(1));
    assert_eq!(box_side(0), Some(0));
    assert_eq!(box_side(8), None);
}

#[test]
fn group_layout() {
    assert_eq!(group_indices(9, 3, 1), vec![9, 10, 11, 12, 13, 14, 15, 16, 17]);
    assert_eq!(group_indices(9, 3, 10), vec![1, 10, 19, 28, 37, 46, 55, 64, 73]);
    assert_eq!(group_indices(9, 3, 22), vec![30, 31, 32, 39, 40, 41, 48, 49, 50]);
}

#[test]
fn bit_gadget() {
    let mut cs = ConstraintSystem::new();
    let x = alloc_bit(&mut cs, true, false);
    assert_eq!(x, 1);
    assert!(cs.is_satisfied());
    cs.values[x] = 2;
    assert!(!cs.is_satisfied());
}

#[test]
fn cell_gadget_ties_bits_to_value() {
    let mut cs = ConstraintSystem::new();
    let cell = alloc_cell(&mut cs, 200, true);
    assert_eq!(cell.bits.len(), 8);
    assert_eq!(cs.values[cell.value], 200);
    assert!(cs.is_satisfied());
    cs.values[cell.value] = 201;
    assert!(!cs.is_satisfied());
}

#[test]
fn digit_gadget_range() {
    for (digit, ok) in [(0u8, false), (1, true), (4, true), (5, false), (255, false)] {
        let mut cs = ConstraintSystem::new();
        let v = cs.new_var(digit, false);
        let inds = alloc_digit(&mut cs, v, digit, 4);
        assert_eq!(inds.len(), 4);
        assert_eq!(cs.is_satisfied(), ok);
    }
}

#[test]
fn equality_gadget() {
    let mut cs = ConstraintSystem::new();
    let a = cs.new_var(3, false);
    let b = cs.new_var(3, true);
    enforce_equal(&mut cs, a, b);
    assert!(cs.is_satisfied());
    let c = cs.new_var(4, false);
    enforce_equal(&mut cs, a, c);
    assert!(!cs.is_satisfied());
}

#[test]
fn group_gadget_detects_duplicates() {
    for (digits, ok) in [(vec![1u8, 2, 3], true), (vec![1, 1, 3], false), (vec![3, 1, 2], true)] {
        let mut cs = ConstraintSystem::new();
        let mut all = Vec::new();
        for d in &digits {
            let v = cs.new_var(*d, false);
            all.push(alloc_digit(&mut cs, v, *d, 3));
        }
        enforce_group(&mut cs, &all, &vec![0, 1, 2], 3);
        assert_eq!(cs.is_satisfied(), ok);
    }
}

#[test]
fn explicit_constraint() {
    let mut cs = ConstraintSystem::new();
    let x = cs.new_var(3, false);
    let y = cs.new_var(9, false);
    cs.enforce(vec![Term { var: x, coeff: 1 }], vec![Term { var: x, coeff: 1 }], vec![Term { var: y, coeff: 1 }]);
    assert!(cs.is_satisfied());
    cs.enforce(vec![Term { var: x, coeff: 2 }], vec![Term { var: 0, coeff: 1 }], vec![Term { var: y, coeff: 1 }]);
    assert!(!cs.is_satisfied());
}

#[test]
fn solution_cells_sit_at_fixed_positions() {
    let mut cs = ConstraintSystem::new();
    let base = cs.num_variables();
    let solution = flat(SOLUTION);
    let c = Circuit { n: 9, solution: solution.clone(), puzzle: flat(PUZZLE) };
    c.generate_constraints(&mut cs).unwrap();
    for j in 0..81 {
        let at = base + j * (8 + 1 + 9) + 8;
        assert_eq!(cs.values[at], solution[j]);
        assert!(!cs.public[at]);
    }
}

#[test]
fn changing_a_solution_variable_breaks_satisfaction() {
    let mut cs = ConstraintSystem::new();
    let c = Circuit { n: 9, solution: flat(SOLUTION), puzzle: vec![0u8; 81] };
    c.generate_constraints(&mut cs).unwrap();
    assert!(cs.is_satisfied());
    // cell (0, 0) holds 5; claim 3 there instead, a duplicate in row 0
    cs.values[1 + 8] = 3;
    assert!(!cs.is_satisfied());
}
