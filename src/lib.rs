//! A circuit that proves knowledge of a Sudoku solution consistent with a
//! public puzzle, expressed as a rank-one constraint system.
pub mod bits;
pub mod r1cs;
pub mod gadgets;
pub mod grid;
pub mod sudoku;
