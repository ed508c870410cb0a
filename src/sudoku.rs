//! The Sudoku circuit: a private solution grid, a public puzzle grid, and
//! constraints that hold exactly when the solution is a valid Sudoku that
//! agrees with every clue of the puzzle.
use crate::bits::{bit_bytes, bit_seq, lemma_bit_bytes_append, puzzle_bits, CELL_BITS};
use crate::gadgets::{
    alloc_cell, alloc_digit, cell_holds, column, digit_holds, enforce_equal, enforce_group,
    group_holds, lemma_cell_honest, lemma_cell_value, lemma_column_count, lemma_digit_honest,
    lemma_permutation_sound, one_hot, sum_of, CellVars,
};
use crate::grid::{
    box_side, box_side_of, consistent, count, group_cells, group_indices, is_permutation,
    lemma_cell_in_row, lemma_group_cells_bounds, shape_ok, valid_solution, values_at,
};
use crate::r1cs::{
    assignment, lemma_public_values_append, lemma_public_values_uniform, lemma_satisfied_agree,
    public_values, satisfied_by, ConstraintSystem, SynthesisError, MAX_TERMS, ONE,
};
use vstd::prelude::*;

verus! {

/// What the constraints of solution cell `c`, with digit indicators `inds`,
/// require of `w`.
pub open spec fn sol_ok(w: Seq<int>, c: CellVars, inds: Seq<usize>) -> bool {
    cell_holds(w, c.bits@, c.value) && digit_holds(w, c.value, inds)
}

/// What the constraints of puzzle cell `p`, whose solution cell is `c` and
/// whose clue is `clue`, require of `w`.
pub open spec fn clue_ok(w: Seq<int>, p: CellVars, c: CellVars, clue: u8) -> bool {
    cell_holds(w, p.bits@, p.value) && (clue != 0 ==> (w[c.value as int] - w[p.value as int]) * w[
        ONE as int] == 0)
}

/// The cell indices of group `g` as variables' indices are typed.
pub open spec fn group_usize(n: nat, k: nat, g: int) -> Seq<usize> {
    Seq::new(n, |j: int| group_cells(n, k, g)[j] as usize)
}

pub open spec fn cell_in(c: CellVars, nv: nat) -> bool {
    &&& c.value < nv
    &&& c.bits@.len() == CELL_BITS
    &&& forall|b: int| 0 <= b < CELL_BITS ==> #[trigger] c.bits@[b] < nv
}

pub open spec fn inds_in(inds: Seq<usize>, n: nat, nv: nat) -> bool {
    &&& inds.len() == n
    &&& forall|d: int| 0 <= d < n ==> #[trigger] inds[d] < nv
}

/// The assignment holds `value` and its bits in cell `c`.
pub open spec fn cell_honest(vals: Seq<u8>, c: CellVars, value: u8) -> bool {
    &&& vals[c.value as int] == value
    &&& forall|b: int|
        0 <= b < CELL_BITS ==> #[trigger] vals[c.bits@[b] as int] == bit_bytes(
            bit_seq(value as nat, CELL_BITS as nat),
        )[b]
}

/// The assignment holds the one-hot form of `value` in `inds`.
pub open spec fn digit_honest(vals: Seq<u8>, inds: Seq<usize>, value: u8) -> bool {
    forall|d: int|
        0 <= d < inds.len() ==> #[trigger] vals[inds[d] as int] == bit_bytes(
            one_hot(value as int, inds.len()),
        )[d]
}

/// `big` extends `small`.
pub open spec fn extends(big: Seq<u8>, small: Seq<u8>) -> bool {
    big.len() >= small.len() && forall|t: int| 0 <= t < small.len() ==> big[t] == #[trigger] small[t]
}

proof fn lemma_extend_cell(big: Seq<u8>, small: Seq<u8>, c: CellVars, value: u8)
    requires
        extends(big, small),
        cell_in(c, small.len()),
        cell_honest(small, c, value),
    ensures
        cell_in(c, big.len()),
        cell_honest(big, c, value),
{
    assert(big[c.value as int] == small[c.value as int]);
    assert forall|b: int| 0 <= b < CELL_BITS implies #[trigger] big[c.bits@[b] as int] == small[c.bits@[b] as int] by {
        assert(c.bits@[b] < small.len());
    }
}

proof fn lemma_extend_digit(big: Seq<u8>, small: Seq<u8>, inds: Seq<usize>, n: nat, value: u8)
    requires
        extends(big, small),
        inds_in(inds, n, small.len()),
        digit_honest(small, inds, value),
    ensures
        inds_in(inds, n, big.len()),
        digit_honest(big, inds, value),
{
    assert forall|d: int| 0 <= d < n implies #[trigger] big[inds[d] as int] == small[inds[d] as int] by {
        assert(inds[d] < small.len());
    }
}

/// The honest assignment of the solution cells.
pub open spec fn sol_facts(vals: Seq<u8>, sc: Seq<CellVars>, ds: Seq<Seq<usize>>, sol: Seq<u8>, n: nat) -> bool {
    &&& sc.len() == sol.len()
    &&& ds.len() == sol.len()
    &&& forall|j: int|
        0 <= j < sc.len() ==> cell_in(#[trigger] sc[j], vals.len()) && cell_honest(vals, sc[j], sol[j])
    &&& forall|j: int|
        0 <= j < ds.len() ==> inds_in(#[trigger] ds[j], n, vals.len()) && digit_honest(vals, ds[j], sol[j])
}

/// The honest assignment of the first `m` puzzle cells.
pub open spec fn clue_facts(vals: Seq<u8>, pc: Seq<CellVars>, puz: Seq<u8>) -> bool {
    &&& pc.len() <= puz.len()
    &&& forall|j: int|
        0 <= j < pc.len() ==> cell_in(#[trigger] pc[j], vals.len()) && cell_honest(vals, pc[j], puz[j])
}

pub open spec fn all_sol_ok(w: Seq<int>, sc: Seq<CellVars>, ds: Seq<Seq<usize>>) -> bool {
    forall|j: int| 0 <= j < sc.len() ==> sol_ok(w, #[trigger] sc[j], ds[j])
}

pub open spec fn all_clue_ok(w: Seq<int>, pc: Seq<CellVars>, sc: Seq<CellVars>, puz: Seq<u8>) -> bool {
    forall|j: int| 0 <= j < pc.len() ==> clue_ok(w, #[trigger] pc[j], sc[j], puz[j])
}

pub open spec fn all_groups_ok(w: Seq<int>, ds: Seq<Seq<usize>>, n: nat, k: nat, m: int) -> bool {
    forall|g: int| 0 <= g < m ==> #[trigger] group_holds(w, ds, group_usize(n, k, g), n)
}

proof fn lemma_extend_sol_facts(big: Seq<u8>, small: Seq<u8>, sc: Seq<CellVars>, ds: Seq<Seq<usize>>, sol: Seq<u8>, n: nat)
    requires
        extends(big, small),
        sol_facts(small, sc, ds, sol, n),
    ensures
        sol_facts(big, sc, ds, sol, n),
{
    assert forall|j: int| 0 <= j < sc.len() implies cell_in(#[trigger] sc[j], big.len()) && cell_honest(big, sc[j], sol[j]) by {
        lemma_extend_cell(big, small, sc[j], sol[j]);
    }
    assert forall|j: int| 0 <= j < ds.len() implies inds_in(#[trigger] ds[j], n, big.len()) && digit_honest(big, ds[j], sol[j]) by {
        lemma_extend_digit(big, small, ds[j], n, sol[j]);
    }
}

proof fn lemma_extend_clue_facts(big: Seq<u8>, small: Seq<u8>, pc: Seq<CellVars>, puz: Seq<u8>)
    requires
        extends(big, small),
        clue_facts(small, pc, puz),
    ensures
        clue_facts(big, pc, puz),
{
    assert forall|j: int| 0 <= j < pc.len() implies cell_in(#[trigger] pc[j], big.len()) && cell_honest(big, pc[j], puz[j]) by {
        lemma_extend_cell(big, small, pc[j], puz[j]);
    }
}

proof fn lemma_sol_part(vals: Seq<u8>, c: CellVars, inds: Seq<usize>, value: u8, n: nat)
    requires
        vals.len() >= 1,
        vals[ONE as int] == 1,
        cell_in(c, vals.len()),
        cell_honest(vals, c, value),
        inds_in(inds, n, vals.len()),
        digit_honest(vals, inds, value),
    ensures
        sol_ok(assignment(vals), c, inds) <==> 1 <= value <= n,
{
    let w = assignment(vals);
    let bs = bit_seq(value as nat, CELL_BITS as nat);
    crate::bits::lemma_bit_seq_len(value as nat, CELL_BITS as nat);
    assert forall|b: int| 0 <= b < CELL_BITS implies #[trigger] w[c.bits@[b] as int] == (if bs[b] {
        1int
    } else {
        0int
    }) by {
        assert(c.bits@[b] < vals.len());
        assert(vals[c.bits@[b] as int] == bit_bytes(bs)[b]);
    }
    lemma_cell_honest(w, c.bits@, c.value, value);
    let oh = one_hot(value as int, n);
    assert forall|d: int| 0 <= d < inds.len() implies #[trigger] w[inds[d] as int] == (if one_hot(
        value as int,
        inds.len(),
    )[d] {
        1int
    } else {
        0int
    }) by {
        assert(inds[d] < vals.len());
        assert(vals[inds[d] as int] == bit_bytes(one_hot(value as int, inds.len()))[d]);
    }
    lemma_digit_honest(w, c.value, inds, value as int);
}

proof fn lemma_clue_part(vals: Seq<u8>, p: CellVars, c: CellVars, clue: u8, value: u8)
    requires
        vals.len() >= 1,
        vals[ONE as int] == 1,
        cell_in(p, vals.len()),
        cell_honest(vals, p, clue),
        cell_in(c, vals.len()),
        cell_honest(vals, c, value),
    ensures
        clue_ok(assignment(vals), p, c, clue) <==> (clue != 0 ==> value == clue),
{
    let w = assignment(vals);
    let bs = bit_seq(clue as nat, CELL_BITS as nat);
    crate::bits::lemma_bit_seq_len(clue as nat, CELL_BITS as nat);
    assert forall|b: int| 0 <= b < CELL_BITS implies #[trigger] w[p.bits@[b] as int] == (if bs[b] {
        1int
    } else {
        0int
    }) by {
        assert(p.bits@[b] < vals.len());
        assert(vals[p.bits@[b] as int] == bit_bytes(bs)[b]);
    }
    lemma_cell_honest(w, p.bits@, p.value, clue);
    assert(w[c.value as int] == value);
    assert(w[p.value as int] == clue);
}

proof fn lemma_group_part(vals: Seq<u8>, ds: Seq<Seq<usize>>, sol: Seq<u8>, n: nat, k: nat, g: int)
    requires
        vals.len() >= 1,
        vals[ONE as int] == 1,
        k * k == n,
        1 <= n < MAX_TERMS,
        0 <= g < 3 * n,
        sol.len() == n * n,
        ds.len() == sol.len(),
        forall|j: int|
            0 <= j < ds.len() ==> inds_in(#[trigger] ds[j], n, vals.len()) && digit_honest(vals, ds[j], sol[j]),
    ensures
        group_holds(assignment(vals), ds, group_usize(n, k, g), n) <==> forall|d: int|
            1 <= d <= n ==> #[trigger] count(values_at(sol, group_cells(n, k, g)), d) == 1,
{
    let w = assignment(vals);
    let cells = group_cells(n, k, g);
    let gu = group_usize(n, k, g);
    let gv = values_at(sol, cells);
    assert(n * n < 65536) by (nonlinear_arith)
        requires
            n < 256,
    ;
    assert forall|d: int| 0 <= d < n implies #[trigger] sum_of(w, column(ds, gu, d)) == count(gv, d + 1) by {
        assert forall|c: int| 0 <= c < gu.len() implies #[trigger] w[ds[gu[c] as int][d] as int] == (if gv[c]
            == d + 1 {
            1int
        } else {
            0int
        }) by {
            lemma_group_cells_bounds(n, k, g, c);
            let cell = cells[c];
            assert(gu[c] as int == cell);
            assert(inds_in(ds[cell], n, vals.len()) && digit_honest(vals, ds[cell], sol[cell]));
            assert(ds[cell][d] < vals.len());
            assert(vals[ds[cell][d] as int] == bit_bytes(one_hot(sol[cell] as int, n))[d]);
        }
        lemma_column_count(w, ds, gu, d, gv);
    }
    if group_holds(w, ds, gu, n) {
        assert forall|d: int| 1 <= d <= n implies #[trigger] count(gv, d) == 1 by {
            assert(sum_of(w, column(ds, gu, d - 1)) * w[ONE as int] == w[ONE as int]);
            assert(sum_of(w, column(ds, gu, d - 1)) == count(gv, d));
        }
    }
    if forall|d: int| 1 <= d <= n ==> #[trigger] count(gv, d) == 1 {
        assert forall|d: int| 0 <= d < n implies #[trigger] sum_of(w, column(ds, gu, d)) * w[ONE as int] == w[ONE as int] by {
            assert(count(gv, d + 1) == 1);
        }
    }
}

/// Under the assignment the circuit holds, its constraints say exactly that
/// the solution is a valid Sudoku that agrees with the puzzle.
proof fn lemma_meaning(
    vals: Seq<u8>,
    sc: Seq<CellVars>,
    ds: Seq<Seq<usize>>,
    pc: Seq<CellVars>,
    sol: Seq<u8>,
    puz: Seq<u8>,
    n: nat,
    k: nat,
)
    requires
        vals.len() >= 1,
        vals[ONE as int] == 1,
        k * k == n,
        1 <= n < MAX_TERMS,
        sol.len() == n * n,
        puz.len() == n * n,
        pc.len() == n * n,
        sol_facts(vals, sc, ds, sol, n),
        clue_facts(vals, pc, puz),
    ensures
        (all_sol_ok(assignment(vals), sc, ds) && all_clue_ok(assignment(vals), pc, sc, puz)
            && all_groups_ok(assignment(vals), ds, n, k, 3 * n as int)) <==> (valid_solution(sol, n, k)
            && consistent(puz, sol)),
{
    let w = assignment(vals);
    assert forall|j: int| 0 <= j < sc.len() implies (sol_ok(w, #[trigger] sc[j], ds[j]) <==> 1 <= sol[j] <= n) by {
        lemma_sol_part(vals, sc[j], ds[j], sol[j], n);
    }
    assert forall|j: int| 0 <= j < pc.len() implies (clue_ok(w, #[trigger] pc[j], sc[j], puz[j]) <==> (puz[j] != 0 ==> sol[j] == puz[j])) by {
        lemma_clue_part(vals, pc[j], sc[j], puz[j], sol[j]);
    }
    assert forall|g: int| 0 <= g < 3 * n implies (#[trigger] group_holds(w, ds, group_usize(n, k, g), n) <==> forall|d: int|
            1 <= d <= n ==> #[trigger] count(values_at(sol, group_cells(n, k, g)), d) == 1) by {
        lemma_group_part(vals, ds, sol, n, k, g);
    }
    let lhs = all_sol_ok(w, sc, ds) && all_clue_ok(w, pc, sc, puz) && all_groups_ok(w, ds, n, k, 3 * n as int);
    if lhs {
        assert forall|g: int| 0 <= g < 3 * n implies #[trigger] is_permutation(values_at(sol, group_cells(n, k, g)), n) by {
            let gv = values_at(sol, group_cells(n, k, g));
            assert(group_holds(w, ds, group_usize(n, k, g), n));
            assert forall|i: int| 0 <= i < gv.len() implies 1 <= #[trigger] gv[i] <= n by {
                lemma_group_cells_bounds(n, k, g, i);
                let c = group_cells(n, k, g)[i];
                assert(sol_ok(w, sc[c], ds[c]));
            }
        }
        assert forall|i: int| 0 <= i < puz.len() && puz[i] != 0 implies #[trigger] sol[i] == puz[i] by {
            assert(clue_ok(w, pc[i], sc[i], puz[i]));
        }
    }
    if valid_solution(sol, n, k) && consistent(puz, sol) {
        assert forall|j: int| 0 <= j < sc.len() implies sol_ok(w, #[trigger] sc[j], ds[j]) by {
            lemma_cell_in_row(n, k, j);
            let g = j / (n as int);
            assert(is_permutation(values_at(sol, group_cells(n, k, g)), n));
            assert(values_at(sol, group_cells(n, k, g))[j % (n as int)] == sol[j]);
        }
        assert forall|j: int| 0 <= j < pc.len() implies clue_ok(w, #[trigger] pc[j], sc[j], puz[j]) by {}
        assert forall|g: int| 0 <= g < 3 * n implies #[trigger] group_holds(w, ds, group_usize(n, k, g), n) by {
            assert(is_permutation(values_at(sol, group_cells(n, k, g)), n));
        }
    }
}

proof fn lemma_public_after(base: Seq<u8>, flags0: Seq<bool>, va: Seq<u8>, pa: Seq<bool>, flag: bool)
    requires
        base.len() == flags0.len(),
        va.len() == pa.len(),
        forall|i: int| 0 <= i < pa.len() ==> pa[i] == flag,
    ensures
        public_values(base + va, flags0 + pa) == public_values(base, flags0) + (if flag {
            va
        } else {
            Seq::<u8>::empty()
        }),
{
    lemma_public_values_append(base, flags0, va, pa);
    lemma_public_values_uniform(va, pa, flag);
    if !flag {
        assert(public_values(base, flags0) + Seq::<u8>::empty() =~= public_values(base, flags0));
    }
}

/// Allocating a cell publishes its bits if it is public, and nothing otherwise.
proof fn lemma_public_cell(base: Seq<u8>, flags0: Seq<bool>, value: u8, flag: bool)
    requires
        base.len() == flags0.len(),
    ensures
        public_values(
            base + bit_bytes(bit_seq(value as nat, CELL_BITS as nat)) + seq![value],
            flags0 + Seq::new(CELL_BITS as nat, |i: int| flag) + seq![false],
        ) == public_values(base, flags0) + (if flag {
            bit_bytes(bit_seq(value as nat, CELL_BITS as nat))
        } else {
            Seq::<u8>::empty()
        }),
{
    let bb = bit_bytes(bit_seq(value as nat, CELL_BITS as nat));
    crate::bits::lemma_bit_seq_len(value as nat, CELL_BITS as nat);
    lemma_public_after(base, flags0, bb, Seq::new(CELL_BITS as nat, |i: int| flag), flag);
    lemma_public_after(base + bb, flags0 + Seq::new(CELL_BITS as nat, |i: int| flag), seq![value], seq![false], false);
}

/// `w` gives every public variable the value the system holds for it: the
/// public input the verifier supplies.
pub open spec fn agrees_on_public(w: Seq<int>, vals: Seq<u8>, public: Seq<bool>) -> bool {
    forall|i: int| 0 <= i < public.len() && #[trigger] public[i] ==> w[i] == vals[i] as int
}

/// Index of the variable that holds solution cell `j` (row-major), when the
/// circuit is built into a system that already held `base` variables: each
/// solution cell takes `CELL_BITS` bits, then its value, then `n` indicators.
pub open spec fn solution_var(base: nat, n: nat, j: int) -> int {
    base + j * (CELL_BITS + 1 + n) + CELL_BITS
}

/// The grid that `w` gives the solution cells' variables.
pub open spec fn solution_read(w: Seq<int>, base: nat, n: nat) -> Seq<u8> {
    Seq::new(n * n, |j: int| w[solution_var(base, n, j)] as u8)
}

/// A Sudoku instance: the private `solution` and the public `puzzle`, each
/// `n * n` cells in row-major order; a puzzle cell of zero is blank.
pub struct Circuit {
    pub n: usize,
    pub solution: Vec<u8>,
    pub puzzle: Vec<u8>,
}

impl Circuit {
    /// Builds the circuit into `cs` and marks it complete; fails without
    /// touching `cs` if it is already complete or the grids have the wrong
    /// shape. On success:
    /// - the assignment `cs` holds satisfies its constraints exactly when it
    ///   did before and the solution is a valid Sudoku that agrees with every
    ///   clue of the puzzle;
    /// - the public variables added hold the puzzle's bits, cell after cell,
    ///   as `serialize_input` lays them out;
    /// - solution cell `j` is held at `solution_var(base, n, j)`, `base`
    ///   being the number of variables `cs` held before;
    /// - any assignment that keeps the public values and satisfies the
    ///   constraints holds in those variables a valid Sudoku that agrees
    ///   with the puzzle: no invalid or mismatching grid satisfies them.
    pub fn generate_constraints(&self, cs: &mut ConstraintSystem) -> (r: Result<(), SynthesisError>)
        requires
            old(cs).wf(),
        ensures
            final(cs).wf(),
            old(cs).finalized ==> r == Err::<(), SynthesisError>(SynthesisError::Finalized),
            !old(cs).finalized && !shape_ok(self.n as nat, self.solution@, self.puzzle@) ==> r
                == Err::<(), SynthesisError>(SynthesisError::DimensionMismatch),
            r is Err ==> final(cs).values@ == old(cs).values@ && final(cs).public@ == old(cs).public@ && final(cs).constraints@ == old(cs).constraints@ && final(cs).finalized
                == old(cs).finalized,
            !old(cs).finalized && shape_ok(self.n as nat, self.solution@, self.puzzle@) ==> r
                == Ok::<(), SynthesisError>(()) && final(cs).finalized && (final(cs).is_satisfied_spec() <==> (old(cs).is_satisfied_spec() && valid_solution(
                self.solution@,
                self.n as nat,
                box_side_of(self.n as nat)->Some_0,
            ) && consistent(self.puzzle@, self.solution@))) && public_values(
                final(cs).values@,
                final(cs).public@,
            ) == public_values(old(cs).values@, old(cs).public@) + bit_bytes(
                puzzle_bits(self.puzzle@),
            ) && forall|w: Seq<int>|
                #![trigger satisfied_by(final(cs).constraints@, w)]
                agrees_on_public(w, final(cs).values@, final(cs).public@) && satisfied_by(
                    final(cs).constraints@,
                    w,
                ) ==> (forall|j: int|
                    0 <= j < self.n * self.n ==> 1 <= #[trigger] w[solution_var(
                        old(cs).values@.len(),
                        self.n as nat,
                        j,
                    )] <= self.n) && valid_solution(
                    solution_read(w, old(cs).values@.len(), self.n as nat),
                    self.n as nat,
                    box_side_of(self.n as nat)->Some_0,
                ) && consistent(
                    self.puzzle@,
                    solution_read(w, old(cs).values@.len(), self.n as nat),
                ),
            r is Ok ==> forall|j: int|
                0 <= j < self.n * self.n ==> #[trigger] final(cs).values@[solution_var(
                    old(cs).values@.len(),
                    self.n as nat,
                    j,
                )] == self.solution@[j],
    {
        if cs.finalized {
            return Err(SynthesisError::Finalized);
        }
        let n = self.n;
        if n == 0 || n >= MAX_TERMS {
            return Err(SynthesisError::DimensionMismatch);
        }
        let k = match box_side(n) {
            Some(k) => k,
            None => {
                return Err(SynthesisError::DimensionMismatch);
            },
        };
        assert(n * n < 65536) by (nonlinear_arith)
            requires
                n < 256,
        ;
        let cells = n * n;
        if self.solution.len() != cells || self.puzzle.len() != cells {
            return Err(SynthesisError::DimensionMismatch);
        }
        let ghost len0 = cs.values@.len();
        let ghost vals0 = cs.values@;
        let ghost c0 = cs.constraints@;
        let ghost pv0 = public_values(cs.values@, cs.public@);
        let ghost sol = self.solution@;
        let ghost puz = self.puzzle@;
        let mut sol_cells: Vec<CellVars> = Vec::new();
        let mut digits: Vec<Vec<usize>> = Vec::new();
        let mut i: usize = 0;
        while i < cells
            invariant
                cs.wf(),
                !cs.finalized,
                1 <= n < MAX_TERMS,
                cells == n * n,
                sol == self.solution@,
                sol.len() == cells,
                i <= cells,
                extends(cs.values@, vals0),
                public_values(cs.values@, cs.public@) == pv0,
                sol_cells@.len() == i,
                digits@.len() == i,
                len0 == vals0.len(),
                cs.values@.len() == len0 + i * (CELL_BITS + 1 + n),
                forall|j: int| 0 <= j < i ==> (#[trigger] sol_cells@[j]).value == solution_var(len0, n as nat, j),
                forall|j: int|
                    0 <= j < i ==> cell_in(#[trigger] sol_cells@[j], cs.values@.len())
                        && cell_honest(cs.values@, sol_cells@[j], sol[j]),
                forall|j: int|
                    0 <= j < i ==> inds_in(#[trigger] digits@[j]@, n as nat, cs.values@.len())
                        && digit_honest(cs.values@, digits@[j]@, sol[j]),
                forall|w: Seq<int>|
                    #![trigger satisfied_by(cs.constraints@, w)]
                    satisfied_by(cs.constraints@, w) == (satisfied_by(c0, w) && forall|j: int|
                        0 <= j < i ==> sol_ok(w, #[trigger] sol_cells@[j], digits@[j]@)),
            decreases cells - i,
        {
            let ghost vals_a = cs.values@;
            let ghost flags_a = cs.public@;
            let ghost cs1 = cs.constraints@;
            let ghost sc1 = sol_cells@;
            let ghost ds1 = digits@;
            let sc = alloc_cell(cs, self.solution[i], false);
            proof {
                assert(sc.value == solution_var(len0, n as nat, i as int));
            }
            let ghost vals_b = cs.values@;
            let ghost flags_b = cs.public@;
            let ghost cs2 = cs.constraints@;
            let inds = alloc_digit(cs, sc.value, self.solution[i], n);
            let nv_now = cs.values.len();
            proof {
                lemma_public_cell(vals_a, flags_a, sol[i as int], false);
                lemma_public_after(vals_b, flags_b, bit_bytes(one_hot(sol[i as int] as int, n as nat)), Seq::new(n as nat, |i: int| false), false);
                assert(extends(cs.values@, vals_a));
                assert(extends(cs.values@, vals_b));
                assert(extends(cs.values@, vals0));
                assert forall|j: int| 0 <= j < i implies cell_in(#[trigger] sc1[j], cs.values@.len())
                    && cell_honest(cs.values@, sc1[j], sol[j]) by {
                    lemma_extend_cell(cs.values@, vals_a, sc1[j], sol[j]);
                }
                assert forall|j: int| 0 <= j < i implies inds_in(#[trigger] ds1[j]@, n as nat, cs.values@.len())
                    && digit_honest(cs.values@, ds1[j]@, sol[j]) by {
                    lemma_extend_digit(cs.values@, vals_a, ds1[j]@, n as nat, sol[j]);
                }
                assert(cell_in(sc, cs.values@.len()));
                assert forall|b: int| 0 <= b < CELL_BITS implies #[trigger] cs.values@[sc.bits@[b] as int] == bit_bytes(
                    bit_seq(sol[i as int] as nat, CELL_BITS as nat))[b] by {
                    assert(cs.values@[sc.bits@[b] as int] == vals_b[sc.bits@[b] as int]);
                }
                assert(cs.values@[sc.value as int] == vals_b[sc.value as int]);
                assert(cell_honest(cs.values@, sc, sol[i as int]));
                assert forall|d: int| 0 <= d < inds@.len() implies #[trigger] cs.values@[inds@[d] as int]
                    == bit_bytes(one_hot(sol[i as int] as int, inds@.len()))[d] by {
                    assert(vals_b.len() + d < nv_now);
                    assert(inds@[d] == vals_b.len() + d);
                }
                assert(digit_honest(cs.values@, inds@, sol[i as int]));
            }
            sol_cells.push(sc);
            digits.push(inds);
            proof {
                assert(cs.values@.len() == len0 + (i + 1) * (CELL_BITS + 1 + n)) by (nonlinear_arith)
                    requires
                        cs.values@.len() == len0 + i * (CELL_BITS + 1 + n) + CELL_BITS + 1 + n,
                ;
                assert forall|j: int| 0 <= j < i + 1 implies (#[trigger] sol_cells@[j]).value == solution_var(len0, n as nat, j) by {
                    if j < i {
                        assert(sol_cells@[j] == sc1[j]);
                    }
                }
                assert forall|j: int| 0 <= j < i + 1 implies cell_in(#[trigger] sol_cells@[j], cs.values@.len())
                    && cell_honest(cs.values@, sol_cells@[j], sol[j]) by {
                    if j < i {
                        assert(sol_cells@[j] == sc1[j]);
                    }
                }
                assert forall|j: int| 0 <= j < i + 1 implies inds_in(#[trigger] digits@[j]@, n as nat, cs.values@.len())
                    && digit_honest(cs.values@, digits@[j]@, sol[j]) by {
                    if j < i {
                        assert(digits@[j] == ds1[j]);
                    }
                }
                assert forall|w: Seq<int>| #![trigger satisfied_by(cs.constraints@, w)]
                    satisfied_by(cs.constraints@, w) == (satisfied_by(c0, w) && forall|j: int|
                        0 <= j < i + 1 ==> sol_ok(w, #[trigger] sol_cells@[j], digits@[j]@)) by {
                    assert(satisfied_by(cs1, w) == (satisfied_by(c0, w) && forall|j: int|
                        0 <= j < i ==> sol_ok(w, #[trigger] sc1[j], ds1[j]@)));
                    assert(forall|j: int| 0 <= j < i ==> sol_cells@[j] == sc1[j] && digits@[j] == ds1[j]);
                    if forall|j: int| 0 <= j < i + 1 ==> sol_ok(w, #[trigger] sol_cells@[j], digits@[j]@) {
                        assert(sol_ok(w, sol_cells@[i as int], digits@[i as int]@));
                    }
                }
            }
            i = i + 1;
        }
        let ghost sc = sol_cells@;
        let ghost ds = digits@.map_values(|v: Vec<usize>| v@);
        proof {
            assert forall|j: int| 0 <= j < ds.len() implies inds_in(#[trigger] ds[j], n as nat, cs.values@.len())
                && digit_honest(cs.values@, ds[j], sol[j]) by {
                assert(ds[j] == digits@[j]@);
            }
            assert forall|w: Seq<int>| #![trigger satisfied_by(cs.constraints@, w)]
                satisfied_by(cs.constraints@, w) == (satisfied_by(c0, w) && all_sol_ok(w, sc, ds)) by {
                assert(forall|j: int| 0 <= j < i ==> ds[j] == digits@[j]@);
            }
        }
        let mut puz_cells: Vec<CellVars> = Vec::new();
        let mut i: usize = 0;
        proof {
            assert(puz.subrange(0, 0) =~= Seq::<u8>::empty());
            assert(bit_bytes(puzzle_bits(Seq::<u8>::empty())) =~= Seq::<u8>::empty());
            assert(pv0 + Seq::<u8>::empty() =~= pv0);
        }
        while i < cells
            invariant
                cs.wf(),
                !cs.finalized,
                1 <= n < MAX_TERMS,
                cells == n * n,
                sol == self.solution@,
                puz == self.puzzle@,
                sol.len() == cells,
                puz.len() == cells,
                i <= cells,
                extends(cs.values@, vals0),
                sc == sol_cells@,
                forall|j: int| 0 <= j < cells ==> (#[trigger] sc[j]).value == solution_var(len0, n as nat, j),
                ds == digits@.map_values(|v: Vec<usize>| v@),
                sol_facts(cs.values@, sc, ds, sol, n as nat),
                clue_facts(cs.values@, puz_cells@, puz),
                puz_cells@.len() == i,
                public_values(cs.values@, cs.public@) == pv0 + bit_bytes(puzzle_bits(puz.subrange(0, i as int))),
                forall|j: int, b: int|
                    0 <= j < i && 0 <= b < CELL_BITS ==> #[trigger] cs.public@[puz_cells@[j].bits@[b] as int],
                forall|w: Seq<int>|
                    #![trigger satisfied_by(cs.constraints@, w)]
                    satisfied_by(cs.constraints@, w) == (satisfied_by(c0, w) && all_sol_ok(w, sc, ds)
                        && all_clue_ok(w, puz_cells@, sc, puz)),
            decreases cells - i,
        {
            let ghost vals_a = cs.values@;
            let ghost flags_a = cs.public@;
            let ghost cs1 = cs.constraints@;
            let ghost pc1 = puz_cells@;
            let pc = alloc_cell(cs, self.puzzle[i], true);
            let ghost vals_b = cs.values@;
            let ghost cs2 = cs.constraints@;
            proof {
                lemma_public_cell(vals_a, flags_a, puz[i as int], true);
                let pre = puz.subrange(0, i + 1);
                assert(pre.drop_last() =~= puz.subrange(0, i as int));
                lemma_bit_bytes_append(puzzle_bits(puz.subrange(0, i as int)), bit_seq(puz[i as int] as nat, CELL_BITS as nat));
                assert(pv0 + bit_bytes(puzzle_bits(puz.subrange(0, i as int))) + bit_bytes(bit_seq(puz[i as int] as nat, CELL_BITS as nat))
                    =~= pv0 + bit_bytes(puzzle_bits(pre)));
                assert(extends(cs.values@, vals_a));
                lemma_extend_sol_facts(cs.values@, vals_a, sc, ds, sol, n as nat);
                lemma_extend_clue_facts(cs.values@, vals_a, pc1, puz);
                assert(sc[i as int].value < vals_a.len());
            }
            if self.puzzle[i] != 0 {
                enforce_equal(cs, sol_cells[i].value, pc.value);
            }
            puz_cells.push(pc);
            proof {
                assert(cell_in(pc, cs.values@.len()));
                assert(cell_honest(cs.values@, pc, puz[i as int]));
                assert forall|j: int| 0 <= j < i + 1 implies cell_in(#[trigger] puz_cells@[j], cs.values@.len())
                    && cell_honest(cs.values@, puz_cells@[j], puz[j]) by {
                    if j < i {
                        assert(puz_cells@[j] == pc1[j]);
                    }
                }
                assert forall|j: int, b: int|
                    0 <= j < i + 1 && 0 <= b < CELL_BITS implies #[trigger] cs.public@[puz_cells@[j].bits@[b] as int] by {
                    if j < i {
                        assert(puz_cells@[j] == pc1[j]);
                        assert(cell_in(pc1[j], vals_a.len()));
                        assert(pc1[j].bits@[b] < flags_a.len());
                        assert(cs.public@[pc1[j].bits@[b] as int] == flags_a[pc1[j].bits@[b] as int]);
                    } else {
                        assert(puz_cells@[j] == pc);
                    }
                }
                assert forall|w: Seq<int>| #![trigger satisfied_by(cs.constraints@, w)]
                    satisfied_by(cs.constraints@, w) == (satisfied_by(c0, w) && all_sol_ok(w, sc, ds)
                        && all_clue_ok(w, puz_cells@, sc, puz)) by {
                    assert(satisfied_by(cs1, w) == (satisfied_by(c0, w) && all_sol_ok(w, sc, ds)
                        && all_clue_ok(w, pc1, sc, puz)));
                    assert(satisfied_by(cs2, w) == (satisfied_by(cs1, w) && cell_holds(w, pc.bits@, pc.value)));
                    assert(forall|j: int| 0 <= j < i ==> puz_cells@[j] == pc1[j]);
                    if all_clue_ok(w, puz_cells@, sc, puz) {
                        assert(clue_ok(w, puz_cells@[i as int], sc[i as int], puz[i as int]));
                    }
                }
            }
            i = i + 1;
        }
        let ghost pcs = puz_cells@;
        let ghost vals3 = cs.values@;
        let ghost pubs3 = cs.public@;
        proof {
            assert(puz.subrange(0, cells as int) =~= puz);
        }
        let mut g: usize = 0;
        while g < 3 * n
            invariant
                cs.wf(),
                !cs.finalized,
                1 <= n < MAX_TERMS,
                k * k == n,
                cells == n * n,
                sol.len() == cells,
                puz.len() == cells,
                g <= 3 * n,
                cs.values@ == vals3,
                cs.public@ == pubs3,
                forall|j: int| 0 <= j < cells ==> (#[trigger] sc[j]).value == solution_var(len0, n as nat, j),
                forall|j: int, b: int|
                    0 <= j < cells && 0 <= b < CELL_BITS ==> #[trigger] pubs3[pcs[j].bits@[b] as int],
                extends(cs.values@, vals0),
                ds == digits@.map_values(|v: Vec<usize>| v@),
                digits@.len() == cells,
                sol_facts(cs.values@, sc, ds, sol, n as nat),
                clue_facts(cs.values@, pcs, puz),
                pcs.len() == cells,
                forall|w: Seq<int>|
                    #![trigger satisfied_by(cs.constraints@, w)]
                    satisfied_by(cs.constraints@, w) == (satisfied_by(c0, w) && all_sol_ok(w, sc, ds)
                        && all_clue_ok(w, pcs, sc, puz) && all_groups_ok(w, ds, n as nat, k as nat, g as int)),
            decreases 3 * n - g,
        {
            let ghost cs1 = cs.constraints@;
            let gi = group_indices(n, k, g);
            proof {
                assert(gi@ =~= group_usize(n as nat, k as nat, g as int));
                assert forall|i: int| 0 <= i < digits@.len() implies (#[trigger] digits@[i])@.len() == n by {
                    assert(ds[i] == digits@[i]@);
                }
                assert forall|i: int, d: int|
                    0 <= i < digits@.len() && 0 <= d < n implies #[trigger] digits@[i]@[d] < cs.values@.len() by {
                    assert(ds[i] == digits@[i]@);
                    assert(inds_in(ds[i], n as nat, cs.values@.len()));
                }
            }
            enforce_group(cs, &digits, &gi, n);
            proof {
                assert forall|w: Seq<int>| #![trigger satisfied_by(cs.constraints@, w)]
                    satisfied_by(cs.constraints@, w) == (satisfied_by(c0, w) && all_sol_ok(w, sc, ds)
                        && all_clue_ok(w, pcs, sc, puz) && all_groups_ok(w, ds, n as nat, k as nat, g + 1)) by {
                    assert(satisfied_by(cs1, w) == (satisfied_by(c0, w) && all_sol_ok(w, sc, ds)
                        && all_clue_ok(w, pcs, sc, puz) && all_groups_ok(w, ds, n as nat, k as nat, g as int)));
                    if all_groups_ok(w, ds, n as nat, k as nat, g + 1) {
                        assert(group_holds(w, ds, group_usize(n as nat, k as nat, g as int), n as nat));
                    }
                }
            }
            g = g + 1;
        }
        cs.finalize();
        proof {
            let a = assignment(cs.values@);
            let a0 = assignment(vals0);
            assert(satisfied_by(cs.constraints@, a) == (satisfied_by(c0, a) && all_sol_ok(a, sc, ds)
                && all_clue_ok(a, pcs, sc, puz) && all_groups_ok(a, ds, n as nat, k as nat, 3 * n as int)));
            assert forall|t: int| 0 <= t < len0 implies a[t] == a0[t] by {
                assert(cs.values@[t] == vals0[t]);
            }
            lemma_satisfied_agree(c0, a, a0, len0);
            lemma_meaning(cs.values@, sc, ds, pcs, sol, puz, n as nat, k as nat);
            let vals = cs.values@;
            let pubs = cs.public@;
            assert forall|w: Seq<int>| #![trigger satisfied_by(cs.constraints@, w)]
                agrees_on_public(w, vals, pubs) && satisfied_by(cs.constraints@, w) implies (forall|j: int|
                    0 <= j < n * n ==> 1 <= #[trigger] w[solution_var(len0, n as nat, j)] <= n)
                    && valid_solution(solution_read(w, len0, n as nat), n as nat, k as nat)
                    && consistent(puz, solution_read(w, len0, n as nat)) by {
                assert(satisfied_by(cs.constraints@, w) == (satisfied_by(c0, w) && all_sol_ok(w, sc, ds)
                    && all_clue_ok(w, pcs, sc, puz) && all_groups_ok(w, ds, n as nat, k as nat, 3 * n as int)));
                assert(pubs[ONE as int]);
                assert(w[ONE as int] == 1);
                assert forall|j: int| 0 <= j < n * n implies (#[trigger] ds[j]).len() == n by {
                    assert(inds_in(ds[j], n as nat, vals.len()));
                }
                assert forall|j: int| 0 <= j < n * n implies (#[trigger] pcs[j]).bits@.len() == CELL_BITS by {
                    assert(cell_in(pcs[j], vals.len()));
                }
                assert forall|j: int, b: int|
                    0 <= j < n * n && 0 <= b < CELL_BITS implies #[trigger] w[pcs[j].bits@[b] as int] == (if bit_seq(
                    puz[j] as nat,
                    CELL_BITS as nat,
                )[b] {
                    1int
                } else {
                    0int
                }) by {
                    assert(cell_in(pcs[j], vals.len()) && cell_honest(vals, pcs[j], puz[j]));
                    assert(pubs[pcs[j].bits@[b] as int]);
                    assert(pcs[j].bits@[b] < pubs.len());
                    crate::bits::lemma_bit_seq_len(puz[j] as nat, CELL_BITS as nat);
                }
                lemma_circuit_sound(w, sc, ds, pcs, puz, n as nat, k as nat);
                let grid = Seq::new((n * n) as nat, |j: int| w[sc[j].value as int] as u8);
                assert(grid =~= solution_read(w, len0, n as nat));
                assert forall|j: int| 0 <= j < n * n implies 1 <= #[trigger] w[solution_var(len0, n as nat, j)] <= n by {
                    assert(sc[j].value as int == solution_var(len0, n as nat, j));
                }
            }
            assert forall|j: int| 0 <= j < n * n implies #[trigger] cs.values@[solution_var(len0, n as nat, j)] == sol[j] by {
                assert(cell_in(sc[j], vals.len()) && cell_honest(vals, sc[j], sol[j]));
            }
            assert(public_values(cs.values@, cs.public@) == public_values(old(cs).values@, old(cs).public@) + bit_bytes(
                puzzle_bits(self.puzzle@)));
            assert(k as nat == box_side_of(self.n as nat)->Some_0);
        }
        Ok(())
    }
}

/// Soundness of the whole circuit, for every assignment: if `w[ONE] == 1`,
/// the puzzle cells' bit variables hold the puzzle's bits (the public input)
/// and `w` meets the equations of every solution cell, every clue and every
/// row, column and box, then the values `w` gives the solution cells form a
/// valid Sudoku that agrees with the puzzle.
pub proof fn lemma_circuit_sound(
    w: Seq<int>,
    sc: Seq<CellVars>,
    ds: Seq<Seq<usize>>,
    pc: Seq<CellVars>,
    puz: Seq<u8>,
    n: nat,
    k: nat,
)
    requires
        w[ONE as int] == 1,
        k * k == n,
        1 <= n < MAX_TERMS,
        puz.len() == n * n,
        sc.len() == n * n,
        ds.len() == n * n,
        pc.len() == n * n,
        forall|j: int| 0 <= j < n * n ==> (#[trigger] ds[j]).len() == n,
        forall|j: int| 0 <= j < n * n ==> (#[trigger] pc[j]).bits@.len() == CELL_BITS,
        forall|j: int, b: int|
            0 <= j < n * n && 0 <= b < CELL_BITS ==> #[trigger] w[pc[j].bits@[b] as int] == (if bit_seq(
                puz[j] as nat,
                CELL_BITS as nat,
            )[b] {
                1int
            } else {
                0int
            }),
        all_sol_ok(w, sc, ds),
        all_clue_ok(w, pc, sc, puz),
        all_groups_ok(w, ds, n, k, 3 * n as int),
    ensures
        forall|j: int| 0 <= j < n * n ==> 1 <= #[trigger] w[sc[j].value as int] <= n,
        valid_solution(Seq::new(n * n, |j: int| w[sc[j].value as int] as u8), n, k),
        consistent(puz, Seq::new(n * n, |j: int| w[sc[j].value as int] as u8)),
{
    let grid = Seq::new(n * n, |j: int| w[sc[j].value as int] as u8);
    assert forall|j: int| 0 <= j < n * n implies 1 <= w[(#[trigger] sc[j]).value as int] <= n
        && grid[j] as int == w[sc[j].value as int] by {
        assert(sol_ok(w, sc[j], ds[j]));
        crate::gadgets::lemma_digit_sound(w, sc[j].value, ds[j]);
    }
    assert(n * n < 65536) by (nonlinear_arith)
        requires
            n < 256,
    ;
    assert forall|g: int| 0 <= g < 3 * n implies #[trigger] is_permutation(values_at(grid, group_cells(n, k, g)), n) by {
        let cells = group_cells(n, k, g);
        let gu = group_usize(n, k, g);
        let vars = Seq::new(n, |c: int| sc[cells[c]].value);
        assert forall|c: int| 0 <= c < n implies (#[trigger] ds[gu[c] as int]).len() == n
            && digit_holds(w, vars[c], ds[gu[c] as int]) by {
            lemma_group_cells_bounds(n, k, g, c);
            assert(gu[c] as int == cells[c]);
            assert(sol_ok(w, sc[cells[c]], ds[cells[c]]));
        }
        assert(group_holds(w, ds, gu, n));
        lemma_permutation_sound(w, ds, gu, vars, n);
        assert forall|c: int| 0 <= c < n implies #[trigger] values_at(grid, cells)[c] == w[vars[c] as int] by {
            lemma_group_cells_bounds(n, k, g, c);
        }
        assert(values_at(grid, cells) =~= Seq::new(n, |c: int| w[vars[c] as int]));
    }
    assert forall|j: int| 0 <= j < puz.len() && puz[j] != 0 implies #[trigger] grid[j] == puz[j] by {
        assert(clue_ok(w, pc[j], sc[j], puz[j]));
        assert forall|b: int| 0 <= b < CELL_BITS implies #[trigger] w[pc[j].bits@[b] as int] == (if bit_seq(
            puz[j] as nat,
            CELL_BITS as nat,
        )[b] {
            1int
        } else {
            0int
        }) by {}
        lemma_cell_value(w, pc[j].bits@, puz[j]);
    }
}

} // verus!
