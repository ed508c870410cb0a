//! The rules of Sudoku on an `n`-by-`n` grid with `k`-by-`k` boxes, held
//! row-major in a sequence of cells: rows, columns and boxes, what makes a
//! solution valid, and what makes it agree with a puzzle.
use crate::r1cs::MAX_TERMS;
use vstd::prelude::*;

verus! {

/// How often `d` occurs in `vals`.
pub open spec fn count(vals: Seq<int>, d: int) -> nat
    decreases vals.len(),
{
    if vals.len() == 0 {
        0
    } else {
        count(vals.drop_last(), d) + if vals.last() == d { 1nat } else { 0nat }
    }
}

/// `vals` holds each of `1..=n` exactly once and nothing else.
pub open spec fn is_permutation(vals: Seq<int>, n: nat) -> bool {
    &&& forall|i: int| 0 <= i < vals.len() ==> 1 <= #[trigger] vals[i] <= n
    &&& forall|d: int| 1 <= d <= n ==> #[trigger] count(vals, d) == 1
}

/// The row-major cell indices of group `g` of an `n`-by-`n` grid with
/// `k`-by-`k` boxes: rows are groups `0..n`, columns `n..2n`, boxes `2n..3n`.
pub open spec fn group_cells(n: nat, k: nat, g: int) -> Seq<int> {
    if g < n {
        Seq::new(n, |j: int| g * n + j)
    } else if g < 2 * n {
        Seq::new(n, |i: int| i * n + (g - n))
    } else {
        Seq::new(
            n,
            |j: int|
                (((g - 2 * n) / k as int) * k + j / k as int) * n + ((g - 2 * n) % k as int) * k + j
                    % k as int,
        )
    }
}

/// The values of `grid` at `cells`.
pub open spec fn values_at(grid: Seq<u8>, cells: Seq<int>) -> Seq<int> {
    Seq::new(cells.len(), |j: int| grid[cells[j]] as int)
}

/// Every row, column and box of `sol` is a permutation of `1..=n`.
pub open spec fn valid_solution(sol: Seq<u8>, n: nat, k: nat) -> bool {
    forall|g: int| 0 <= g < 3 * n ==> #[trigger] is_permutation(values_at(sol, group_cells(n, k, g)), n)
}

/// `sol` agrees with every clue (non-zero cell) of `puzzle`.
pub open spec fn consistent(puzzle: Seq<u8>, sol: Seq<u8>) -> bool {
    forall|i: int| 0 <= i < puzzle.len() && puzzle[i] != 0 ==> #[trigger] sol[i] == puzzle[i]
}

pub open spec fn square(k: nat) -> nat {
    k * k
}

/// The side of the boxes of an `n`-by-`n` grid, if `n` is a square.
pub open spec fn box_side_of(n: nat) -> Option<nat> {
    if exists|k: nat| #[trigger] square(k) == n {
        Some(choose|k: nat| #[trigger] square(k) == n)
    } else {
        None
    }
}

/// The grids have the shape a circuit can be built for: `n` is a non-zero
/// square below 256 and both grids hold `n * n` cells.
pub open spec fn shape_ok(n: nat, solution: Seq<u8>, puzzle: Seq<u8>) -> bool {
    &&& 1 <= n < MAX_TERMS
    &&& box_side_of(n) is Some
    &&& solution.len() == n * n
    &&& puzzle.len() == n * n
}

/// The side `k` with `k * k == n`, if there is one.
pub fn box_side(n: usize) -> (r: Option<usize>)
    requires
        n < MAX_TERMS,
    ensures
        r is Some <==> box_side_of(n as nat) is Some,
        r is Some ==> r->Some_0 * r->Some_0 == n && box_side_of(n as nat) == Some(
            r->Some_0 as nat,
        ),
{
    let mut k: usize = 0;
    assert(k * k <= 65536) by (nonlinear_arith)
        requires
            k == 0,
    ;
    while k * k < n
        invariant
            k <= n < MAX_TERMS,
            k * k <= 65536,
            forall|j: nat| j < k ==> #[trigger] square(j) < n,
        decreases n - k,
    {
        proof {
            assert forall|j: nat| j < k + 1 implies #[trigger] square(j) < n by {
                if j == k {
                    assert(square(j) == k * k);
                }
            }
            assert(k + 1 <= n) by (nonlinear_arith)
                requires
                    k * k < n,
            ;
            assert((k + 1) * (k + 1) <= 65536) by (nonlinear_arith)
                requires
                    k + 1 <= n,
                    n < 256,
            ;
        }
        k = k + 1;
    }
    proof {
        assert forall|j: nat| #[trigger] square(j) == n implies j == k by {
            if j < k {
            } else if j > k {
                assert(square(j) == j * j);
                assert(j * j > k * k) by (nonlinear_arith)
                    requires
                        j > k,
                ;
            }
        }
        if k * k == n {
            assert(square(k as nat) == n);
        }
    }
    if k * k == n {
        Some(k)
    } else {
        None
    }
}

proof fn lemma_index(r: int, c: int, n: int)
    requires
        0 <= r < n,
        0 <= c < n,
    ensures
        0 <= r * n + c < n * n,
{
    assert(0 <= r * n + c < n * n) by (nonlinear_arith)
        requires
            0 <= r < n,
            0 <= c < n,
    ;
}

proof fn lemma_box_bounds(b: int, j: int, k: int)
    requires
        k > 0,
        0 <= b < k * k,
        0 <= j < k * k,
    ensures
        0 <= (b / k) * k + j / k < k * k,
        0 <= (b % k) * k + j % k < k * k,
{
    vstd::arithmetic::div_mod::lemma_fundamental_div_mod(b, k);
    vstd::arithmetic::div_mod::lemma_fundamental_div_mod(j, k);
    vstd::arithmetic::div_mod::lemma_mod_bound(b, k);
    vstd::arithmetic::div_mod::lemma_mod_bound(j, k);
    vstd::arithmetic::div_mod::lemma_div_pos_is_pos(b, k);
    vstd::arithmetic::div_mod::lemma_div_pos_is_pos(j, k);
    let qb = b / k;
    let qj = j / k;
    assert(qb < k) by (nonlinear_arith)
        requires
            b == k * qb + b % k,
            0 <= b % k,
            b < k * k,
            k > 0,
    ;
    assert(qj < k) by (nonlinear_arith)
        requires
            j == k * qj + j % k,
            0 <= j % k,
            j < k * k,
            k > 0,
    ;
    assert(0 <= qb * k + qj < k * k) by (nonlinear_arith)
        requires
            0 <= qb < k,
            0 <= qj < k,
    ;
    assert(0 <= (b % k) * k + j % k < k * k) by (nonlinear_arith)
        requires
            0 <= b % k < k,
            0 <= j % k < k,
    ;
}

/// The cell indices of group `g`, as `group_cells` gives them.
pub fn group_indices(n: usize, k: usize, g: usize) -> (r: Vec<usize>)
    requires
        k * k == n,
        1 <= n < MAX_TERMS,
        g < 3 * n,
    ensures
        r@.len() == n,
        forall|j: int| 0 <= j < n ==> #[trigger] r@[j] as int == group_cells(n as nat, k as nat, g as int)[j],
        forall|j: int| 0 <= j < n ==> #[trigger] r@[j] < n * n,
{
    let ghost cells = group_cells(n as nat, k as nat, g as int);
    let mut r: Vec<usize> = Vec::new();
    let mut j: usize = 0;
    assert(k > 0) by (nonlinear_arith)
        requires
            k * k == n,
            n >= 1,
    ;
    while j < n
        invariant
            k * k == n,
            1 <= n < MAX_TERMS,
            k > 0,
            g < 3 * n,
            j <= n,
            cells == group_cells(n as nat, k as nat, g as int),
            r@.len() == j,
            forall|i: int| 0 <= i < j ==> #[trigger] r@[i] as int == cells[i],
            forall|i: int| 0 <= i < j ==> #[trigger] r@[i] < n * n,
        decreases n - j,
    {
        let (row, col) = if g < n {
            (g, j)
        } else if g < 2 * n {
            (j, g - n)
        } else {
            let b = g - 2 * n;
            proof {
                lemma_box_bounds(b as int, j as int, k as int);
            }
            ((b / k) * k + j / k, (b % k) * k + j % k)
        };
        proof {
            lemma_index(row as int, col as int, n as int);
            assert(n * n < 65536) by (nonlinear_arith)
                requires
                    n < 256,
            ;
        }
        let x = row * n + col;
        r.push(x);
        j = j + 1;
    }
    r
}

/// Every cell of group `g` lies in the grid.
pub proof fn lemma_group_cells_bounds(n: nat, k: nat, g: int, j: int)
    requires
        k * k == n,
        n >= 1,
        0 <= g < 3 * n,
        0 <= j < n,
    ensures
        0 <= group_cells(n, k, g)[j] < n * n,
{
    assert(k > 0) by (nonlinear_arith)
        requires
            k * k == n,
            n >= 1,
    ;
    if g < n {
        lemma_index(g, j, n as int);
    } else if g < 2 * n {
        lemma_index(j, g - n, n as int);
    } else {
        let b = g - 2 * n;
        lemma_box_bounds(b, j, k as int);
        lemma_index((b / k as int) * k + j / k as int, (b % k as int) * k + j % k as int, n as int);
    }
}

/// Every cell lies in its row.
pub(crate) proof fn lemma_cell_in_row(n: nat, k: nat, c: int)
    requires
        n >= 1,
        0 <= c < n * n,
    ensures
        0 <= c / (n as int) < n,
        0 <= c % (n as int) < n,
        group_cells(n, k, c / (n as int))[c % (n as int)] == c,
{
    vstd::arithmetic::div_mod::lemma_fundamental_div_mod(c, n as int);
    vstd::arithmetic::div_mod::lemma_mod_bound(c, n as int);
    vstd::arithmetic::div_mod::lemma_div_pos_is_pos(c, n as int);
    assert(c / (n as int) < n) by (nonlinear_arith)
        requires
            c == n * (c / (n as int)) + c % (n as int),
            0 <= c % (n as int),
            c < n * n,
            n >= 1,
    ;
    assert((c / (n as int)) * n == n * (c / (n as int))) by (nonlinear_arith);
}

proof fn lemma_count_two(vals: Seq<int>, d: int, i: int, j: int)
    requires
        0 <= i < j < vals.len(),
        vals[i] == d,
        vals[j] == d,
    ensures
        count(vals, d) >= 2,
    decreases vals.len(),
{
    let pre = vals.drop_last();
    if j < vals.len() - 1 {
        lemma_count_two(pre, d, i, j);
    } else {
        lemma_count_one(pre, d, i);
    }
}

proof fn lemma_count_one(vals: Seq<int>, d: int, i: int)
    requires
        0 <= i < vals.len(),
        vals[i] == d,
    ensures
        count(vals, d) >= 1,
    decreases vals.len(),
{
    if i < vals.len() - 1 {
        lemma_count_one(vals.drop_last(), d, i);
    }
}

/// Copying one cell of a row onto another cell of the same row leaves a
/// grid that is no valid Sudoku, so the circuit built for it is unsatisfied.
pub proof fn lemma_row_duplicate_invalid(sol: Seq<u8>, n: nat, k: nat, r: int, c1: int, c2: int)
    requires
        k * k == n,
        1 <= n,
        sol.len() == n * n,
        0 <= r < n,
        0 <= c1 < n,
        0 <= c2 < n,
        c1 != c2,
    ensures
        !valid_solution(sol.update(r * n + c1, sol[r * n + c2]), n, k),
{
    let i1 = r * n + c1;
    let i2 = r * n + c2;
    lemma_index(r, c1, n as int);
    lemma_index(r, c2, n as int);
    let bad = sol.update(i1, sol[i2]);
    let vals = values_at(bad, group_cells(n, k, r));
    assert(vals[c1] == bad[i1]);
    assert(vals[c2] == bad[i2]);
    assert(i1 != i2);
    let d = sol[i2] as int;
    if c1 < c2 {
        lemma_count_two(vals, d, c1, c2);
    } else {
        lemma_count_two(vals, d, c2, c1);
    }
    if valid_solution(bad, n, k) {
        assert(is_permutation(vals, n));
        assert(1 <= vals[c1] <= n);
        assert(count(vals, d) == 1);
    }
}

/// Changing a clue's cell of the solution to another value leaves a
/// solution that disagrees with the puzzle, however valid it is otherwise.
pub proof fn lemma_clue_mismatch(puz: Seq<u8>, sol: Seq<u8>, i: int, v: u8)
    requires
        puz.len() == sol.len(),
        0 <= i < puz.len(),
        puz[i] != 0,
        v != puz[i],
    ensures
        !consistent(puz, sol.update(i, v)),
{
    assert(sol.update(i, v)[i] == v);
}

proof fn lemma_count_update(vals: Seq<int>, c: int, x: int, d: int)
    requires
        0 <= c < vals.len(),
    ensures
        count(vals.update(c, x), d) == count(vals, d) - (if vals[c] == d { 1int } else { 0int }) + (
        if x == d {
            1int
        } else {
            0int
        }),
    decreases vals.len(),
{
    let upd = vals.update(c, x);
    if c == vals.len() - 1 {
        assert(upd.drop_last() =~= vals.drop_last());
    } else {
        assert(upd.drop_last() =~= vals.drop_last().update(c, x));
        lemma_count_update(vals.drop_last(), c, x, d);
    }
}

/// Changing any one cell of a valid solution to another value leaves a grid
/// that is no valid Sudoku: the cell's row loses its old digit.
pub proof fn lemma_single_change_invalid(sol: Seq<u8>, n: nat, k: nat, i: int, v: u8)
    requires
        1 <= n,
        sol.len() == n * n,
        0 <= i < n * n,
        v != sol[i],
        valid_solution(sol, n, k),
    ensures
        !valid_solution(sol.update(i, v), n, k),
{
    lemma_cell_in_row(n, k, i);
    let g = i / (n as int);
    let c = i % (n as int);
    let cells = group_cells(n, k, g);
    let bad = sol.update(i, v);
    let before = values_at(sol, cells);
    assert(is_permutation(before, n));
    let d = sol[i] as int;
    assert(before[c] == d);
    assert(1 <= d <= n);
    assert(count(before, d) == 1);
    assert forall|j: int| 0 <= j < n && j != c implies #[trigger] cells[j] != i by {
        assert(cells[j] == g * n + j);
        assert(cells[c] == g * n + c);
    }
    assert forall|j: int| 0 <= j < n implies #[trigger] values_at(bad, cells)[j] == before.update(c, v as int)[j] by {
        lemma_index(g, j, n as int);
        assert(cells[j] == g * n + j);
    }
    assert(values_at(bad, cells) =~= before.update(c, v as int));
    lemma_count_update(before, c, v as int, d);
    assert(count(values_at(bad, cells), d) == 0);
    if valid_solution(bad, n, k) {
        assert(is_permutation(values_at(bad, group_cells(n, k, g)), n));
        assert(count(values_at(bad, cells), d) == 1);
    }
}

} // verus!
