//! Gadgets: small groups of constraints, each enforcing one rule, with the
//! exact equations each one adds stated over an arbitrary assignment `w`.
use crate::bits::{bit_bytes, bit_seq, bits_value, encode, lemma_bit_seq_len, CELL_BITS};
use crate::grid::{count, is_permutation};
use crate::r1cs::{lc_eval, lc_ok, ConstraintSystem, Term, satisfied_by, ONE, MAX_TERMS};
use vstd::arithmetic::power2::lemma2_to64;
use vstd::prelude::*;

verus! {

/// `w[x]` is zero or one, given `w[ONE] == 1`.
pub open spec fn bit_holds(w: Seq<int>, x: usize) -> bool {
    w[x as int] * (w[ONE as int] - w[x as int]) == 0
}

/// The number that eight little-endian bit variables stand for under `w`.
pub open spec fn cell_value(w: Seq<int>, b: Seq<usize>) -> int {
    w[b[0] as int] + 2 * w[b[1] as int] + 4 * w[b[2] as int] + 8 * w[b[3] as int] + 16 * w[
        b[4] as int] + 32 * w[b[5] as int] + 64 * w[b[6] as int] + 128 * w[b[7] as int]
}

/// The variables of one encoded cell: its bits and the value they make up.
pub struct CellVars {
    pub bits: Vec<usize>,
    pub value: usize,
}

/// What the constraints of an allocated cell require of `w`.
pub open spec fn cell_holds(w: Seq<int>, bits: Seq<usize>, value: usize) -> bool {
    &&& bits.len() == CELL_BITS
    &&& forall|j: int| 0 <= j < CELL_BITS ==> bit_holds(w, #[trigger] bits[j])
    &&& (cell_value(w, bits) - w[value as int]) * w[ONE as int] == 0
}

/// Sum of `w` over `vars`.
pub open spec fn sum_of(w: Seq<int>, vars: Seq<usize>) -> int
    decreases vars.len(),
{
    if vars.len() == 0 {
        0
    } else {
        sum_of(w, vars.drop_last()) + w[vars.last() as int]
    }
}

/// `sum (i + 1) * w[vars[i]]`: the digit selected by one-hot indicators.
pub open spec fn digit_of(w: Seq<int>, vars: Seq<usize>) -> int
    decreases vars.len(),
{
    if vars.len() == 0 {
        0
    } else {
        digit_of(w, vars.drop_last()) + vars.len() * w[vars.last() as int]
    }
}

/// What the constraints of a digit's indicators require of `w`: each
/// indicator is a bit, exactly one is set, and the set one names the value.
pub open spec fn digit_holds(w: Seq<int>, value: usize, inds: Seq<usize>) -> bool {
    &&& forall|d: int| 0 <= d < inds.len() ==> bit_holds(w, #[trigger] inds[d])
    &&& sum_of(w, inds) * w[ONE as int] == w[ONE as int]
    &&& (digit_of(w, inds) - w[value as int]) * w[ONE as int] == 0
}

/// Appends `coeff * w[var]` to a linear combination.
fn push_term(lc: &mut Vec<Term>, var: usize, coeff: i32, nvars: Ghost<nat>)
    requires
        old(lc)@.len() < MAX_TERMS,
        lc_ok(old(lc)@, nvars@),
        var < nvars@,
        -256 <= coeff <= 256,
    ensures
        final(lc)@ == old(lc)@.push(Term { var, coeff }),
        final(lc)@.len() == old(lc)@.len() + 1,
        lc_ok(final(lc)@, nvars@),
        forall|w: Seq<int>|
            #![trigger lc_eval(final(lc)@, w)]
            lc_eval(final(lc)@, w) == lc_eval(old(lc)@, w) + coeff * w[var as int],
{
    let t = Term { var, coeff };
    lc.push(t);
    proof {
        assert forall|w: Seq<int>| #![trigger lc_eval(lc@, w)]
            lc_eval(lc@, w) == lc_eval(old(lc)@, w) + coeff * w[var as int] by {
            crate::r1cs::lemma_lc_eval_push(old(lc)@, t, w);
        }
        assert forall|i: int| 0 <= i < lc@.len() implies (#[trigger] lc@[i]).var < nvars@
            && -256 <= lc@[i].coeff <= 256 by {
            if i < old(lc)@.len() {
                assert(lc@[i] == old(lc)@[i]);
            }
        }
    }
}

/// A linear combination of one term.
fn single(var: usize, coeff: i32, nvars: Ghost<nat>) -> (lc: Vec<Term>)
    requires
        var < nvars@,
        -256 <= coeff <= 256,
    ensures
        lc@.len() == 1,
        lc_ok(lc@, nvars@),
        forall|w: Seq<int>| #![trigger lc_eval(lc@, w)] lc_eval(lc@, w) == coeff * w[var as int],
{
    let mut lc: Vec<Term> = Vec::new();
    proof {
        assert forall|w: Seq<int>| lc_eval(lc@, w) == 0 by {}
    }
    push_term(&mut lc, var, coeff, nvars);
    lc
}

/// Allocates a variable holding `b` and constrains it to be a bit.
pub fn alloc_bit(cs: &mut ConstraintSystem, b: bool, public: bool) -> (x: usize)
    requires
        old(cs).wf(),
        !old(cs).finalized,
    ensures
        final(cs).wf(),
        !final(cs).finalized,
        x == old(cs).values@.len(),
        final(cs).values@ == old(cs).values@.push(if b { 1u8 } else { 0u8 }),
        final(cs).public@ == old(cs).public@.push(public),
        forall|w: Seq<int>|
            #![trigger satisfied_by(final(cs).constraints@, w)]
            satisfied_by(final(cs).constraints@, w) == (satisfied_by(old(cs).constraints@, w)
                && bit_holds(w, x)),
{
    let x = cs.new_var(if b { 1 } else { 0 }, public);
    let ghost n = cs.values@.len();
    let a = single(x, 1, Ghost(n));
    let mut bl = single(ONE, 1, Ghost(n));
    push_term(&mut bl, x, -1, Ghost(n));
    let c: Vec<Term> = Vec::new();
    proof {
        assert forall|w: Seq<int>| lc_eval(c@, w) == 0 by {}
    }
    cs.enforce(a, bl, c);
    x
}

/// Allocates one bit variable per entry of `vals`, public or private as
/// `public` says, each holding its entry and constrained to be a bit.
pub fn alloc_bits(cs: &mut ConstraintSystem, vals: &Vec<bool>, public: bool) -> (r: Vec<usize>)
    requires
        old(cs).wf(),
        !old(cs).finalized,
    ensures
        final(cs).wf(),
        !final(cs).finalized,
        final(cs).values@ == old(cs).values@ + bit_bytes(vals@),
        final(cs).public@ == old(cs).public@ + Seq::new(vals@.len(), |i: int| public),
        r@ == Seq::new(vals@.len(), |i: int| (old(cs).values@.len() + i) as usize),
        forall|w: Seq<int>|
            #![trigger satisfied_by(final(cs).constraints@, w)]
            satisfied_by(final(cs).constraints@, w) == (satisfied_by(old(cs).constraints@, w)
                && forall|i: int| 0 <= i < r@.len() ==> bit_holds(w, #[trigger] r@[i])),
{
    let ghost start = cs.values@.len();
    let ghost vals0 = cs.values@;
    let ghost pub0 = cs.public@;
    let ghost cons0 = cs.constraints@;
    let mut bits: Vec<usize> = Vec::new();
    let mut j: usize = 0;
    while j < vals.len()
        invariant
            j <= vals.len(),
            cs.wf(),
            !cs.finalized,
            start == vals0.len(),
            cs.values@ == vals0 + bit_bytes(vals@.subrange(0, j as int)),
            cs.public@ == pub0 + Seq::new(j as nat, |i: int| public),
            bits@ == Seq::new(j as nat, |i: int| (start + i) as usize),
            forall|w: Seq<int>|
                #![trigger satisfied_by(cs.constraints@, w)]
                satisfied_by(cs.constraints@, w) == (satisfied_by(cons0, w) && forall|i: int|
                    0 <= i < j ==> bit_holds(w, #[trigger] bits@[i])),
        decreases vals.len() - j,
    {
        let ghost c1 = cs.constraints@;
        let ghost b1 = bits@;
        let x = alloc_bit(cs, vals[j], public);
        bits.push(x);
        proof {
            assert(cs.values@ =~= vals0 + bit_bytes(vals@.subrange(0, j + 1)));
            assert(cs.public@ =~= pub0 + Seq::new((j + 1) as nat, |i: int| public));
            assert(bits@ =~= Seq::new((j + 1) as nat, |i: int| (start + i) as usize));
            assert forall|w: Seq<int>| #![trigger satisfied_by(cs.constraints@, w)]
                satisfied_by(cs.constraints@, w) == (satisfied_by(cons0, w) && forall|i: int|
                    0 <= i < j + 1 ==> bit_holds(w, #[trigger] bits@[i])) by {
                assert(satisfied_by(c1, w) == (satisfied_by(cons0, w) && forall|i: int|
                    0 <= i < j ==> bit_holds(w, #[trigger] b1[i])));
                assert(forall|i: int| 0 <= i < j ==> b1[i] == bits@[i]);
                if forall|i: int| 0 <= i < j + 1 ==> bit_holds(w, #[trigger] bits@[i]) {
                    assert(bit_holds(w, bits@[j as int]));
                }
            }
        }
        j = j + 1;
    }
    proof {
        assert(vals@.subrange(0, vals.len() as int) =~= vals@);
    }
    bits
}

/// Allocates one cell holding `value`: `CELL_BITS` bit variables (public or
/// private as `public` says), a private variable for the value, and the
/// constraint that ties the bits to the value.
pub fn alloc_cell(cs: &mut ConstraintSystem, value: u8, public: bool) -> (r: CellVars)
    requires
        old(cs).wf(),
        !old(cs).finalized,
    ensures
        final(cs).wf(),
        !final(cs).finalized,
        final(cs).values@ == old(cs).values@ + bit_bytes(bit_seq(value as nat, CELL_BITS as nat))
            + seq![value],
        final(cs).public@ == old(cs).public@ + Seq::new(CELL_BITS as nat, |i: int| public)
            + seq![false],
        r.bits@ == Seq::new(CELL_BITS as nat, |j: int| (old(cs).values@.len() + j) as usize),
        r.value == old(cs).values@.len() + CELL_BITS,
        forall|w: Seq<int>|
            #![trigger satisfied_by(final(cs).constraints@, w)]
            satisfied_by(final(cs).constraints@, w) == (satisfied_by(old(cs).constraints@, w)
                && cell_holds(w, r.bits@, r.value)),
{
    proof {
        lemma2_to64();
        lemma_bit_seq_len(value as nat, CELL_BITS as nat);
    }
    let ghost cons0 = cs.constraints@;
    let bitvals = match encode(value as u64, CELL_BITS) {
        Ok(b) => b,
        Err(_) => Vec::new(),
    };
    let bits = alloc_bits(cs, &bitvals, public);
    let ghost c2 = cs.constraints@;
    let v = cs.new_var(value, false);
    let ghost nv = cs.values@.len();
    let mut lc = single(bits[0], 1, Ghost(nv));
    push_term(&mut lc, bits[1], 2, Ghost(nv));
    push_term(&mut lc, bits[2], 4, Ghost(nv));
    push_term(&mut lc, bits[3], 8, Ghost(nv));
    push_term(&mut lc, bits[4], 16, Ghost(nv));
    push_term(&mut lc, bits[5], 32, Ghost(nv));
    push_term(&mut lc, bits[6], 64, Ghost(nv));
    push_term(&mut lc, bits[7], 128, Ghost(nv));
    push_term(&mut lc, v, -1, Ghost(nv));
    let one = single(ONE, 1, Ghost(nv));
    let zero: Vec<Term> = Vec::new();
    proof {
        assert forall|w: Seq<int>| lc_eval(zero@, w) == 0 by {}
    }
    cs.enforce(lc, one, zero);
    proof {
        assert forall|w: Seq<int>| #![trigger satisfied_by(cs.constraints@, w)]
            satisfied_by(cs.constraints@, w) == (satisfied_by(cons0, w) && cell_holds(
                w,
                bits@,
                v,
            )) by {
            assert(satisfied_by(c2, w) == (satisfied_by(cons0, w) && forall|i: int|
                0 <= i < CELL_BITS ==> bit_holds(w, #[trigger] bits@[i])));
        }
    }
    CellVars { bits, value: v }
}

/// The one-hot indicators of a digit in `1..=n`.
pub open spec fn one_hot(value: int, n: nat) -> Seq<bool> {
    Seq::new(n, |d: int| value == d + 1)
}

/// Allocates `n` private indicator bits for the digit held by variable
/// `value` (whose assigned value is `digit`), and constrains exactly one of
/// them to be set and the set one to name the value.
pub fn alloc_digit(cs: &mut ConstraintSystem, value: usize, digit: u8, n: usize) -> (r: Vec<usize>)
    requires
        old(cs).wf(),
        !old(cs).finalized,
        value < old(cs).values@.len(),
        1 <= n < MAX_TERMS,
    ensures
        final(cs).wf(),
        !final(cs).finalized,
        final(cs).values@ == old(cs).values@ + bit_bytes(one_hot(digit as int, n as nat)),
        final(cs).public@ == old(cs).public@ + Seq::new(n as nat, |i: int| false),
        r@ == Seq::new(n as nat, |i: int| (old(cs).values@.len() + i) as usize),
        forall|w: Seq<int>|
            #![trigger satisfied_by(final(cs).constraints@, w)]
            satisfied_by(final(cs).constraints@, w) == (satisfied_by(old(cs).constraints@, w)
                && digit_holds(w, value, r@)),
{
    let ghost cons0 = cs.constraints@;
    let mut hot: Vec<bool> = Vec::new();
    let mut d: usize = 0;
    while d < n
        invariant
            d <= n,
            hot@ == one_hot(digit as int, d as nat),
        decreases n - d,
    {
        hot.push(digit as usize == d + 1);
        proof {
            assert(hot@ =~= one_hot(digit as int, (d + 1) as nat));
        }
        d = d + 1;
    }
    let inds = alloc_bits(cs, &hot, false);
    let ghost c2 = cs.constraints@;
    let ghost nv = cs.values@.len();
    let mut sum: Vec<Term> = Vec::new();
    let mut dig: Vec<Term> = Vec::new();
    let mut k: usize = 0;
    while k < n
        invariant
            k <= n < MAX_TERMS,
            nv == cs.values@.len(),
            inds@.len() == n,
            forall|i: int| 0 <= i < n ==> (#[trigger] inds@[i]) < nv,
            value < nv,
            sum@.len() == k,
            dig@.len() == k,
            lc_ok(sum@, nv),
            lc_ok(dig@, nv),
            forall|w: Seq<int>|
                #![trigger lc_eval(sum@, w)]
                lc_eval(sum@, w) == sum_of(w, inds@.subrange(0, k as int)),
            forall|w: Seq<int>|
                #![trigger lc_eval(dig@, w)]
                lc_eval(dig@, w) == digit_of(w, inds@.subrange(0, k as int)),
        decreases n - k,
    {
        let ghost s1 = sum@;
        let ghost d1 = dig@;
        push_term(&mut sum, inds[k], 1, Ghost(nv));
        push_term(&mut dig, inds[k], (k + 1) as i32, Ghost(nv));
        proof {
            let pre = inds@.subrange(0, k + 1);
            assert(pre.drop_last() =~= inds@.subrange(0, k as int));
            assert forall|w: Seq<int>| #![trigger lc_eval(sum@, w)]
                lc_eval(sum@, w) == sum_of(w, pre) by {
                assert(lc_eval(s1, w) == sum_of(w, inds@.subrange(0, k as int)));
            }
            assert forall|w: Seq<int>| #![trigger lc_eval(dig@, w)]
                lc_eval(dig@, w) == digit_of(w, pre) by {
                assert(lc_eval(d1, w) == digit_of(w, inds@.subrange(0, k as int)));
            }
        }
        k = k + 1;
    }
    push_term(&mut dig, value, -1, Ghost(nv));
    let one = single(ONE, 1, Ghost(nv));
    let one2 = single(ONE, 1, Ghost(nv));
    let one3 = single(ONE, 1, Ghost(nv));
    let zero: Vec<Term> = Vec::new();
    proof {
        assert forall|w: Seq<int>| lc_eval(zero@, w) == 0 by {}
        assert(inds@.subrange(0, n as int) =~= inds@);
    }
    let ghost gs = sum@;
    let ghost gd = dig@;
    cs.enforce(sum, one, one2);
    let ghost c3 = cs.constraints@;
    cs.enforce(dig, one3, zero);
    proof {
        assert forall|w: Seq<int>| #![trigger satisfied_by(cs.constraints@, w)]
            satisfied_by(cs.constraints@, w) == (satisfied_by(cons0, w) && digit_holds(
                w,
                value,
                inds@,
            )) by {
            assert(satisfied_by(c2, w) == (satisfied_by(cons0, w) && forall|i: int|
                0 <= i < n ==> bit_holds(w, #[trigger] inds@[i])));
            assert(satisfied_by(c3, w) == (satisfied_by(c2, w) && lc_eval(gs, w) * w[ONE as int]
                == w[ONE as int]));
            assert(lc_eval(gd, w) == digit_of(w, inds@) - w[value as int]);
        }
    }
    inds
}

/// Adds `(w[a] - w[b]) * w[ONE] == 0`.
pub fn enforce_equal(cs: &mut ConstraintSystem, a: usize, b: usize)
    requires
        old(cs).wf(),
        !old(cs).finalized,
        a < old(cs).values@.len(),
        b < old(cs).values@.len(),
    ensures
        final(cs).wf(),
        !final(cs).finalized,
        final(cs).values@ == old(cs).values@,
        final(cs).public@ == old(cs).public@,
        forall|w: Seq<int>|
            #![trigger satisfied_by(final(cs).constraints@, w)]
            satisfied_by(final(cs).constraints@, w) == (satisfied_by(old(cs).constraints@, w)
                && (w[a as int] - w[b as int]) * w[ONE as int] == 0),
{
    let ghost nv = cs.values@.len();
    let mut lc = single(a, 1, Ghost(nv));
    push_term(&mut lc, b, -1, Ghost(nv));
    let one = single(ONE, 1, Ghost(nv));
    let zero: Vec<Term> = Vec::new();
    proof {
        assert forall|w: Seq<int>| lc_eval(zero@, w) == 0 by {}
    }
    cs.enforce(lc, one, zero);
}

/// The indicators for digit `d + 1` of the cells of `group`.
pub open spec fn column(digits: Seq<Seq<usize>>, group: Seq<usize>, d: int) -> Seq<usize> {
    Seq::new(group.len(), |c: int| digits[group[c] as int][d])
}

/// What the constraints of a group require of `w`: each of the `n` digits
/// is set in exactly one cell of the group.
pub open spec fn group_holds(w: Seq<int>, digits: Seq<Seq<usize>>, group: Seq<usize>, n: nat) -> bool {
    forall|d: int| 0 <= d < n ==> #[trigger] sum_of(w, column(digits, group, d)) * w[ONE as int] == w[ONE as int]
}

/// Requires every digit `1..=n` to occur exactly once among the cells of
/// `group`, whose indicators `alloc_digit` allocated into `digits`.
pub fn enforce_group(cs: &mut ConstraintSystem, digits: &Vec<Vec<usize>>, group: &Vec<usize>, n: usize)
    requires
        old(cs).wf(),
        !old(cs).finalized,
        1 <= n < MAX_TERMS,
        group@.len() == n,
        forall|c: int| 0 <= c < n ==> (#[trigger] group@[c]) < digits@.len(),
        forall|i: int| 0 <= i < digits@.len() ==> (#[trigger] digits@[i])@.len() == n,
        forall|i: int, d: int|
            0 <= i < digits@.len() && 0 <= d < n ==> #[trigger] digits@[i]@[d] < old(cs).values@.len(),
    ensures
        final(cs).wf(),
        !final(cs).finalized,
        final(cs).values@ == old(cs).values@,
        final(cs).public@ == old(cs).public@,
        forall|w: Seq<int>|
            #![trigger satisfied_by(final(cs).constraints@, w)]
            satisfied_by(final(cs).constraints@, w) == (satisfied_by(old(cs).constraints@, w)
                && group_holds(w, digits@.map_values(|v: Vec<usize>| v@), group@, n as nat)),
{
    let ghost ds = digits@.map_values(|v: Vec<usize>| v@);
    let ghost cons0 = cs.constraints@;
    let ghost nv = cs.values@.len();
    let mut d: usize = 0;
    while d < n
        invariant
            d <= n < MAX_TERMS,
            cs.wf(),
            !cs.finalized,
            cs.values@ == old(cs).values@,
            cs.public@ == old(cs).public@,
            nv == cs.values@.len(),
            cons0 == old(cs).constraints@,
            ds == digits@.map_values(|v: Vec<usize>| v@),
            group@.len() == n,
            forall|c: int| 0 <= c < n ==> (#[trigger] group@[c]) < digits@.len(),
            forall|i: int| 0 <= i < digits@.len() ==> (#[trigger] digits@[i])@.len() == n,
            forall|i: int, e: int|
                0 <= i < digits@.len() && 0 <= e < n ==> #[trigger] digits@[i]@[e] < nv,
            forall|w: Seq<int>|
                #![trigger satisfied_by(cs.constraints@, w)]
                satisfied_by(cs.constraints@, w) == (satisfied_by(cons0, w) && forall|e: int|
                    0 <= e < d ==> #[trigger] sum_of(w, column(ds, group@, e)) * w[ONE as int]
                        == w[ONE as int]),
        decreases n - d,
    {
        let mut lc: Vec<Term> = Vec::new();
        let mut c: usize = 0;
        proof {
            assert forall|w: Seq<int>| #![trigger lc_eval(lc@, w)]
                lc_eval(lc@, w) == sum_of(w, column(ds, group@, d as int).subrange(0, 0)) by {
                assert(column(ds, group@, d as int).subrange(0, 0) =~= Seq::<usize>::empty());
            }
        }
        while c < n
            invariant
                c <= n < MAX_TERMS,
                d < n,
                nv == cs.values@.len(),
                ds == digits@.map_values(|v: Vec<usize>| v@),
                group@.len() == n,
                forall|c: int| 0 <= c < n ==> (#[trigger] group@[c]) < digits@.len(),
                forall|i: int| 0 <= i < digits@.len() ==> (#[trigger] digits@[i])@.len() == n,
                forall|i: int, e: int|
                    0 <= i < digits@.len() && 0 <= e < n ==> #[trigger] digits@[i]@[e] < nv,
                lc@.len() == c,
                lc_ok(lc@, nv),
                forall|w: Seq<int>|
                    #![trigger lc_eval(lc@, w)]
                    lc_eval(lc@, w) == sum_of(w, column(ds, group@, d as int).subrange(0, c as int)),
            decreases n - c,
        {
            let ghost l1 = lc@;
            let x = digits[group[c]][d];
            push_term(&mut lc, x, 1, Ghost(nv));
            proof {
                let col = column(ds, group@, d as int);
                let pre = col.subrange(0, c + 1);
                assert(pre.drop_last() =~= col.subrange(0, c as int));
                assert(pre.last() == x);
                assert forall|w: Seq<int>| #![trigger lc_eval(lc@, w)]
                    lc_eval(lc@, w) == sum_of(w, pre) by {
                    assert(lc_eval(l1, w) == sum_of(w, col.subrange(0, c as int)));
                }
            }
            c = c + 1;
        }
        let one = single(ONE, 1, Ghost(nv));
        let one2 = single(ONE, 1, Ghost(nv));
        let ghost gl = lc@;
        let ghost c1 = cs.constraints@;
        cs.enforce(lc, one, one2);
        proof {
            assert(column(ds, group@, d as int).subrange(0, n as int) =~= column(ds, group@, d as int));
            assert forall|w: Seq<int>| #![trigger satisfied_by(cs.constraints@, w)]
                satisfied_by(cs.constraints@, w) == (satisfied_by(cons0, w) && forall|e: int|
                    0 <= e < d + 1 ==> #[trigger] sum_of(w, column(ds, group@, e)) * w[ONE as int]
                        == w[ONE as int]) by {
                assert(satisfied_by(c1, w) == (satisfied_by(cons0, w) && forall|e: int|
                    0 <= e < d ==> #[trigger] sum_of(w, column(ds, group@, e)) * w[ONE as int]
                        == w[ONE as int]));
                assert(lc_eval(gl, w) == sum_of(w, column(ds, group@, d as int)));
            }
        }
        d = d + 1;
    }
}

/// Given `w[ONE] == 1`, a bit constraint leaves only zero and one.
pub proof fn lemma_bit_sound(w: Seq<int>, x: usize)
    requires
        w[ONE as int] == 1,
        bit_holds(w, x),
    ensures
        w[x as int] == 0 || w[x as int] == 1,
{
    let v = w[x as int];
    assert(v == 0 || v == 1) by (nonlinear_arith)
        requires
            v * (1 - v) == 0,
    ;
}

proof fn lemma_one_hot_prefix(w: Seq<int>, inds: Seq<usize>, m: int)
    requires
        0 <= m <= inds.len(),
        forall|d: int| 0 <= d < inds.len() ==> w[#[trigger] inds[d] as int] == 0 || w[inds[d] as int] == 1,
    ensures
        sum_of(w, inds.subrange(0, m)) >= 0,
        sum_of(w, inds.subrange(0, m)) == 0 ==> digit_of(w, inds.subrange(0, m)) == 0,
        sum_of(w, inds.subrange(0, m)) == 1 ==> 1 <= digit_of(w, inds.subrange(0, m)) <= m,
        sum_of(w, inds.subrange(0, m)) == 0 ==> forall|d: int| 0 <= d < m ==> #[trigger] w[inds[d] as int] == 0,
        sum_of(w, inds.subrange(0, m)) == 1 ==> forall|d: int|
            0 <= d < m ==> #[trigger] w[inds[d] as int] == (if digit_of(w, inds.subrange(0, m)) == d + 1 {
                1int
            } else {
                0int
            }),
    decreases m,
{
    if m > 0 {
        let pre = inds.subrange(0, m);
        assert(pre.drop_last() =~= inds.subrange(0, m - 1));
        lemma_one_hot_prefix(w, inds, m - 1);
        assert(pre.last() == inds[m - 1]);
        let b = w[inds[m - 1] as int];
        assert(b == 0 || b == 1);
        if b == 1 {
            assert(m * b == m);
        } else {
            assert(m * b == 0);
        }
    }
}

/// Range enforcement and one-hot soundness: whatever the assignment, once
/// `w[ONE] == 1` the constraints of a digit admit only values in `1..=n`,
/// `n` being the number of its indicators (neither zero nor anything above
/// `n` passes), and force the indicators to be the one-hot form of the value.
pub proof fn lemma_digit_sound(w: Seq<int>, value: usize, inds: Seq<usize>)
    requires
        w[ONE as int] == 1,
        digit_holds(w, value, inds),
    ensures
        1 <= w[value as int] <= inds.len(),
        forall|d: int|
            0 <= d < inds.len() ==> #[trigger] w[inds[d] as int] == (if w[value as int] == d + 1 {
                1int
            } else {
                0int
            }),
{
    assert forall|d: int| 0 <= d < inds.len() implies w[#[trigger] inds[d] as int] == 0 || w[inds[d] as int] == 1 by {
        lemma_bit_sound(w, inds[d]);
    }
    lemma_one_hot_prefix(w, inds, inds.len() as int);
    assert(inds.subrange(0, inds.len() as int) =~= inds);
}

/// The weighted-sum form of an eight-bit value.
proof fn lemma_bits_value_8(s: Seq<bool>)
    requires
        s.len() == 8,
    ensures
        bits_value(s) == (if s[0] { 1nat } else { 0 }) + 2 * (if s[1] { 1nat } else { 0 }) + 4 * (
        if s[2] { 1nat } else { 0 }) + 8 * (if s[3] { 1nat } else { 0 }) + 16 * (if s[4] {
            1nat
        } else {
            0
        }) + 32 * (if s[5] { 1nat } else { 0 }) + 64 * (if s[6] { 1nat } else { 0 }) + 128 * (
        if s[7] { 1nat } else { 0 }),
{
    reveal_with_fuel(bits_value, 9);
    let s1 = s.skip(1);
    let s2 = s1.skip(1);
    let s3 = s2.skip(1);
    let s4 = s3.skip(1);
    let s5 = s4.skip(1);
    let s6 = s5.skip(1);
    let s7 = s6.skip(1);
    let s8 = s7.skip(1);
    assert(s8.len() == 0);
    assert(bits_value(s7) == (if s[7] { 1nat } else { 0 }));
    assert(bits_value(s6) == (if s[6] { 1nat } else { 0 }) + 2 * bits_value(s7));
    assert(bits_value(s5) == (if s[5] { 1nat } else { 0 }) + 2 * bits_value(s6));
    assert(bits_value(s4) == (if s[4] { 1nat } else { 0 }) + 2 * bits_value(s5));
    assert(bits_value(s3) == (if s[3] { 1nat } else { 0 }) + 2 * bits_value(s4));
    assert(bits_value(s2) == (if s[2] { 1nat } else { 0 }) + 2 * bits_value(s3));
    assert(bits_value(s1) == (if s[1] { 1nat } else { 0 }) + 2 * bits_value(s2));
}

/// Bit variables that hold the bits of `value` make up `value`.
pub proof fn lemma_cell_value(w: Seq<int>, bits: Seq<usize>, value: u8)
    requires
        bits.len() == CELL_BITS,
        forall|j: int|
            0 <= j < CELL_BITS ==> #[trigger] w[bits[j] as int] == (if bit_seq(
                value as nat,
                CELL_BITS as nat,
            )[j] {
                1int
            } else {
                0int
            }),
    ensures
        cell_value(w, bits) == value,
{
    let s = bit_seq(value as nat, CELL_BITS as nat);
    crate::bits::lemma_bit_seq_len(value as nat, CELL_BITS as nat);
    crate::bits::lemma_cell_round_trip(value);
    lemma_bits_value_8(s);
    assert(w[bits[0] as int] == (if s[0] { 1int } else { 0 }));
    assert(w[bits[1] as int] == (if s[1] { 1int } else { 0 }));
    assert(w[bits[2] as int] == (if s[2] { 1int } else { 0 }));
    assert(w[bits[3] as int] == (if s[3] { 1int } else { 0 }));
    assert(w[bits[4] as int] == (if s[4] { 1int } else { 0 }));
    assert(w[bits[5] as int] == (if s[5] { 1int } else { 0 }));
    assert(w[bits[6] as int] == (if s[6] { 1int } else { 0 }));
    assert(w[bits[7] as int] == (if s[7] { 1int } else { 0 }));
}

/// A cell whose variables hold the bits of its value satisfies its constraints.
pub proof fn lemma_cell_honest(w: Seq<int>, bits: Seq<usize>, v: usize, value: u8)
    requires
        w[ONE as int] == 1,
        bits.len() == CELL_BITS,
        forall|j: int|
            0 <= j < CELL_BITS ==> #[trigger] w[bits[j] as int] == (if bit_seq(
                value as nat,
                CELL_BITS as nat,
            )[j] {
                1int
            } else {
                0int
            }),
        w[v as int] == value,
    ensures
        cell_holds(w, bits, v),
{
    lemma_cell_value(w, bits, value);
    assert forall|j: int| 0 <= j < CELL_BITS implies bit_holds(w, #[trigger] bits[j]) by {
        assert(w[bits[j] as int] == 0 || w[bits[j] as int] == 1);
    }
}

proof fn lemma_one_hot_sums(w: Seq<int>, inds: Seq<usize>, digit: int, m: int)
    requires
        0 <= m <= inds.len(),
        forall|d: int|
            0 <= d < inds.len() ==> #[trigger] w[inds[d] as int] == (if digit == d + 1 {
                1int
            } else {
                0int
            }),
    ensures
        sum_of(w, inds.subrange(0, m)) == (if 1 <= digit <= m { 1int } else { 0int }),
        digit_of(w, inds.subrange(0, m)) == (if 1 <= digit <= m { digit } else { 0int }),
    decreases m,
{
    if m > 0 {
        let pre = inds.subrange(0, m);
        assert(pre.drop_last() =~= inds.subrange(0, m - 1));
        lemma_one_hot_sums(w, inds, digit, m - 1);
        assert(w[pre.last() as int] == (if digit == m { 1int } else { 0int }));
    }
}

/// A digit whose indicators hold its one-hot form satisfies its constraints
/// exactly when it lies in `1..=n`.
pub proof fn lemma_digit_honest(w: Seq<int>, v: usize, inds: Seq<usize>, digit: int)
    requires
        w[ONE as int] == 1,
        forall|d: int|
            0 <= d < inds.len() ==> #[trigger] w[inds[d] as int] == (if one_hot(
                digit,
                inds.len(),
            )[d] {
                1int
            } else {
                0int
            }),
        w[v as int] == digit,
    ensures
        digit_holds(w, v, inds) <==> 1 <= digit <= inds.len(),
{
    assert forall|d: int|
        0 <= d < inds.len() implies #[trigger] w[inds[d] as int] == (if digit == d + 1 {
        1int
    } else {
        0int
    }) by {
        assert(one_hot(digit, inds.len())[d] == (digit == d + 1));
    }
    lemma_one_hot_sums(w, inds, digit, inds.len() as int);
    assert(inds.subrange(0, inds.len() as int) =~= inds);
    assert forall|d: int| 0 <= d < inds.len() implies bit_holds(w, #[trigger] inds[d]) by {
        assert(w[inds[d] as int] == 0 || w[inds[d] as int] == 1);
    }
}

/// Summing the indicators of digit `d + 1` over a group counts the cells
/// of the group that hold `d + 1`.
pub proof fn lemma_column_count(
    w: Seq<int>,
    digits: Seq<Seq<usize>>,
    group: Seq<usize>,
    d: int,
    vals: Seq<int>,
)
    requires
        group.len() == vals.len(),
        forall|c: int|
            0 <= c < group.len() ==> #[trigger] w[digits[group[c] as int][d] as int] == (if vals[c]
                == d + 1 {
                1int
            } else {
                0int
            }),
    ensures
        sum_of(w, column(digits, group, d)) == count(vals, d + 1),
    decreases group.len(),
{
    if group.len() > 0 {
        let g1 = group.drop_last();
        let vals_a = vals.drop_last();
        assert(column(digits, group, d).drop_last() =~= column(digits, g1, d));
        assert forall|c: int|
            0 <= c < g1.len() implies #[trigger] w[digits[g1[c] as int][d] as int] == (if vals_a[c]
            == d + 1 {
            1int
        } else {
            0int
        }) by {
            assert(g1[c] == group[c]);
        }
        lemma_column_count(w, digits, g1, d, vals_a);
        assert(w[digits[group.last() as int][d] as int] == (if vals.last() == d + 1 {
            1int
        } else {
            0int
        }));
    }
}

/// Soundness of the permutation gadget: under any assignment with
/// `w[ONE] == 1` that meets the digit constraints of the `n` cells of a
/// group and the group's constraints, the cells' values are a permutation
/// of `1..=n`.
pub proof fn lemma_permutation_sound(
    w: Seq<int>,
    digits: Seq<Seq<usize>>,
    group: Seq<usize>,
    vars: Seq<usize>,
    n: nat,
)
    requires
        w[ONE as int] == 1,
        group.len() == n,
        vars.len() == n,
        forall|c: int| 0 <= c < n ==> (#[trigger] digits[group[c] as int]).len() == n,
        forall|c: int| 0 <= c < n ==> digit_holds(w, vars[c], #[trigger] digits[group[c] as int]),
        group_holds(w, digits, group, n),
    ensures
        is_permutation(Seq::new(n, |c: int| w[vars[c] as int]), n),
{
    let vals = Seq::new(n, |c: int| w[vars[c] as int]);
    assert forall|c: int| 0 <= c < n implies 1 <= #[trigger] vals[c] <= n by {
        lemma_digit_sound(w, vars[c], digits[group[c] as int]);
    }
    assert forall|d: int| 1 <= d <= n implies #[trigger] count(vals, d) == 1 by {
        assert forall|c: int| 0 <= c < group.len() implies #[trigger] w[digits[group[c] as int][d - 1] as int] == (
        if vals[c] == d - 1 + 1 {
            1int
        } else {
            0int
        }) by {
            lemma_digit_sound(w, vars[c], digits[group[c] as int]);
        }
        lemma_column_count(w, digits, group, d - 1, vals);
        assert(sum_of(w, column(digits, group, d - 1)) * w[ONE as int] == w[ONE as int]);
    }
}

} // verus!
