//! A rank-one constraint system: variables with an assignment, and
//! constraints `<a, w> * <b, w> == <c, w>` over linear combinations of them.
//! Constraints are evaluated over the integers; every value the circuit
//! assigns is a byte, so no evaluation ever wraps.
use vstd::prelude::*;

verus! {

/// Most terms a linear combination may hold.
pub const MAX_TERMS: usize = 256;

/// Largest magnitude of a coefficient.
pub const MAX_COEFF: i32 = 256;

/// Index of the variable that always holds one.
pub const ONE: usize = 0;

/// Why a circuit could not be built.
#[derive(Debug, Clone, Copy, PartialEq, Eq, Structural)]
pub enum SynthesisError {
    /// The constraint system was already marked complete.
    Finalized,
    /// The grids do not have the shape the circuit needs.
    DimensionMismatch,
}

/// `coeff * w[var]`, one term of a linear combination.
#[derive(Debug, Clone, Copy, PartialEq, Eq, Structural)]
pub struct Term {
    pub var: usize,
    pub coeff: i32,
}

/// The constraint `<a, w> * <b, w> == <c, w>`.
#[derive(Debug, Clone)]
pub struct Constraint {
    pub a: Vec<Term>,
    pub b: Vec<Term>,
    pub c: Vec<Term>,
}

/// Variables, their assignment and the constraints over them.
/// Variable `ONE` holds one; `public[i]` says whether variable `i` is part of
/// the public input.
pub struct ConstraintSystem {
    pub values: Vec<u8>,
    pub public: Vec<bool>,
    pub constraints: Vec<Constraint>,
    pub finalized: bool,
}

/// The value of a linear combination under the assignment `w`.
pub open spec fn lc_eval(lc: Seq<Term>, w: Seq<int>) -> int
    decreases lc.len(),
{
    if lc.len() == 0 {
        0
    } else {
        lc[0].coeff * w[lc[0].var as int] + lc_eval(lc.skip(1), w)
    }
}

pub open spec fn holds(c: Constraint, w: Seq<int>) -> bool {
    lc_eval(c.a@, w) * lc_eval(c.b@, w) == lc_eval(c.c@, w)
}

/// Every constraint of `cs` holds under `w`.
pub open spec fn satisfied_by(cs: Seq<Constraint>, w: Seq<int>) -> bool {
    forall|i: int| 0 <= i < cs.len() ==> holds(#[trigger] cs[i], w)
}

/// A linear combination over the first `nvars` variables with bounded size.
pub open spec fn lc_ok(lc: Seq<Term>, nvars: nat) -> bool {
    &&& lc.len() <= MAX_TERMS
    &&& forall|i: int|
        0 <= i < lc.len() ==> (#[trigger] lc[i]).var < nvars && -MAX_COEFF <= lc[i].coeff
            <= MAX_COEFF
}

pub open spec fn constraint_ok(c: Constraint, nvars: nat) -> bool {
    lc_ok(c.a@, nvars) && lc_ok(c.b@, nvars) && lc_ok(c.c@, nvars)
}

/// The assignment as integers.
pub open spec fn assignment(values: Seq<u8>) -> Seq<int> {
    values.map_values(|v: u8| v as int)
}

/// The values of the public variables, in the order they were allocated.
pub open spec fn public_values(vals: Seq<u8>, public: Seq<bool>) -> Seq<u8>
    decreases vals.len(),
{
    if vals.len() == 0 || public.len() == 0 {
        Seq::empty()
    } else if public.last() {
        public_values(vals.drop_last(), public.drop_last()).push(vals.last())
    } else {
        public_values(vals.drop_last(), public.drop_last())
    }
}

pub proof fn lemma_public_values_append(vals_a: Seq<u8>, flags_a: Seq<bool>, vals_b: Seq<u8>, flags_b: Seq<bool>)
    requires
        vals_a.len() == flags_a.len(),
        vals_b.len() == flags_b.len(),
    ensures
        public_values(vals_a + vals_b, flags_a + flags_b) == public_values(vals_a, flags_a) + public_values(vals_b, flags_b),
    decreases vals_b.len(),
{
    if vals_b.len() == 0 {
        assert(vals_a + vals_b =~= vals_a);
        assert(flags_a + flags_b =~= flags_a);
        assert(public_values(vals_a, flags_a) + Seq::<u8>::empty() =~= public_values(vals_a, flags_a));
    } else {
        assert((vals_a + vals_b).drop_last() =~= vals_a + vals_b.drop_last());
        assert((flags_a + flags_b).drop_last() =~= flags_a + flags_b.drop_last());
        lemma_public_values_append(vals_a, flags_a, vals_b.drop_last(), flags_b.drop_last());
        if flags_b.last() {
            assert(public_values(vals_a, flags_a) + public_values(vals_b.drop_last(), flags_b.drop_last()).push(
                vals_b.last(),
            ) =~= (public_values(vals_a, flags_a) + public_values(vals_b.drop_last(), flags_b.drop_last())).push(
                vals_b.last(),
            ));
        }
    }
}

pub proof fn lemma_public_values_uniform(v: Seq<u8>, p: Seq<bool>, flag: bool)
    requires
        v.len() == p.len(),
        forall|i: int| 0 <= i < p.len() ==> p[i] == flag,
    ensures
        public_values(v, p) == (if flag { v } else { Seq::<u8>::empty() }),
    decreases v.len(),
{
    if v.len() > 0 {
        lemma_public_values_uniform(v.drop_last(), p.drop_last(), flag);
        if flag {
            assert(v.drop_last().push(v.last()) =~= v);
        }
    }
}

pub proof fn lemma_lc_eval_push(lc: Seq<Term>, t: Term, w: Seq<int>)
    ensures
        lc_eval(lc.push(t), w) == lc_eval(lc, w) + t.coeff * w[t.var as int],
    decreases lc.len(),
{
    let e = lc.push(t);
    if lc.len() > 0 {
        assert(e.skip(1) =~= lc.skip(1).push(t));
        lemma_lc_eval_push(lc.skip(1), t, w);
        assert(e[0] == lc[0]);
        assert(lc_eval(e, w) == e[0].coeff * w[e[0].var as int] + lc_eval(e.skip(1), w));
        assert(lc_eval(lc, w) == lc[0].coeff * w[lc[0].var as int] + lc_eval(lc.skip(1), w));
    } else {
        assert(e.skip(1) =~= Seq::<Term>::empty());
        assert(e[0] == t);
        assert(lc_eval(e.skip(1), w) == 0);
        assert(lc_eval(e, w) == e[0].coeff * w[e[0].var as int] + lc_eval(e.skip(1), w));
    }
}

/// Adding a constraint adds exactly its equation to what must hold.
pub proof fn lemma_satisfied_push(cs: Seq<Constraint>, c: Constraint, w: Seq<int>)
    ensures
        satisfied_by(cs.push(c), w) == (satisfied_by(cs, w) && holds(c, w)),
{
    let ext = cs.push(c);
    if satisfied_by(cs, w) && holds(c, w) {
        assert forall|i: int| 0 <= i < ext.len() implies holds(#[trigger] ext[i], w) by {
            if i < cs.len() {
                assert(ext[i] == cs[i]);
            }
        }
    }
    if satisfied_by(ext, w) {
        assert(holds(ext[cs.len() as int], w));
        assert forall|i: int| 0 <= i < cs.len() implies holds(#[trigger] cs[i], w) by {
            assert(ext[i] == cs[i]);
        }
    }
}

/// A linear combination over the first `nvars` variables does not look past them.
pub proof fn lemma_lc_eval_agree(lc: Seq<Term>, w1: Seq<int>, w2: Seq<int>, nvars: nat)
    requires
        lc_ok(lc, nvars),
        forall|i: int| 0 <= i < nvars ==> w1[i] == w2[i],
    ensures
        lc_eval(lc, w1) == lc_eval(lc, w2),
    decreases lc.len(),
{
    if lc.len() > 0 {
        assert(lc[0].var < nvars);
        lemma_lc_eval_agree(lc.skip(1), w1, w2, nvars);
    }
}

/// Constraints over the first `nvars` variables hold under two assignments
/// alike, if the two agree on those variables.
pub proof fn lemma_satisfied_agree(cs: Seq<Constraint>, w1: Seq<int>, w2: Seq<int>, nvars: nat)
    requires
        forall|i: int| 0 <= i < cs.len() ==> constraint_ok(#[trigger] cs[i], nvars),
        forall|i: int| 0 <= i < nvars ==> w1[i] == w2[i],
    ensures
        satisfied_by(cs, w1) == satisfied_by(cs, w2),
{
    assert forall|i: int| 0 <= i < cs.len() implies holds(#[trigger] cs[i], w1) == holds(cs[i], w2) by {
        assert(constraint_ok(cs[i], nvars));
        lemma_lc_eval_agree(cs[i].a@, w1, w2, nvars);
        lemma_lc_eval_agree(cs[i].b@, w1, w2, nvars);
        lemma_lc_eval_agree(cs[i].c@, w1, w2, nvars);
    }
}

/// The order of the scalar field of BLS12-377, the field in which the proof
/// system checks the constraints, written in 64-bit limbs
/// (8444461749428370424248824938781546531375899335154063827935233455917409239041).
pub open spec fn scalar_modulus() -> int {
    (((0x12ab655e9a2ca556 * 0x1_0000_0000_0000_0000 + 0x60b44d1e5c37b001) * 0x1_0000_0000_0000_0000 + 0x59aa76fed0000001)
        * 0x1_0000_0000_0000_0000 + 0xa11800000000001) as int
}

/// Every constraint of `cs` holds under `w` modulo `p`; for a prime `p`,
/// in the field of order `p`.
pub open spec fn satisfied_mod(cs: Seq<Constraint>, w: Seq<int>, p: int) -> bool {
    forall|i: int|
        0 <= i < cs.len() ==> (lc_eval((#[trigger] cs[i]).a@, w) * lc_eval(cs[i].b@, w)) % p
            == lc_eval(cs[i].c@, w) % p
}

/// What holds in the integers holds modulo every `p`, for any assignment.
pub proof fn lemma_satisfied_mod_of_int(cs: Seq<Constraint>, w: Seq<int>, p: int)
    requires
        p > 0,
        satisfied_by(cs, w),
    ensures
        satisfied_mod(cs, w, p),
{
    assert forall|i: int| 0 <= i < cs.len() implies (lc_eval((#[trigger] cs[i]).a@, w) * lc_eval(
        cs[i].b@,
        w,
    )) % p == lc_eval(cs[i].c@, w) % p by {
        assert(holds(cs[i], w));
    }
}

proof fn lemma_lc_eval_bound(lc: Seq<Term>, vals: Seq<u8>)
    requires
        lc_ok(lc, vals.len()),
    ensures
        -65536 * lc.len() <= lc_eval(lc, assignment(vals)) <= 65536 * lc.len(),
    decreases lc.len(),
{
    if lc.len() > 0 {
        let rest = lc.skip(1);
        assert forall|i: int| 0 <= i < rest.len() implies (#[trigger] rest[i]).var < vals.len()
            && -MAX_COEFF <= rest[i].coeff <= MAX_COEFF by {
            assert(rest[i] == lc[i + 1]);
        }
        lemma_lc_eval_bound(rest, vals);
        let c = lc[0].coeff as int;
        let x = assignment(vals)[lc[0].var as int];
        assert(0 <= x <= 255);
        assert(-65536 <= c * x <= 65536) by (nonlinear_arith)
            requires
                -256 <= c <= 256,
                0 <= x <= 255,
        ;
    }
}

proof fn lemma_close_mod_eq(x: int, y: int, p: int)
    requires
        p > 0,
        -p < x - y < p,
        x % p == y % p,
    ensures
        x == y,
{
    vstd::arithmetic::div_mod::lemma_fundamental_div_mod(x, p);
    vstd::arithmetic::div_mod::lemma_fundamental_div_mod(y, p);
    let qx = x / p;
    let qy = y / p;
    assert(x - y == p * (qx - qy)) by (nonlinear_arith)
        requires
            x == p * qx + x % p,
            y == p * qy + y % p,
            x % p == y % p,
    ;
    assert(qx == qy) by (nonlinear_arith)
        requires
            x - y == p * (qx - qy),
            -p < x - y < p,
            p > 0,
    ;
}

pub proof fn lemma_scalar_modulus_large()
    ensures
        scalar_modulus() >= 0x4000000000000,
{
}

fn eval_lc(lc: &Vec<Term>, values: &Vec<u8>) -> (r: i64)
    requires
        lc_ok(lc@, values@.len()),
    ensures
        r == lc_eval(lc@, assignment(values@)),
        -65536 * 256 <= r <= 65536 * 256,
{
    let ghost w = assignment(values@);
    let mut acc: i64 = 0;
    let mut i: usize = lc.len();
    proof {
        assert(lc@.skip(lc.len() as int) =~= Seq::<Term>::empty());
    }
    while i > 0
        invariant
            i <= lc.len() <= MAX_TERMS,
            lc_ok(lc@, values@.len()),
            w == assignment(values@),
            acc == lc_eval(lc@.skip(i as int), w),
            -65536 * (lc.len() - i) <= acc <= 65536 * (lc.len() - i),
        decreases i,
    {
        let t = lc[i - 1];
        let v = values[t.var];
        let c = t.coeff as i64;
        let x = v as i64;
        assert(-65536 <= c * x <= 65536) by (nonlinear_arith)
            requires
                -256 <= c <= 256,
                0 <= x <= 255,
        ;
        proof {
            let s = lc@.skip(i - 1);
            assert(s.skip(1) =~= lc@.skip(i as int));
            assert(s[0] == t);
            assert(w[t.var as int] == v as int);
        }
        acc = c * x + acc;
        i = i - 1;
    }
    proof {
        assert(lc@.skip(0) =~= lc@);
    }
    acc
}

impl ConstraintSystem {
    /// Well-formed: `ONE` holds one and is public, and every constraint speaks
    /// of allocated variables only, within the size bounds.
    pub open spec fn wf(&self) -> bool {
        &&& self.values@.len() == self.public@.len()
        &&& self.values@.len() >= 1
        &&& self.values@[ONE as int] == 1
        &&& self.public@[ONE as int]
        &&& forall|i: int|
            0 <= i < self.constraints@.len() ==> constraint_ok(
                #[trigger] self.constraints@[i],
                self.values@.len(),
            )
    }

    /// The held assignment satisfies every constraint.
    pub open spec fn is_satisfied_spec(&self) -> bool {
        satisfied_by(self.constraints@, assignment(self.values@))
    }

    /// Modulo any `p` of at least `2^50`, the scalar field of BLS12-377
    /// among them (`lemma_scalar_modulus_large`), the held assignment
    /// satisfies the constraints exactly when it does in the integers: every
    /// side of every constraint is far smaller than `p`, so nothing wraps.
    pub proof fn lemma_satisfied_mod_iff(&self, p: int)
        requires
            self.wf(),
            p >= 0x4000000000000,
        ensures
            self.is_satisfied_spec() <==> satisfied_mod(self.constraints@, assignment(self.values@), p),
    {
        let w = assignment(self.values@);
        let cs = self.constraints@;
        if self.is_satisfied_spec() {
            lemma_satisfied_mod_of_int(cs, w, p);
        }
        if satisfied_mod(cs, w, p) {
            assert forall|i: int| 0 <= i < cs.len() implies holds(#[trigger] cs[i], w) by {
                assert(constraint_ok(cs[i], self.values@.len()));
                lemma_lc_eval_bound(cs[i].a@, self.values@);
                lemma_lc_eval_bound(cs[i].b@, self.values@);
                lemma_lc_eval_bound(cs[i].c@, self.values@);
                let a = lc_eval(cs[i].a@, w);
                let b = lc_eval(cs[i].b@, w);
                let c = lc_eval(cs[i].c@, w);
                assert(-0x1000000000000 <= a * b <= 0x1000000000000) by (nonlinear_arith)
                    requires
                        -65536 * 256 <= a <= 65536 * 256,
                        -65536 * 256 <= b <= 65536 * 256,
                ;
                lemma_close_mod_eq(a * b, c, p);
            }
        }
    }

    /// An empty system that holds only `ONE`.
    pub fn new() -> (r: Self)
        ensures
            r.wf(),
            !r.finalized,
            r.values@ == seq![1u8],
            r.public@ == seq![true],
            r.constraints@.len() == 0,
            r.is_satisfied_spec(),
    {
        let mut values: Vec<u8> = Vec::new();
        values.push(1);
        let mut public: Vec<bool> = Vec::new();
        public.push(true);
        ConstraintSystem { values, public, constraints: Vec::new(), finalized: false }
    }

    /// Allocates a new variable holding `value`, public or private, and
    /// returns its index.
    pub fn new_var(&mut self, value: u8, public: bool) -> (v: usize)
        requires
            old(self).wf(),
            !old(self).finalized,
        ensures
            final(self).wf(),
            !final(self).finalized,
            v == old(self).values@.len(),
            final(self).values@ == old(self).values@.push(value),
            final(self).public@ == old(self).public@.push(public),
            final(self).constraints@ == old(self).constraints@,
    {
        let v = self.values.len();
        self.values.push(value);
        self.public.push(public);
        proof {
            assert forall|i: int| 0 <= i < self.constraints@.len() implies constraint_ok(
                #[trigger] self.constraints@[i],
                self.values@.len(),
            ) by {
                assert(constraint_ok(old(self).constraints@[i], old(self).values@.len()));
            }
        }
        v
    }

    /// Adds the constraint `<a, w> * <b, w> == <c, w>`.
    pub fn enforce(&mut self, a: Vec<Term>, b: Vec<Term>, c: Vec<Term>)
        requires
            old(self).wf(),
            !old(self).finalized,
            lc_ok(a@, old(self).values@.len()),
            lc_ok(b@, old(self).values@.len()),
            lc_ok(c@, old(self).values@.len()),
        ensures
            final(self).wf(),
            !final(self).finalized,
            final(self).values@ == old(self).values@,
            final(self).public@ == old(self).public@,
            final(self).constraints@.len() == old(self).constraints@.len() + 1,
            forall|w: Seq<int>|
                #![trigger satisfied_by(final(self).constraints@, w)]
                satisfied_by(final(self).constraints@, w) == (satisfied_by(
                    old(self).constraints@,
                    w,
                ) && lc_eval(a@, w) * lc_eval(b@, w) == lc_eval(c@, w)),
    {
        let ghost ga = a@;
        let ghost gb = b@;
        let ghost gc = c@;
        let con = Constraint { a, b, c };
        self.constraints.push(con);
        proof {
            assert(self.constraints@ == old(self).constraints@.push(con));
            assert forall|w: Seq<int>|
                #![trigger satisfied_by(self.constraints@, w)]
                satisfied_by(self.constraints@, w) == (satisfied_by(old(self).constraints@, w)
                    && lc_eval(ga, w) * lc_eval(gb, w) == lc_eval(gc, w)) by {
                lemma_satisfied_push(old(self).constraints@, con, w);
            }
            assert forall|i: int| 0 <= i < self.constraints@.len() implies constraint_ok(
                #[trigger] self.constraints@[i],
                self.values@.len(),
            ) by {
                if i < old(self).constraints@.len() {
                    assert(self.constraints@[i] == old(self).constraints@[i]);
                }
            }
        }
    }

    /// Marks the system complete: nothing more may be allocated.
    pub fn finalize(&mut self)
        ensures
            final(self).finalized,
            final(self).values@ == old(self).values@,
            final(self).public@ == old(self).public@,
            final(self).constraints@ == old(self).constraints@,
    {
        self.finalized = true;
    }

    pub fn num_constraints(&self) -> (r: usize)
        ensures
            r == self.constraints@.len(),
    {
        self.constraints.len()
    }

    pub fn num_variables(&self) -> (r: usize)
        ensures
            r == self.values@.len(),
    {
        self.values.len()
    }

    /// Whether the held assignment satisfies every constraint.
    pub fn is_satisfied(&self) -> (r: bool)
        requires
            self.wf(),
        ensures
            r == self.is_satisfied_spec(),
    {
        let ghost w = assignment(self.values@);
        let mut k: usize = 0;
        while k < self.constraints.len()
            invariant
                self.wf(),
                w == assignment(self.values@),
                k <= self.constraints@.len(),
                forall|j: int| 0 <= j < k ==> holds(#[trigger] self.constraints@[j], w),
            decreases self.constraints.len() - k,
        {
            let con = &self.constraints[k];
            proof {
                assert(constraint_ok(self.constraints@[k as int], self.values@.len()));
            }
            let x = eval_lc(&con.a, &self.values);
            let y = eval_lc(&con.b, &self.values);
            let z = eval_lc(&con.c, &self.values);
            assert(-0x10000000000000 <= x * y <= 0x10000000000000) by (nonlinear_arith)
                requires
                    -65536 * 256 <= x <= 65536 * 256,
                    -65536 * 256 <= y <= 65536 * 256,
            ;
            if x * y != z {
                return false;
            }
            k = k + 1;
        }
        true
    }
}

} // verus!
