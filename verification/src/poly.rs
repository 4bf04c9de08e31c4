//! Sparse multivariate monomials and polynomials over the scalar field,
//! and their selected (partial) evaluation.
//!
//! A partial assignment fixes some variables to field values and leaves the
//! others free. Selected evaluation substitutes the fixed variables,
//! collapsing each term to a scalar multiplier times a residual monomial in
//! the free variables, and rebuilds the polynomial with duplicate residual
//! monomials combined by coefficient summation.

use crate::scalar::{fe_add, fe_mul, fe_pow, pow_mod, prime, Scalar};
use vstd::arithmetic::div_mod::{
    lemma_add_mod_noop, lemma_add_mod_noop_right, lemma_mul_mod_noop_left, lemma_small_mod,
};
use vstd::prelude::*;

verus! {

/// The integer values behind a partial assignment.
pub open spec fn opt_vals(s: Seq<Option<Scalar>>) -> Seq<Option<int>> {
    s.map_values(
        |o: Option<Scalar>|
            match o {
                Some(x) => Some(x.val()),
                None => None,
            },
    )
}

/// Every fixed point of the assignment is a canonical field element.
pub open spec fn points_wf(s: Seq<Option<Scalar>>) -> bool {
    forall|i: int|
        0 <= i < s.len() && s[i] is Some ==> (#[trigger] s[i])->Some_0.wf()
}

/// Variable indices strictly increase: each variable appears once.
pub open spec fn pairs_sorted(ps: Seq<(usize, u64)>) -> bool {
    forall|i: int, j: int| 0 <= i < j < ps.len() ==> (#[trigger] ps[i]).0 < (#[trigger] ps[j]).0
}

/// No zero exponents are stored.
pub open spec fn pairs_positive(ps: Seq<(usize, u64)>) -> bool {
    forall|i: int| 0 <= i < ps.len() ==> (#[trigger] ps[i]).1 > 0
}

/// Drops the zero exponents of a pair list.
pub open spec fn filter_pos(ps: Seq<(usize, u64)>) -> Seq<(usize, u64)>
    decreases ps.len(),
{
    if ps.len() == 0 {
        Seq::empty()
    } else if ps.last().1 > 0 {
        filter_pos(ps.drop_last()) + seq![ps.last()]
    } else {
        filter_pos(ps.drop_last())
    }
}

/// The pair's variable is fixed by the assignment. Variables beyond the
/// assignment's length are free by definition.
pub open spec fn is_fixed(p: (usize, u64), pts: Seq<Option<int>>) -> bool {
    p.0 < pts.len() && pts[p.0 as int] is Some
}

/// Some variable of the monomial is fixed to zero: the whole term vanishes.
pub open spec fn annihilated(ps: Seq<(usize, u64)>, pts: Seq<Option<int>>) -> bool {
    exists|j: int|
        0 <= j < ps.len() && is_fixed(#[trigger] ps[j], pts) && pts[ps[j].0 as int]->Some_0 == 0
}

/// The scalar multiplier collected from the first `n` pairs: the product of
/// each fixed point raised to the pair's exponent, reduced at every step.
pub open spec fn sel_scalar_upto(ps: Seq<(usize, u64)>, pts: Seq<Option<int>>, n: nat) -> int
    decreases n,
{
    if n == 0 {
        1
    } else {
        let prev = sel_scalar_upto(ps, pts, (n - 1) as nat);
        let p = ps[n - 1];
        if is_fixed(p, pts) {
            (prev * pow_mod(pts[p.0 as int]->Some_0, p.1 as nat)) % prime()
        } else {
            prev
        }
    }
}

/// The residual monomial collected from the first `n` pairs: the free
/// pairs, in order.
pub open spec fn sel_residual_upto(ps: Seq<(usize, u64)>, pts: Seq<Option<int>>, n: nat) -> Seq<
    (usize, u64),
>
    decreases n,
{
    if n == 0 {
        Seq::empty()
    } else {
        let prev = sel_residual_upto(ps, pts, (n - 1) as nat);
        if is_fixed(ps[n - 1], pts) {
            prev
        } else {
            prev + seq![ps[n - 1]]
        }
    }
}

/// The scalar multiplier of a whole monomial under a partial assignment.
pub open spec fn sel_scalar(ps: Seq<(usize, u64)>, pts: Seq<Option<int>>) -> int {
    sel_scalar_upto(ps, pts, ps.len())
}

/// The residual monomial of a whole monomial under a partial assignment.
pub open spec fn sel_residual(ps: Seq<(usize, u64)>, pts: Seq<Option<int>>) -> Seq<(usize, u64)> {
    sel_residual_upto(ps, pts, ps.len())
}

/// A product of variable powers: strictly sorted (variable, exponent)
/// pairs with positive exponents.
#[derive(Debug)]
pub struct Monomial {
    pub pairs: Vec<(usize, u64)>,
}

impl Monomial {
    /// The structural invariant: unique, sorted variables and positive
    /// exponents.
    pub open spec fn wf(self) -> bool {
        pairs_sorted(self.pairs@) && pairs_positive(self.pairs@)
    }

    /// Builds a monomial from (variable, exponent) pairs with strictly
    /// increasing variable indices; zero exponents are dropped.
    pub fn new(term: Vec<(usize, u64)>) -> (r: Monomial)
        requires
            pairs_sorted(term@),
        ensures
            r.pairs@ == filter_pos(term@),
            r.wf(),
    {
        let mut pairs: Vec<(usize, u64)> = Vec::new();
        let mut i: usize = 0;
        while i < term.len()
            invariant
                i <= term@.len(),
                pairs_sorted(term@),
                pairs@ == filter_pos(term@.subrange(0, i as int)),
                pairs_sorted(pairs@),
                pairs_positive(pairs@),
                forall|k: int, j: int|
                    0 <= k < pairs@.len() && i <= j < term@.len()
                        ==> (#[trigger] pairs@[k]).0 < (#[trigger] term@[j]).0,
            decreases term@.len() - i,
        {
            let p = term[i];
            proof {
                assert(term@.subrange(0, i + 1).drop_last() =~= term@.subrange(0, i as int));
                assert(term@.subrange(0, i + 1).last() == term@[i as int]);
            }
            if p.1 > 0 {
                pairs.push(p);
            }
            i = i + 1;
        }
        proof {
            assert(term@.subrange(0, term@.len() as int) =~= term@);
        }
        Monomial { pairs }
    }
}

/// Term-level selected evaluation: collapsing a monomial under a partial
/// assignment to a scalar multiplier and a residual monomial.
pub trait TermEvaluation {
    /// The (variable, exponent) pairs of the receiver.
    spec fn term_pairs(&self) -> Seq<(usize, u64)>;

    /// The receiver's structural invariant.
    spec fn term_wf(&self) -> bool;

    /// Substitutes the fixed variables of `points` into the receiver. If a
    /// fixed point is zero at a variable present in the receiver, the whole
    /// term is annihilated to (0, empty monomial); otherwise the scalar is
    /// the product of each fixed point raised to its exponent, and the
    /// residual monomial keeps exactly the free pairs.
    fn selected_evaluation(&self, points: &Vec<Option<Scalar>>) -> (r: (Scalar, Monomial))
        requires
            self.term_wf(),
            points_wf(points@),
        ensures
            r.0.wf(),
            r.1.wf(),
            annihilated(self.term_pairs(), opt_vals(points@)) ==> r.0.val() == 0
                && r.1.pairs@ == Seq::<(usize, u64)>::empty(),
            !annihilated(self.term_pairs(), opt_vals(points@)) ==> r.0.val() == sel_scalar(
                self.term_pairs(),
                opt_vals(points@),
            ) && r.1.pairs@ == sel_residual(self.term_pairs(), opt_vals(points@)),
    ;
}

impl TermEvaluation for Monomial {
    open spec fn term_pairs(&self) -> Seq<(usize, u64)> {
        self.pairs@
    }

    open spec fn term_wf(&self) -> bool {
        self.wf()
    }

    #[verifier::loop_isolation(false)]
    fn selected_evaluation(&self, points: &Vec<Option<Scalar>>) -> (r: (Scalar, Monomial)) {
        let ghost ps = self.pairs@;
        let ghost pts = opt_vals(points@);

        let mut scalar = Scalar::one();
        let mut residual: Vec<(usize, u64)> = Vec::new();
        let mut i: usize = 0;
        while i < self.pairs.len()
            invariant
                i <= ps.len(),
                scalar.wf(),
                scalar.val() == sel_scalar_upto(ps, pts, i as nat),
                residual@ == sel_residual_upto(ps, pts, i as nat),
                pairs_sorted(residual@),
                pairs_positive(residual@),
                forall|k: int, j: int|
                    0 <= k < residual@.len() && i <= j < ps.len()
                        ==> (#[trigger] residual@[k]).0 < (#[trigger] ps[j]).0,
                forall|j: int|
                    0 <= j < i ==> !(is_fixed(#[trigger] ps[j], pts)
                        && pts[ps[j].0 as int]->Some_0 == 0),
            decreases ps.len() - i,
        {
            let p = self.pairs[i];
            let var = p.0;
            if var < points.len() {
                match points[var] {
                    Some(pt) => {
                        if pt.is_zero() {
                            proof {
                                assert(is_fixed(ps[i as int], pts)
                                    && pts[ps[i as int].0 as int]->Some_0 == 0);
                                assert(annihilated(ps, pts));
                            }
                            return (Scalar::zero(), Monomial { pairs: Vec::new() });
                        }
                        let pw = fe_pow(&pt, p.1);
                        scalar = fe_mul(&scalar, &pw);
                    },
                    None => {
                        residual.push(p);
                    },
                }
            } else {
                residual.push(p);
            }
            i = i + 1;
        }
        proof {
            assert(!annihilated(ps, pts));
        }
        (scalar, Monomial { pairs: residual })
    }
}

/// The mathematical content of a term list: each term as (coefficient
/// value, monomial pairs).
pub open spec fn terms_model(ts: Seq<(Scalar, Monomial)>) -> Seq<(int, Seq<(usize, u64)>)> {
    ts.map_values(|t: (Scalar, Monomial)| (t.0.val(), t.1.pairs@))
}

/// The first position holding the monomial `m`, or -1.
pub open spec fn find_mono(ts: Seq<(int, Seq<(usize, u64)>)>, m: Seq<(usize, u64)>) -> int
    decreases ts.len(),
{
    if ts.len() == 0 {
        -1
    } else if ts[0].1 == m {
        0
    } else {
        let r = find_mono(ts.subrange(1, ts.len() as int), m);
        if r < 0 {
            -1
        } else {
            r + 1
        }
    }
}

/// `find_mono` names the first position of `m`, and -1 exactly when `m` is
/// absent.
pub proof fn lemma_find_mono(ts: Seq<(int, Seq<(usize, u64)>)>, m: Seq<(usize, u64)>)
    ensures
        -1 <= find_mono(ts, m) < ts.len(),
        find_mono(ts, m) == -1 <==> (forall|k: int| 0 <= k < ts.len() ==> (#[trigger] ts[k]).1 != m),
        find_mono(ts, m) >= 0 ==> ts[find_mono(ts, m)].1 == m && (forall|k: int|
            0 <= k < find_mono(ts, m) ==> (#[trigger] ts[k]).1 != m),
    decreases ts.len(),
{
    if ts.len() > 0 && ts[0].1 != m {
        let tail = ts.subrange(1, ts.len() as int);
        lemma_find_mono(tail, m);
        let ft = find_mono(tail, m);
        if ft == -1 {
            assert forall|k: int| 0 <= k < ts.len() implies (#[trigger] ts[k]).1 != m by {
                if k > 0 {
                    assert(tail[k - 1] == ts[k]);
                }
            }
        } else {
            assert(tail[ft] == ts[ft + 1]);
            assert forall|k: int| 0 <= k < ft + 1 implies (#[trigger] ts[k]).1 != m by {
                if k > 0 {
                    assert(tail[k - 1] == ts[k]);
                }
            }
        }
        if forall|k: int| 0 <= k < ts.len() ==> (#[trigger] ts[k]).1 != m {
            assert forall|k: int| 0 <= k < tail.len() implies (#[trigger] tail[k]).1 != m by {
                assert(tail[k] == ts[k + 1]);
            }
        }
    }
}

/// Merges the first `n` terms into a list with unique monomials: a term
/// whose monomial is already present adds its coefficient (mod the prime)
/// into place; a new monomial is appended.
pub open spec fn merge_upto(ts: Seq<(int, Seq<(usize, u64)>)>, n: nat) -> Seq<
    (int, Seq<(usize, u64)>),
>
    decreases n,
{
    if n == 0 {
        Seq::empty()
    } else {
        let prev = merge_upto(ts, (n - 1) as nat);
        let t = ts[n - 1];
        let f = find_mono(prev, t.1);
        if f >= 0 {
            prev.update(f, ((prev[f].0 + t.0) % prime(), t.1))
        } else {
            prev.push(t)
        }
    }
}

/// Drops the terms whose coefficient is zero.
pub open spec fn drop_zero_terms(ts: Seq<(int, Seq<(usize, u64)>)>) -> Seq<
    (int, Seq<(usize, u64)>),
>
    decreases ts.len(),
{
    if ts.len() == 0 {
        Seq::empty()
    } else if ts.last().0 == 0 {
        drop_zero_terms(ts.drop_last())
    } else {
        drop_zero_terms(ts.drop_last()) + seq![ts.last()]
    }
}

/// Canonicalises a term list: duplicate monomials combined by coefficient
/// summation, zero coefficients dropped.
pub open spec fn combine(ts: Seq<(int, Seq<(usize, u64)>)>) -> Seq<(int, Seq<(usize, u64)>)> {
    drop_zero_terms(merge_upto(ts, ts.len()))
}

impl PartialEq for Monomial {
    fn eq(&self, other: &Monomial) -> (r: bool) {
        if self.pairs.len() != other.pairs.len() {
            return false;
        }
        let mut i: usize = 0;
        while i < self.pairs.len()
            invariant
                i <= self.pairs@.len(),
                self.pairs@.len() == other.pairs@.len(),
                forall|k: int| 0 <= k < i ==> self.pairs@[k] == other.pairs@[k],
            decreases self.pairs@.len() - i,
        {
            let a = self.pairs[i];
            let b = other.pairs[i];
            if a.0 != b.0 || a.1 != b.1 {
                return false;
            }
            i = i + 1;
        }
        proof {
            assert(self.pairs@ =~= other.pairs@);
        }
        true
    }
}

impl vstd::std_specs::cmp::PartialEqSpecImpl for Monomial {
    open spec fn obeys_eq_spec() -> bool {
        true
    }

    open spec fn eq_spec(&self, other: &Monomial) -> bool {
        self.pairs@ == other.pairs@
    }
}

/// An owned copy of a monomial with the same pairs.
fn mono_clone(m: &Monomial) -> (r: Monomial)
    ensures
        r.pairs@ == m.pairs@,
{
    let mut pairs: Vec<(usize, u64)> = Vec::new();
    let mut i: usize = 0;
    while i < m.pairs.len()
        invariant
            i <= m.pairs@.len(),
            pairs@ == m.pairs@.subrange(0, i as int),
        decreases m.pairs@.len() - i,
    {
        pairs.push(m.pairs[i]);
        i = i + 1;
        proof {
            assert(pairs@ =~= m.pairs@.subrange(0, i as int));
        }
    }
    proof {
        assert(pairs@ =~= m.pairs@);
    }
    Monomial { pairs }
}

/// The first position of `ts` holding the monomial `m`, if any.
fn find_term(ts: &Vec<(Scalar, Monomial)>, m: &Monomial) -> (r: Option<usize>)
    ensures
        r is Some ==> r->Some_0 < ts@.len() && find_mono(terms_model(ts@), m.pairs@)
            == r->Some_0 as int,
        r is None ==> find_mono(terms_model(ts@), m.pairs@) == -1,
{
    proof {
        lemma_find_mono(terms_model(ts@), m.pairs@);
    }
    let mut j: usize = 0;
    while j < ts.len()
        invariant
            j <= ts@.len(),
            forall|k: int| 0 <= k < j ==> (#[trigger] terms_model(ts@)[k]).1 != m.pairs@,
        decreases ts@.len() - j,
    {
        if ts[j].1 == *m {
            proof {
                lemma_find_mono(terms_model(ts@), m.pairs@);
                let tm = terms_model(ts@);
                assert(tm[j as int].1 == m.pairs@);
                let f = find_mono(tm, m.pairs@);
                if f == -1 {
                    assert(tm[j as int].1 != m.pairs@);
                }
                if 0 <= f < j {
                    assert(tm[f].1 != m.pairs@);
                }
                if f > j {
                    assert(tm[j as int].1 != m.pairs@);
                }
            }
            return Some(j);
        }
        j = j + 1;
    }
    None
}

/// A sparse multivariate polynomial: a sum of (coefficient, monomial)
/// terms over `num_vars` declared variables.
#[derive(Debug)]
pub struct Polynomial {
    /// The number of declared variables.
    pub num_vars: usize,
    /// The (coefficient, monomial) terms.
    pub terms: Vec<(Scalar, Monomial)>,
}

/// Every variable of the pair list lies below the declared count.
pub open spec fn term_vars_lt(ps: Seq<(usize, u64)>, n: int) -> bool {
    forall|k: int| 0 <= k < ps.len() ==> (#[trigger] ps[k]).0 < n
}

impl Polynomial {
    /// The mathematical content: the term list as (coefficient value,
    /// monomial pairs).
    pub open spec fn model(self) -> Seq<(int, Seq<(usize, u64)>)> {
        terms_model(self.terms@)
    }

    /// The structural invariant: canonical coefficients, well-formed
    /// monomials, variable indices below the declared count.
    pub open spec fn wf(self) -> bool {
        forall|i: int|
            0 <= i < self.terms@.len() ==> (#[trigger] self.terms@[i]).0.wf()
                && self.terms@[i].1.wf() && term_vars_lt(self.terms@[i].1.pairs@,
                self.num_vars as int)
    }

    /// Builds the polynomial from an explicit term list: duplicate
    /// monomials are combined by coefficient summation and terms with a
    /// zero coefficient are dropped.
    #[verifier::loop_isolation(false)]
    pub fn new(num_vars: usize, terms: Vec<(Scalar, Monomial)>) -> (r: Polynomial)
        requires
            forall|i: int|
                0 <= i < terms@.len() ==> (#[trigger] terms@[i]).0.wf() && terms@[i].1.wf()
                    && term_vars_lt(terms@[i].1.pairs@, num_vars as int),
        ensures
            r.num_vars == num_vars,
            r.model() == combine(terms_model(terms@)),
            r.wf(),
            forall|pt: Seq<int>|
                #[trigger] poly_eval(r.model(), pt) == poly_eval(terms_model(terms@), pt),
    {
        let ghost tm = terms_model(terms@);
        let mut merged: Vec<(Scalar, Monomial)> = Vec::new();
        let mut i: usize = 0;
        while i < terms.len()
            invariant
                i <= terms@.len(),
                terms_model(merged@) == merge_upto(tm, i as nat),
                forall|k: int|
                    0 <= k < merged@.len() ==> (#[trigger] merged@[k]).0.wf() && merged@[k].1.wf()
                        && term_vars_lt(merged@[k].1.pairs@, num_vars as int),
            decreases terms@.len() - i,
        {
            let t = &terms[i];
            let c = t.0;
            let m = mono_clone(&t.1);
            proof {
                assert(tm[i as int] == (c.val(), m.pairs@));
            }
            let ghost before = merged@;
            match find_term(&merged, &m) {
                Some(j) => {
                    let prev = merged.remove(j);
                    let bumped = fe_add(&prev.0, &c);
                    merged.insert(j, (bumped, prev.1));
                    proof {
                        lemma_find_mono(terms_model(before), m.pairs@);
                        assert(terms_model(before)[j as int].1 == m.pairs@);
                        assert(terms_model(before)[j as int] == (before[j as int].0.val(),
                            before[j as int].1.pairs@));
                        assert(prev.1.pairs@ == m.pairs@);
                        assert(merged@ =~= before.update(j as int, (bumped, prev.1)));
                        assert(terms_model(merged@) =~= terms_model(before).update(
                            j as int,
                            ((terms_model(before)[j as int].0 + c.val()) % prime(), m.pairs@),
                        ));
                    }
                },
                None => {
                    merged.push((c, m));
                },
            }
            i = i + 1;
            proof {
                assert(terms_model(merged@) =~= merge_upto(tm, i as nat));
            }
        }
        let mut out: Vec<(Scalar, Monomial)> = Vec::new();
        let ghost mm = terms_model(merged@);
        let mut i2: usize = 0;
        while i2 < merged.len()
            invariant
                i2 <= merged@.len(),
                terms_model(out@) == drop_zero_terms(mm.subrange(0, i2 as int)),
                forall|k: int|
                    0 <= k < out@.len() ==> (#[trigger] out@[k]).0.wf() && out@[k].1.wf()
                        && term_vars_lt(out@[k].1.pairs@, num_vars as int),
            decreases merged@.len() - i2,
        {
            proof {
                assert(mm.subrange(0, i2 + 1).drop_last() =~= mm.subrange(0, i2 as int));
                assert(mm.subrange(0, i2 + 1).last() == mm[i2 as int]);
            }
            let t = &merged[i2];
            if !t.0.is_zero() {
                let c = t.0;
                let m = mono_clone(&t.1);
                out.push((c, m));
            }
            i2 = i2 + 1;
            proof {
                assert(terms_model(out@) =~= drop_zero_terms(mm.subrange(0, i2 as int)));
            }
        }
        proof {
            assert(mm.subrange(0, mm.len() as int) =~= mm);
            assert forall|pt: Seq<int>|
                #[trigger] poly_eval(terms_model(out@), pt) == poly_eval(tm, pt) by {
                lemma_combine_eval(tm, pt);
                assert(terms_model(out@) == combine(tm));
            }
        }
        Polynomial { num_vars, terms: out }
    }
}

/// The value of a monomial's first `n` pairs at a full point: the product
/// of each variable's value raised to its exponent, reduced at every step.
pub open spec fn mono_eval_upto(ps: Seq<(usize, u64)>, pt: Seq<int>, n: nat) -> int
    decreases n,
{
    if n == 0 {
        1
    } else {
        (mono_eval_upto(ps, pt, (n - 1) as nat) * pow_mod(pt[ps[n - 1].0 as int],
            ps[n - 1].1 as nat)) % prime()
    }
}

/// The value of a monomial at a full point.
pub open spec fn mono_eval(ps: Seq<(usize, u64)>, pt: Seq<int>) -> int {
    mono_eval_upto(ps, pt, ps.len())
}

/// The value of the first `n` terms at a full point: the sum of each
/// coefficient times its monomial's value, reduced at every step.
pub open spec fn poly_eval_upto(ts: Seq<(int, Seq<(usize, u64)>)>, pt: Seq<int>, n: nat) -> int
    decreases n,
{
    if n == 0 {
        0
    } else {
        (poly_eval_upto(ts, pt, (n - 1) as nat) + (ts[n - 1].0 * mono_eval(ts[n - 1].1, pt))
            % prime()) % prime()
    }
}

/// The value of a term list at a full point.
pub open spec fn poly_eval(ts: Seq<(int, Seq<(usize, u64)>)>, pt: Seq<int>) -> int {
    poly_eval_upto(ts, pt, ts.len())
}

/// A term's collapse under a partial assignment: annihilated to (0, empty)
/// if a fixed point is zero at one of its variables, otherwise the
/// coefficient times the collected scalar, with the residual monomial.
pub open spec fn sel_term_model(c: int, ps: Seq<(usize, u64)>, pts: Seq<Option<int>>) -> (
    int,
    Seq<(usize, u64)>,
) {
    if annihilated(ps, pts) {
        (0, Seq::empty())
    } else {
        ((c * sel_scalar(ps, pts)) % prime(), sel_residual(ps, pts))
    }
}

/// Term-by-term collapse of a whole term list under a partial assignment.
pub open spec fn sel_poly_terms(
    ts: Seq<(int, Seq<(usize, u64)>)>,
    pts: Seq<Option<int>>,
) -> Seq<(int, Seq<(usize, u64)>)> {
    Seq::new(ts.len(), |i: int| sel_term_model(ts[i].0, ts[i].1, pts))
}

/// A residual monomial only keeps variables of the original monomial, so
/// its variables stay below the declared count.
pub proof fn lemma_sel_residual_vars(ps: Seq<(usize, u64)>, pts: Seq<Option<int>>, n: nat, nv: int)
    requires
        term_vars_lt(ps, nv),
        n <= ps.len(),
    ensures
        term_vars_lt(sel_residual_upto(ps, pts, n), nv),
    decreases n,
{
    if n > 0 {
        lemma_sel_residual_vars(ps, pts, (n - 1) as nat, nv);
        if !is_fixed(ps[n - 1], pts) {
            let prev = sel_residual_upto(ps, pts, (n - 1) as nat);
            let cur = sel_residual_upto(ps, pts, n);
            assert forall|k: int| 0 <= k < cur.len() implies (#[trigger] cur[k]).0 < nv by {
                if k < prev.len() {
                    assert(cur[k] == prev[k]);
                } else {
                    assert(cur[k] == ps[n - 1]);
                }
            }
        }
    }
}

impl Polynomial {
    /// Full-point evaluation: the value of the polynomial at a point with
    /// one field element per declared variable.
    #[verifier::loop_isolation(false)]
    pub fn evaluate(&self, point: &Vec<Scalar>) -> (r: Scalar)
        requires
            self.wf(),
            point@.len() == self.num_vars,
            forall|i: int| 0 <= i < point@.len() ==> (#[trigger] point@[i]).wf(),
        ensures
            r.wf(),
            r.val() == poly_eval(self.model(), crate::scalar::vals(point@)),
    {
        let ghost pm = self.model();
        let ghost pv = crate::scalar::vals(point@);
        let mut acc = Scalar::zero();
        let mut i: usize = 0;
        while i < self.terms.len()
            invariant
                i <= self.terms@.len(),
                acc.wf(),
                acc.val() == poly_eval_upto(pm, pv, i as nat),
            decreases self.terms@.len() - i,
        {
            let t = &self.terms[i];
            let mut mv = Scalar::one();
            let mut k: usize = 0;
            while k < t.1.pairs.len()
                invariant
                    k <= t.1.pairs@.len(),
                    mv.wf(),
                    mv.val() == mono_eval_upto(t.1.pairs@, pv, k as nat),
                decreases t.1.pairs@.len() - k,
            {
                let p = t.1.pairs[k];
                let pw = fe_pow(&point[p.0], p.1);
                mv = fe_mul(&mv, &pw);
                k = k + 1;
            }
            proof {
                assert(pm[i as int] == (t.0.val(), t.1.pairs@));
            }
            let tv = fe_mul(&t.0, &mv);
            acc = fe_add(&acc, &tv);
            i = i + 1;
        }
        acc
    }

    /// Sum of two polynomials over the same declared variables: the term
    /// lists are concatenated and canonicalised.
    #[verifier::loop_isolation(false)]
    pub fn add(&self, other: &Polynomial) -> (r: Polynomial)
        requires
            self.wf(),
            other.wf(),
            self.num_vars == other.num_vars,
        ensures
            r.num_vars == self.num_vars,
            r.model() == combine(self.model() + other.model()),
            r.wf(),
            forall|pt: Seq<int>|
                #[trigger] poly_eval(r.model(), pt) == (poly_eval(self.model(), pt) + poly_eval(
                    other.model(),
                    pt,
                )) % prime(),
    {
        let mut all: Vec<(Scalar, Monomial)> = Vec::new();
        let mut i: usize = 0;
        while i < self.terms.len()
            invariant
                i <= self.terms@.len(),
                all@.len() == i,
                forall|k: int|
                    0 <= k < i ==> (#[trigger] all@[k]).0 == self.terms@[k].0
                        && all@[k].1.pairs@ == self.terms@[k].1.pairs@ && all@[k].1.wf()
                        && term_vars_lt(all@[k].1.pairs@, self.num_vars as int),
            decreases self.terms@.len() - i,
        {
            let t = &self.terms[i];
            let c = t.0;
            let m = mono_clone(&t.1);
            all.push((c, m));
            i = i + 1;
        }
        let ghost n1 = self.terms@.len();
        let mut j: usize = 0;
        while j < other.terms.len()
            invariant
                j <= other.terms@.len(),
                all@.len() == n1 + j,
                forall|k: int|
                    0 <= k < n1 ==> (#[trigger] all@[k]).0 == self.terms@[k].0
                        && all@[k].1.pairs@ == self.terms@[k].1.pairs@ && all@[k].1.wf()
                        && term_vars_lt(all@[k].1.pairs@, self.num_vars as int),
                forall|k: int|
                    0 <= k < j ==> (#[trigger] all@[n1 + k]).0 == other.terms@[k].0
                        && all@[n1 + k].1.pairs@ == other.terms@[k].1.pairs@ && all@[n1 + k].1.wf()
                        && term_vars_lt(all@[n1 + k].1.pairs@, self.num_vars as int),
            decreases other.terms@.len() - j,
        {
            let t = &other.terms[j];
            let c = t.0;
            let m = mono_clone(&t.1);
            all.push((c, m));
            j = j + 1;
        }
        proof {
            let lhs = terms_model(all@);
            let rhs = self.model() + other.model();
            assert forall|k: int| 0 <= k < lhs.len() implies lhs[k] == rhs[k] by {
                if k < n1 {
                    assert(all@[k].0 == self.terms@[k].0);
                    assert(rhs[k] == self.model()[k]);
                } else {
                    let k2 = k - n1;
                    assert(all@[n1 + k2].0 == other.terms@[k2].0);
                    assert(all@[n1 + k2].1.pairs@ == other.terms@[k2].1.pairs@);
                    assert(rhs[k] == other.model()[k2]);
                }
            }
            assert(lhs =~= rhs);
            assert forall|k: int|
                0 <= k < all@.len() implies (#[trigger] all@[k]).0.wf() && all@[k].1.wf()
                && term_vars_lt(all@[k].1.pairs@, self.num_vars as int) by {
                if k < n1 {
                    assert(self.terms@[k].0.wf());
                    assert(all@[k].0 == self.terms@[k].0);
                } else {
                    let k2 = k - n1;
                    assert(other.terms@[k2].0.wf());
                    assert(all@[n1 + k2].0 == other.terms@[k2].0);
                    assert(all@[n1 + k2].1.wf());
                    assert(term_vars_lt(all@[n1 + k2].1.pairs@, self.num_vars as int));
                }
            }
        }
        let r = Polynomial::new(self.num_vars, all);
        proof {
            assert forall|pt: Seq<int>|
                #[trigger] poly_eval(r.model(), pt) == (poly_eval(self.model(), pt) + poly_eval(
                    other.model(),
                    pt,
                )) % prime() by {
                lemma_concat_eval(self.model(), other.model(), pt);
            }
        }
        r
    }
}

/// Polynomial-level selected evaluation: substituting a partial assignment
/// and rebuilding the polynomial over the same declared variables.
pub trait MultivariateEvaluation where Self: core::marker::Sized {
    /// The receiver's term list content.
    spec fn poly_model(&self) -> Seq<(int, Seq<(usize, u64)>)>;

    /// The receiver's declared variable count.
    spec fn poly_num_vars(&self) -> int;

    /// The receiver's structural invariant.
    spec fn poly_wf(&self) -> bool;

    /// Collapses every term under the partial assignment `points` (no
    /// longer than the declared variable count) and rebuilds the
    /// polynomial: duplicate residual monomials are combined by
    /// coefficient summation, vanished terms are dropped. The zero
    /// polynomial maps to itself unchanged.
    fn selected_evaluation(&self, points: &Vec<Option<Scalar>>) -> (r: Self)
        requires
            self.poly_wf(),
            points@.len() <= self.poly_num_vars(),
            points_wf(points@),
        ensures
            r.poly_wf(),
            r.poly_num_vars() == self.poly_num_vars(),
            r.poly_model() == combine(sel_poly_terms(self.poly_model(), opt_vals(points@))),
    ;
}

impl MultivariateEvaluation for Polynomial {
    open spec fn poly_model(&self) -> Seq<(int, Seq<(usize, u64)>)> {
        self.model()
    }

    open spec fn poly_num_vars(&self) -> int {
        self.num_vars as int
    }

    open spec fn poly_wf(&self) -> bool {
        self.wf()
    }

    #[verifier::loop_isolation(false)]
    fn selected_evaluation(&self, points: &Vec<Option<Scalar>>) -> (r: Polynomial) {
        let ghost pts = opt_vals(points@);
        let ghost spt = sel_poly_terms(self.model(), pts);
        let mut mapped: Vec<(Scalar, Monomial)> = Vec::new();
        let mut i: usize = 0;
        while i < self.terms.len()
            invariant
                i <= self.terms@.len(),
                terms_model(mapped@) == spt.subrange(0, i as int),
                forall|k: int|
                    0 <= k < mapped@.len() ==> (#[trigger] mapped@[k]).0.wf() && mapped@[k].1.wf()
                        && term_vars_lt(mapped@[k].1.pairs@, self.num_vars as int),
            decreases self.terms@.len() - i,
        {
            let t = &self.terms[i];
            let se = t.1.selected_evaluation(points);
            let s = se.0;
            let rm = se.1;
            let c = fe_mul(&t.0, &s);
            proof {
                assert(self.model()[i as int] == (t.0.val(), t.1.pairs@));
                lemma_sel_residual_vars(t.1.pairs@, pts, t.1.pairs@.len(), self.num_vars as int);
                if annihilated(t.1.pairs@, pts) {
                    assert(prime() > 0);
                    assert(c.val() == 0) by {
                        vstd::arithmetic::div_mod::lemma_small_mod(0nat, prime() as nat);
                    }
                }
            }
            mapped.push((c, rm));
            i = i + 1;
            proof {
                assert(terms_model(mapped@) =~= spt.subrange(0, i as int));
            }
        }
        proof {
            assert(spt.subrange(0, spt.len() as int) =~= spt);
        }
        Polynomial::new(self.num_vars, mapped)
    }
}

/// The unreduced integer sum of the first `n` terms' contributions at a
/// full point.
pub open spec fn poly_sum(ts: Seq<(int, Seq<(usize, u64)>)>, pt: Seq<int>, n: nat) -> int
    decreases n,
{
    if n == 0 {
        0
    } else {
        poly_sum(ts, pt, (n - 1) as nat) + ts[n - 1].0 * mono_eval(ts[n - 1].1, pt)
    }
}

/// The step-wise reduced evaluation equals the unreduced sum, reduced once.
proof fn lemma_eval_is_sum_mod(ts: Seq<(int, Seq<(usize, u64)>)>, pt: Seq<int>, n: nat)
    ensures
        poly_eval_upto(ts, pt, n) == poly_sum(ts, pt, n) % prime(),
    decreases n,
{
    if n == 0 {
        lemma_small_mod(0nat, prime() as nat);
    } else {
        lemma_eval_is_sum_mod(ts, pt, (n - 1) as nat);
        let a = poly_sum(ts, pt, (n - 1) as nat);
        let b = ts[n - 1].0 * mono_eval(ts[n - 1].1, pt);
        lemma_add_mod_noop(a, b, prime());
    }
}

/// Sequences that agree on their first `n` entries have the same sum there.
proof fn lemma_sum_prefix(
    ts1: Seq<(int, Seq<(usize, u64)>)>,
    ts2: Seq<(int, Seq<(usize, u64)>)>,
    pt: Seq<int>,
    n: nat,
)
    requires
        forall|i: int| 0 <= i < n ==> ts1[i] == ts2[i],
    ensures
        poly_sum(ts1, pt, n) == poly_sum(ts2, pt, n),
    decreases n,
{
    if n > 0 {
        lemma_sum_prefix(ts1, ts2, pt, (n - 1) as nat);
        assert(ts1[n - 1] == ts2[n - 1]);
    }
}

/// Changing one coefficient changes the sum by the difference times the
/// monomial's value.
proof fn lemma_sum_update(
    ts: Seq<(int, Seq<(usize, u64)>)>,
    pt: Seq<int>,
    j: int,
    c2: int,
    n: nat,
)
    requires
        0 <= j < n,
        n <= ts.len(),
    ensures
        poly_sum(ts.update(j, (c2, ts[j].1)), pt, n) == poly_sum(ts, pt, n)
            - ts[j].0 * mono_eval(ts[j].1, pt) + c2 * mono_eval(ts[j].1, pt),
    decreases n,
{
    let ts2 = ts.update(j, (c2, ts[j].1));
    if j == n - 1 {
        lemma_sum_prefix(ts2, ts, pt, (n - 1) as nat);
        assert(ts2[n - 1] == (c2, ts[j].1));
    } else {
        lemma_sum_update(ts, pt, j, c2, (n - 1) as nat);
        assert(ts2[n - 1] == ts[n - 1]);
    }
}

/// The sum over a concatenation splits into the two sums.
proof fn lemma_sum_concat(
    a: Seq<(int, Seq<(usize, u64)>)>,
    b: Seq<(int, Seq<(usize, u64)>)>,
    pt: Seq<int>,
    k: nat,
)
    requires
        k <= b.len(),
    ensures
        poly_sum(a + b, pt, (a.len() + k) as nat) == poly_sum(a, pt, a.len()) + poly_sum(
            b,
            pt,
            k,
        ),
    decreases k,
{
    if k == 0 {
        lemma_sum_prefix(a + b, a, pt, a.len());
    } else {
        lemma_sum_concat(a, b, pt, (k - 1) as nat);
        assert((a + b)[a.len() + k - 1] == b[k - 1]);
    }
}

/// Merging like terms preserves the sum modulo the prime.
proof fn lemma_merge_sum(ts: Seq<(int, Seq<(usize, u64)>)>, pt: Seq<int>, n: nat)
    requires
        n <= ts.len(),
    ensures
        poly_sum(merge_upto(ts, n), pt, merge_upto(ts, n).len()) % prime() == poly_sum(ts, pt, n)
            % prime(),
    decreases n,
{
    if n > 0 {
        lemma_merge_sum(ts, pt, (n - 1) as nat);
        let prev = merge_upto(ts, (n - 1) as nat);
        let t = ts[n - 1];
        let f = find_mono(prev, t.1);
        lemma_find_mono(prev, t.1);
        let me = mono_eval(t.1, pt);
        let sp = poly_sum(prev, pt, prev.len());
        let so = poly_sum(ts, pt, (n - 1) as nat);
        if f >= 0 {
            let cold = prev[f].0;
            let c2 = (cold + t.0) % prime();
            assert(prev[f].1 == t.1);
            let cur = merge_upto(ts, n);
            assert(cur == prev.update(f, (c2, prev[f].1)));
            lemma_sum_update(prev, pt, f, c2, prev.len());
            let sc = poly_sum(cur, pt, cur.len());
            assert(sc == sp - cold * me + c2 * me);
            let body = sp - cold * me;
            lemma_add_mod_noop_right(body, c2 * me, prime());
            lemma_mul_mod_noop_left(cold + t.0, me, prime());
            assert((c2 * me) % prime() == ((cold + t.0) * me) % prime());
            lemma_add_mod_noop_right(body, (cold + t.0) * me, prime());
            assert((cold + t.0) * me == cold * me + t.0 * me) by (nonlinear_arith);
            assert(sc % prime() == (sp + t.0 * me) % prime());
            lemma_add_mod_noop(sp, t.0 * me, prime());
            lemma_add_mod_noop(so, t.0 * me, prime());
        } else {
            let cur = merge_upto(ts, n);
            assert(cur == prev.push(t));
            lemma_sum_prefix(cur, prev, pt, prev.len());
            assert(cur[cur.len() - 1] == t);
            assert(poly_sum(cur, pt, cur.len()) == sp + t.0 * me);
            lemma_add_mod_noop(sp, t.0 * me, prime());
            lemma_add_mod_noop(so, t.0 * me, prime());
        }
    }
}

/// Dropping zero-coefficient terms preserves the sum.
proof fn lemma_dropz_sum(ts: Seq<(int, Seq<(usize, u64)>)>, pt: Seq<int>)
    ensures
        poly_sum(drop_zero_terms(ts), pt, drop_zero_terms(ts).len()) == poly_sum(
            ts,
            pt,
            ts.len(),
        ),
    decreases ts.len(),
{
    if ts.len() > 0 {
        let bl = ts.drop_last();
        lemma_dropz_sum(bl, pt);
        lemma_sum_prefix(ts, bl, pt, bl.len());
        if ts.last().0 != 0 {
            let dz = drop_zero_terms(ts);
            lemma_sum_prefix(dz, drop_zero_terms(bl), pt, drop_zero_terms(bl).len());
            assert(dz[dz.len() - 1] == ts.last());
        }
    }
}

/// Canonicalising a term list — combining duplicate monomials by
/// coefficient summation and dropping zero coefficients — preserves its
/// value at every point.
pub proof fn lemma_combine_eval(ts: Seq<(int, Seq<(usize, u64)>)>, pt: Seq<int>)
    ensures
        poly_eval(combine(ts), pt) == poly_eval(ts, pt),
{
    lemma_eval_is_sum_mod(combine(ts), pt, combine(ts).len());
    lemma_eval_is_sum_mod(ts, pt, ts.len());
    lemma_dropz_sum(merge_upto(ts, ts.len()), pt);
    lemma_merge_sum(ts, pt, ts.len());
}

/// Concatenating term lists adds their values at every point.
pub proof fn lemma_concat_eval(
    a: Seq<(int, Seq<(usize, u64)>)>,
    b: Seq<(int, Seq<(usize, u64)>)>,
    pt: Seq<int>,
)
    ensures
        poly_eval(a + b, pt) == (poly_eval(a, pt) + poly_eval(b, pt)) % prime(),
{
    lemma_eval_is_sum_mod(a + b, pt, (a + b).len());
    lemma_eval_is_sum_mod(a, pt, a.len());
    lemma_eval_is_sum_mod(b, pt, b.len());
    lemma_sum_concat(a, b, pt, b.len());
    lemma_add_mod_noop(poly_sum(a, pt, a.len()), poly_sum(b, pt, b.len()), prime());
}

} // verus!
