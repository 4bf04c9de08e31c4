//! The sum-check protocol engine: prover, verifier and proof object.
//!
//! The prover reduces a claimed hypercube sum of a multivariate polynomial
//! to one reduced univariate-in-one-variable polynomial per round,
//! processing variables from the highest index down to variable 0. The
//! verifier replays the rounds, holding every reduced polynomial to the
//! running target, and never panics on an adversarial proof.
//!
//! The challenge derivation and the polynomial commitment are collaborator
//! seams: the commitment here is an identity wrapper with no binding or
//! succinctness, and the challenge is a fixed placeholder value, explicitly
//! not a sound Fiat-Shamir transcript. Both are kept behind small functions
//! so real implementations can be substituted.

use crate::hypercube::{
    all_maxed, cube_index, cube_size, digits_wf, lemma_index_bound, lemma_maxed_index,
    lemma_step_index, lemma_zero_digits_index, nth_point, step_digits, zero_digits, HyperCube,
};
use crate::poly::{
    combine, opt_vals, points_wf, poly_eval, sel_poly_terms, terms_model, Monomial,
    MultivariateEvaluation, Polynomial,
};
use crate::scalar::{fe_add, lemma_val_injective, prime, vals, Scalar};
use vstd::prelude::*;

verus! {

/// The fatal failures of a prover run.
#[derive(Debug)]
pub enum SumCheckError {
    /// A reduced polynomial failed the prover's own round self-check:
    /// an internal reduction bug, not an input error.
    RoundConsistency,
}

/// The placeholder challenge: a fixed constant, standing in for a
/// Fiat-Shamir transcript. Identical on the prover and verifier sides.
pub open spec fn challenge_value() -> int {
    7
}

/// Derives the next round challenge. Placeholder for the transcript
/// collaborator: a hardened build absorbs the round's reduced polynomial
/// and derives the challenge from the transcript state instead.
pub fn derive_challenge() -> (r: Scalar)
    ensures
        r.val() == challenge_value(),
        r.wf(),
{
    Scalar::from_u64(7)
}

/// The partial assignment of one summand: the prefix point fixed, one
/// variable free, the challenges fixed after it.
pub open spec fn sel_input(prefix: Seq<int>, ch: Seq<int>) -> Seq<Option<int>> {
    prefix.map_values(|x: int| Some(x)) + seq![None::<int>] + ch.map_values(|x: int| Some(x))
}

/// The full point that fixes variables 0..v to zero, the free slot to `x`,
/// and the variables above it to the challenges.
pub open spec fn ext_input(v: nat, x: int, ch: Seq<int>) -> Seq<int> {
    zero_digits(v) + seq![x] + ch
}

/// The full point that fixes variables 0..v to zero and the rest to the
/// challenges.
pub open spec fn tgt_input(v: nat, ch: Seq<int>) -> Seq<int> {
    zero_digits(v) + ch
}

/// The round's algebraic consistency: the reduced polynomial, evaluated at
/// the zero-extended and one-extended points, sums to the round's target.
pub open spec fn round_ok(g: Seq<(int, Seq<(usize, u64)>)>, v: nat, ch: Seq<int>, target: int) -> bool {
    (poly_eval(g, ext_input(v, 0, ch)) + poly_eval(g, ext_input(v, 1, ch))) % prime() == target
}

/// The reduced polynomial accumulated from the first `n` prefix points of
/// the boolean hypercube {0,1}^v.
pub open spec fn round_g_upto(
    pm: Seq<(int, Seq<(usize, u64)>)>,
    v: nat,
    ch: Seq<int>,
    n: nat,
) -> Seq<(int, Seq<(usize, u64)>)>
    decreases n,
{
    if n == 0 {
        Seq::empty()
    } else {
        combine(
            round_g_upto(pm, v, ch, (n - 1) as nat) + combine(
                sel_poly_terms(pm, sel_input(nth_point(v, 1, (n - 1) as nat), ch)),
            ),
        )
    }
}

/// The round polynomial for variable `v`: the sum over the boolean
/// hypercube of the prefix variables of the polynomial with the prefix
/// fixed, variable `v` free, and the challenges fixed above it. For v = 0
/// there is no summation: a single selected evaluation.
pub open spec fn round_g(
    pm: Seq<(int, Seq<(usize, u64)>)>,
    v: nat,
    ch: Seq<int>,
) -> Seq<(int, Seq<(usize, u64)>)> {
    if v == 0 {
        combine(sel_poly_terms(pm, sel_input(Seq::empty(), ch)))
    } else {
        round_g_upto(pm, v, ch, cube_size(1, v) as nat)
    }
}

/// A stand-in polynomial commitment: the polynomial itself, with no
/// binding or succinctness guarantee. A collaborator seam for a real
/// commitment scheme.
#[derive(Debug)]
pub struct PolynomialCommitment(pub Polynomial);

/// An owned copy of a polynomial with the same content.
fn poly_clone(p: &Polynomial) -> (r: Polynomial)
    ensures
        r.num_vars == p.num_vars,
        r.model() == p.model(),
        r.terms@.len() == p.terms@.len(),
        forall|i: int|
            0 <= i < p.terms@.len() ==> (#[trigger] r.terms@[i]).0 == p.terms@[i].0
                && r.terms@[i].1.pairs@ == p.terms@[i].1.pairs@,
{
    let mut terms: Vec<(Scalar, Monomial)> = Vec::new();
    let mut i: usize = 0;
    while i < p.terms.len()
        invariant
            i <= p.terms@.len(),
            terms@.len() == i,
            forall|k: int|
                0 <= k < i ==> (#[trigger] terms@[k]).0 == p.terms@[k].0 && terms@[k].1.pairs@
                    == p.terms@[k].1.pairs@,
        decreases p.terms@.len() - i,
    {
        let t = &p.terms[i];
        let c = t.0;
        let mut pairs: Vec<(usize, u64)> = Vec::new();
        let mut k: usize = 0;
        while k < t.1.pairs.len()
            invariant
                k <= t.1.pairs@.len(),
                pairs@ =~= t.1.pairs@.subrange(0, k as int),
            decreases t.1.pairs@.len() - k,
        {
            pairs.push(t.1.pairs[k]);
            k = k + 1;
            proof {
                assert(pairs@ =~= t.1.pairs@.subrange(0, k as int));
            }
        }
        proof {
            assert(pairs@ =~= t.1.pairs@);
        }
        terms.push((c, Monomial { pairs }));
        i = i + 1;
    }
    proof {
        assert(terms_model(terms@) =~= terms_model(p.terms@));
    }
    Polynomial { num_vars: p.num_vars, terms }
}

impl PolynomialCommitment {
    /// Commits to a polynomial. The placeholder commitment is a copy of
    /// the polynomial itself.
    pub fn commit(poly: &Polynomial) -> (r: Self)
        ensures
            r.0.num_vars == poly.num_vars,
            r.0.model() == poly.model(),
            poly.wf() ==> r.0.wf(),
    {
        let cloned = poly_clone(poly);
        proof {
            if poly.wf() {
                assert forall|i: int| 0 <= i < cloned.terms@.len() implies (#[trigger] cloned
                    .terms@[i]).0.wf() && cloned.terms@[i].1.wf() && crate::poly::term_vars_lt(
                    cloned.terms@[i].1.pairs@,
                    cloned.num_vars as int,
                ) by {
                    assert(p_wf_at(poly, i));
                }
            }
        }
        PolynomialCommitment(cloned)
    }

    /// Opens the commitment at a point: evaluates the committed
    /// polynomial there.
    pub fn evaluate(&self, point: &Vec<Scalar>) -> (r: Scalar)
        requires
            self.0.wf(),
            point@.len() == self.0.num_vars,
            forall|i: int| 0 <= i < point@.len() ==> (#[trigger] point@[i]).wf(),
        ensures
            r.wf(),
            r.val() == poly_eval(self.0.model(), vals(point@)),
    {
        self.0.evaluate(point)
    }
}

/// The well-formedness of one stored term, spelled out for triggering.
pub open spec fn p_wf_at(p: &Polynomial, i: int) -> bool {
    p.terms@[i].0.wf() && p.terms@[i].1.wf() && crate::poly::term_vars_lt(
        p.terms@[i].1.pairs@,
        p.num_vars as int,
    )
}

/// Builds the partial assignment that fixes the prefix point, leaves one
/// variable free, and fixes the challenges after it.
#[verifier::loop_isolation(false)]
fn build_sel_input(prefix: &Vec<Scalar>, challenges: &Vec<Scalar>) -> (r: Vec<Option<Scalar>>)
    requires
        forall|i: int| 0 <= i < prefix@.len() ==> (#[trigger] prefix@[i]).wf(),
        forall|i: int| 0 <= i < challenges@.len() ==> (#[trigger] challenges@[i]).wf(),
    ensures
        r@.len() == prefix@.len() + 1 + challenges@.len(),
        opt_vals(r@) == sel_input(vals(prefix@), vals(challenges@)),
        points_wf(r@),
{
    let mut out: Vec<Option<Scalar>> = Vec::new();
    let mut i: usize = 0;
    while i < prefix.len()
        invariant
            i <= prefix@.len(),
            out@.len() == i,
            forall|k: int| 0 <= k < i ==> out@[k] == Some(prefix@[k]),
        decreases prefix@.len() - i,
    {
        out.push(Some(prefix[i]));
        i = i + 1;
    }
    out.push(None);
    let mut j: usize = 0;
    while j < challenges.len()
        invariant
            j <= challenges@.len(),
            out@.len() == prefix@.len() + 1 + j,
            forall|k: int| 0 <= k < prefix@.len() ==> out@[k] == Some(prefix@[k]),
            out@[prefix@.len() as int] is None,
            forall|k: int|
                0 <= k < j ==> out@[prefix@.len() + 1 + k] == Some(challenges@[k]),
        decreases challenges@.len() - j,
    {
        out.push(Some(challenges[j]));
        j = j + 1;
    }
    proof {
        let l = opt_vals(out@);
        let rr = sel_input(vals(prefix@), vals(challenges@));
        let np = prefix@.len() as int;
        assert forall|k: int| 0 <= k < l.len() implies l[k] == rr[k] by {
            if k < np {
                assert(out@[k] == Some(prefix@[k]));
            } else if k == np {
                assert(out@[k] is None);
            } else {
                let k2 = k - np - 1;
                assert(out@[np + 1 + k2] == Some(challenges@[k2]));
            }
        }
        assert(l =~= rr);
        assert forall|i2: int|
            0 <= i2 < out@.len() && out@[i2] is Some implies (#[trigger] out@[i2])->Some_0.wf() by {
            if i2 < np {
                assert(out@[i2] == Some(prefix@[i2]));
            } else if i2 > np {
                let k2 = i2 - np - 1;
                assert(out@[np + 1 + k2] == Some(challenges@[k2]));
            }
        }
    }
    out
}

/// Builds the full point with `v` zeros, then `x`, then the challenges.
#[verifier::loop_isolation(false)]
fn build_ext_input(v: usize, x: &Scalar, challenges: &Vec<Scalar>) -> (r: Vec<Scalar>)
    requires
        x.wf(),
        forall|i: int| 0 <= i < challenges@.len() ==> (#[trigger] challenges@[i]).wf(),
    ensures
        r@.len() == v + 1 + challenges@.len(),
        vals(r@) == ext_input(v as nat, x.val(), vals(challenges@)),
        forall|i: int| 0 <= i < r@.len() ==> (#[trigger] r@[i]).wf(),
{
    let mut out: Vec<Scalar> = Vec::new();
    let mut i: usize = 0;
    while i < v
        invariant
            i <= v,
            out@.len() == i,
            forall|k: int| 0 <= k < i ==> (#[trigger] out@[k]).val() == 0 && out@[k].wf(),
        decreases v - i,
    {
        out.push(Scalar::zero());
        i = i + 1;
    }
    out.push(*x);
    let mut j: usize = 0;
    while j < challenges.len()
        invariant
            j <= challenges@.len(),
            out@.len() == v + 1 + j,
            forall|k: int| 0 <= k < v ==> (#[trigger] out@[k]).val() == 0 && out@[k].wf(),
            out@[v as int] == *x,
            forall|k: int| 0 <= k < j ==> out@[v + 1 + k] == challenges@[k],
        decreases challenges@.len() - j,
    {
        out.push(challenges[j]);
        j = j + 1;
    }
    proof {
        let l = vals(out@);
        let rr = ext_input(v as nat, x.val(), vals(challenges@));
        assert forall|k: int| 0 <= k < l.len() implies l[k] == rr[k] by {
            if k < v {
            } else if k == v {
            } else {
                let k2 = k - v - 1;
                assert(out@[v + 1 + k2] == challenges@[k2]);
            }
        }
        assert(l =~= rr);
        assert forall|i2: int| 0 <= i2 < out@.len() implies (#[trigger] out@[i2]).wf() by {
            if i2 > v {
                let k2 = i2 - v - 1;
                assert(out@[v + 1 + k2] == challenges@[k2]);
            }
        }
    }
    out
}

/// Builds the full point with `v` zeros followed by the challenges.
#[verifier::loop_isolation(false)]
fn build_tgt_input(v: usize, challenges: &Vec<Scalar>) -> (r: Vec<Scalar>)
    requires
        forall|i: int| 0 <= i < challenges@.len() ==> (#[trigger] challenges@[i]).wf(),
    ensures
        r@.len() == v + challenges@.len(),
        vals(r@) == tgt_input(v as nat, vals(challenges@)),
        forall|i: int| 0 <= i < r@.len() ==> (#[trigger] r@[i]).wf(),
{
    let mut out: Vec<Scalar> = Vec::new();
    let mut i: usize = 0;
    while i < v
        invariant
            i <= v,
            out@.len() == i,
            forall|k: int| 0 <= k < i ==> (#[trigger] out@[k]).val() == 0 && out@[k].wf(),
        decreases v - i,
    {
        out.push(Scalar::zero());
        i = i + 1;
    }
    let mut j: usize = 0;
    while j < challenges.len()
        invariant
            j <= challenges@.len(),
            out@.len() == v + j,
            forall|k: int| 0 <= k < v ==> (#[trigger] out@[k]).val() == 0 && out@[k].wf(),
            forall|k: int| 0 <= k < j ==> out@[v + k] == challenges@[k],
        decreases challenges@.len() - j,
    {
        out.push(challenges[j]);
        j = j + 1;
    }
    proof {
        let l = vals(out@);
        let rr = tgt_input(v as nat, vals(challenges@));
        assert forall|k: int| 0 <= k < l.len() implies l[k] == rr[k] by {
            if k >= v {
                let k2 = k - v;
                assert(out@[v + k2] == challenges@[k2]);
            }
        }
        assert(l =~= rr);
        assert forall|i2: int| 0 <= i2 < out@.len() implies (#[trigger] out@[i2]).wf() by {
            if i2 >= v {
                let k2 = i2 - v;
                assert(out@[v + k2] == challenges@[k2]);
            }
        }
    }
    out
}

/// The prover's message transcript: the committed original polynomial and
/// one committed reduced polynomial per round, from the highest-indexed
/// variable down to variable 0.
#[derive(Debug)]
pub struct SumCheckProof {
    /// Commitment to the original polynomial.
    pub poly: PolynomialCommitment,
    /// Commitments to the round polynomials, in production order.
    pub reduced_polys: Vec<PolynomialCommitment>,
}

impl SumCheckProof {
    /// The number of round polynomials.
    pub fn len(&self) -> (r: usize)
        ensures
            r == self.reduced_polys@.len(),
    {
        self.reduced_polys.len()
    }

    /// Whether the proof carries no round polynomials.
    pub fn is_empty(&self) -> (r: bool)
        ensures
            r == (self.reduced_polys@.len() == 0),
    {
        self.reduced_polys.is_empty()
    }
}

/// The models of a list of polynomials.
pub open spec fn polys_models(ps: Seq<Polynomial>) -> Seq<Seq<(int, Seq<(usize, u64)>)>> {
    ps.map_values(|p: Polynomial| p.model())
}

/// The sum of the polynomial over the first `n` points of the boolean
/// hypercube {0,1}^k, reduced at every step.
pub open spec fn cube_sum_upto(pm: Seq<(int, Seq<(usize, u64)>)>, k: nat, n: nat) -> int
    decreases n,
{
    if n == 0 {
        0
    } else {
        (cube_sum_upto(pm, k, (n - 1) as nat) + poly_eval(pm, nth_point(k, 1, (n - 1) as nat)))
            % prime()
    }
}

/// The claimed sum: the polynomial summed over the whole boolean
/// hypercube {0,1}^k.
pub open spec fn cube_sum(pm: Seq<(int, Seq<(usize, u64)>)>, k: nat) -> int {
    cube_sum_upto(pm, k, cube_size(1, k) as nat)
}

/// The prover's rounds from variable `v` down to 0: each round must pass
/// its self-check against the running target; after each round but the
/// last, the fixed challenge is prepended and the target becomes the round
/// polynomial's value at the challenge-extended point. `None` marks a
/// failed self-check.
pub open spec fn run_rounds(
    pm: Seq<(int, Seq<(usize, u64)>)>,
    v: nat,
    target: int,
    ch: Seq<int>,
) -> Option<Seq<Seq<(int, Seq<(usize, u64)>)>>>
    decreases v,
{
    let g = round_g(pm, v, ch);
    if !round_ok(g, v, ch, target) {
        None
    } else if v == 0 {
        Some(seq![g])
    } else {
        let ch2 = seq![challenge_value()] + ch;
        let t2 = poly_eval(g, tgt_input(v, ch2));
        match run_rounds(pm, (v - 1) as nat, t2, ch2) {
            None => None,
            Some(rest) => Some(seq![g] + rest),
        }
    }
}

/// The models of the round polynomials of a full prover run, starting
/// from the claimed hypercube sum; `None` marks an internal
/// round-consistency failure.
pub open spec fn protocol_rounds(pm: Seq<(int, Seq<(usize, u64)>)>, nv: nat) -> Option<
    Seq<Seq<(int, Seq<(usize, u64)>)>>,
> {
    if nv == 0 {
        Some(Seq::empty())
    } else {
        run_rounds(pm, (nv - 1) as nat, cube_sum(pm, nv), Seq::empty())
    }
}

/// Everything a successful prover run promises of its output: the sum is
/// the hypercube sum, the committed original polynomial is the input, and
/// the committed round polynomials are exactly the rounds' models.
pub open spec fn prover_post(
    pm: Seq<(int, Seq<(usize, u64)>)>,
    nv: nat,
    s: Scalar,
    proof: SumCheckProof,
) -> bool {
    &&& s.wf()
    &&& s.val() == cube_sum(pm, nv)
    &&& protocol_rounds(pm, nv) is Some
    &&& proof.reduced_polys@.len() == nv
    &&& proof.poly.0.model() == pm
    &&& proof.poly.0.num_vars == nv
    &&& proof.poly.0.wf()
    &&& forall|i: int|
        0 <= i < nv ==> (#[trigger] proof.reduced_polys@[i]).0.model() == protocol_rounds(
            pm,
            nv,
        )->Some_0[i] && proof.reduced_polys@[i].0.num_vars == nv && proof.reduced_polys@[i].0.wf()
}

/// The stateless protocol configuration.
pub struct SumCheckParams {}

impl Default for SumCheckParams {
    fn default() -> (r: SumCheckParams)
        ensures
            r == (SumCheckParams {  }),
    {
        SumCheckParams {  }
    }
}

impl SumCheckParams {
    /// One prover round for variable `num`: computes the reduced
    /// polynomial g obtained by summing the polynomial, with variables
    /// above `num` bound to the challenges and variable `num` free, over
    /// the boolean hypercube of the variables below `num`, and holds it to
    /// the round target: g at the zero-extended point plus g at the
    /// one-extended point must equal `target`. The challenges are passed
    /// in increasing variable order: `challenges[k]` binds variable
    /// `num + 1 + k`.
    pub fn round(
        &self,
        target: Scalar,
        poly: &Polynomial,
        num: usize,
        challenges: &Vec<Scalar>,
    ) -> (r: Result<Polynomial, SumCheckError>)
        requires
            poly.wf(),
            target.wf(),
            forall|i: int| 0 <= i < challenges@.len() ==> (#[trigger] challenges@[i]).wf(),
            num < poly.num_vars,
            num + 1 + challenges@.len() == poly.num_vars,
        ensures
            ({
                let g = round_g(poly.model(), num as nat, vals(challenges@));
                &&& (r is Ok <==> round_ok(g, num as nat, vals(challenges@), target.val()))
                &&& r is Ok ==> r->Ok_0.wf() && r->Ok_0.num_vars == poly.num_vars
                    && r->Ok_0.model() == g
            }),
    {
        let ghost pm = poly.model();
        let ghost chv = vals(challenges@);

        let new_poly: Polynomial;
        if num == 0 {
            let empty_prefix: Vec<Scalar> = Vec::new();
            let pts = build_sel_input(&empty_prefix, challenges);
            new_poly = poly.selected_evaluation(&pts);
            proof {
                assert(vals(empty_prefix@) =~= Seq::<int>::empty());
            }
        } else {
            let mut cube = HyperCube::new(num, Scalar::one());
            let mut acc = Polynomial::new(poly.num_vars, Vec::new());
            let ghost total = cube_size(1, num as nat);
            let ghost mut pos: nat = 0;
            proof {
                lemma_zero_digits_index(num as nat, 1);
                lemma_index_bound(zero_digits(num as nat), 1);
            }
            loop
                invariant_except_break
                    poly.wf(),
                    pm == poly.model(),
                    chv == vals(challenges@),
                    forall|i2: int| 0 <= i2 < challenges@.len() ==> (#[trigger] challenges@[i2]).wf(),
                    0 < num < poly.num_vars,
                    num + 1 + challenges@.len() == poly.num_vars,
                    total == cube_size(1, num as nat),
                    total >= 1,
                    cube.wf(),
                    cube.max_value.val() == 1,
                    !cube.ended ==> cube.current@.len() == num && vals(cube.current@) == nth_point(
                        num as nat,
                        1,
                        pos,
                    ) && cube_index(vals(cube.current@), 1) == pos,
                    cube.ended ==> pos == total,
                    pos <= total,
                    acc.wf(),
                    acc.num_vars == poly.num_vars,
                    acc.model() == round_g_upto(pm, num as nat, chv, pos),
                ensures
                    pos == total,
                    acc.wf(),
                    acc.num_vars == poly.num_vars,
                    acc.model() == round_g_upto(pm, num as nat, chv, pos),
                decreases total - pos,
            {
                let point = match cube.next() {
                    None => { break },
                    Some(p) => p,
                };
                let ghost od = vals(point@);
                proof {
                    assert forall|k: int| 0 <= k < od.len() implies 0 <= #[trigger] od[k] <= 1 by {
                        crate::scalar::lemma_val_nonneg(point@[k]);
                    }
                    assert(digits_wf(od, 1));
                }
                let pts = build_sel_input(&point, challenges);
                let sel = poly.selected_evaluation(&pts);
                acc = acc.add(&sel);
                proof {
                    assert(acc.model() == round_g_upto(pm, num as nat, chv, (pos + 1) as nat));
                    if all_maxed(od, 1) {
                        lemma_maxed_index(od, 1);
                        assert(pos == total - 1);
                    } else {
                        lemma_step_index(od, 1);
                        lemma_index_bound(step_digits(od, 1), 1);
                        assert(nth_point(num as nat, 1, (pos + 1) as nat) == step_digits(
                            nth_point(num as nat, 1, pos),
                            1,
                        ));
                    }
                    pos = pos + 1;
                }
            }
            new_poly = acc;
            proof {
                assert(new_poly.model() == round_g(pm, num as nat, chv));
            }
        }

        let zero = Scalar::zero();
        let one = Scalar::one();
        let zero_input = build_ext_input(num, &zero, challenges);
        let one_input = build_ext_input(num, &one, challenges);
        let e0 = new_poly.evaluate(&zero_input);
        let e1 = new_poly.evaluate(&one_input);
        let res = fe_add(&e0, &e1);
        proof {
            if target.val() == res.val() {
                lemma_val_injective(target, res);
            }
        }
        if target == res {
            Ok(new_poly)
        } else {
            Err(SumCheckError::RoundConsistency)
        }
    }

    /// Runs the whole prover: computes the claimed sum of the polynomial
    /// over the boolean hypercube, produces one self-checked reduced
    /// polynomial per variable (highest index first), derives a challenge
    /// after every round but the last, and commits to the original and the
    /// round polynomials. A failed round self-check is an internal bug and
    /// is reported as a fatal error, never a panic.
    pub fn run_protocol(&self, _prologue: (), poly: &Polynomial) -> (r: Result<
        (Scalar, SumCheckProof),
        SumCheckError,
    >)
        requires
            poly.wf(),
        ensures
            r is Ok <==> protocol_rounds(poly.model(), poly.num_vars as nat) is Some,
            r is Ok ==> prover_post(poly.model(), poly.num_vars as nat, r->Ok_0.0, r->Ok_0.1),
    {
        let ghost pm = poly.model();
        let ghost nv = poly.num_vars as nat;

        let mut cube = HyperCube::new(poly.num_vars, Scalar::one());
        let mut sum = Scalar::zero();
        let ghost total = cube_size(1, nv);
        let ghost mut pos: nat = 0;
        proof {
            lemma_zero_digits_index(nv, 1);
            lemma_index_bound(zero_digits(nv), 1);
        }
        loop
            invariant_except_break
                poly.wf(),
                pm == poly.model(),
                nv == poly.num_vars as nat,
                total == cube_size(1, nv),
                total >= 1,
                cube.wf(),
                cube.max_value.val() == 1,
                !cube.ended ==> cube.current@.len() == poly.num_vars && vals(cube.current@)
                    == nth_point(nv, 1, pos) && cube_index(vals(cube.current@), 1) == pos,
                cube.ended ==> pos == total,
                pos <= total,
                sum.wf(),
                sum.val() == cube_sum_upto(pm, nv, pos),
            ensures
                sum.wf(),
                pos == total,
                sum.val() == cube_sum_upto(pm, nv, pos),
            decreases total - pos,
        {
            let point = match cube.next() {
                None => { break },
                Some(p) => p,
            };
            let ghost od = vals(point@);
            proof {
                assert forall|k: int| 0 <= k < od.len() implies 0 <= #[trigger] od[k] <= 1 by {
                    crate::scalar::lemma_val_nonneg(point@[k]);
                }
                assert(digits_wf(od, 1));
            }
            let ev = poly.evaluate(&point);
            sum = fe_add(&sum, &ev);
            proof {
                if all_maxed(od, 1) {
                    lemma_maxed_index(od, 1);
                } else {
                    lemma_step_index(od, 1);
                    lemma_index_bound(step_digits(od, 1), 1);
                    assert(nth_point(nv, 1, (pos + 1) as nat) == step_digits(
                        nth_point(nv, 1, pos),
                        1,
                    ));
                }
                pos = pos + 1;
            }
        }
        proof {
            assert(sum.val() == cube_sum(pm, nv));
        }

        let mut polys: Vec<Polynomial> = Vec::new();
        let mut challenges: Vec<Scalar> = Vec::new();
        let mut target = sum;
        let mut num = poly.num_vars;
        proof {
            assert(vals(challenges@) =~= Seq::<int>::empty());
            assert(polys_models(polys@) =~= Seq::<Seq<(int, Seq<(usize, u64)>)>>::empty());
            if num > 0 {
                match run_rounds(pm, (num - 1) as nat, sum.val(), vals(challenges@)) {
                    None => {},
                    Some(rest) => {
                        assert(polys_models(polys@) + rest =~= rest);
                    },
                }
            }
        }
        while num != 0
            invariant
                poly.wf(),
                pm == poly.model(),
                nv == poly.num_vars as nat,
                num <= poly.num_vars,
                num != 0 ==> challenges@.len() == poly.num_vars - num,
                forall|i: int| 0 <= i < challenges@.len() ==> (#[trigger] challenges@[i]).wf(),
                target.wf(),
                sum.wf(),
                sum.val() == cube_sum(pm, nv),
                polys@.len() == poly.num_vars - num,
                forall|i: int|
                    0 <= i < polys@.len() ==> (#[trigger] polys@[i]).wf() && polys@[i].num_vars
                        == poly.num_vars,
                num > 0 ==> protocol_rounds(pm, nv) == (match run_rounds(
                    pm,
                    (num - 1) as nat,
                    target.val(),
                    vals(challenges@),
                ) {
                    None => None::<Seq<Seq<(int, Seq<(usize, u64)>)>>>,
                    Some(rest) => Some(polys_models(polys@) + rest),
                }),
                num == 0 ==> protocol_rounds(pm, nv) == Some(polys_models(polys@)),
            decreases num,
        {
            num = num - 1;
            let ghost ch_old = vals(challenges@);
            let ghost t_old = target.val();
            let ghost polys_old = polys@;
            let g = match self.round(target, poly, num, &challenges) {
                Ok(g) => g,
                Err(e) => {
                    proof {
                        assert(!round_ok(round_g(pm, num as nat, ch_old), num as nat, ch_old,
                            t_old));
                        assert(run_rounds(pm, num as nat, t_old, ch_old) is None);
                    }
                    return Err(e);
                },
            };
            if num > 0 {
                let alpha = derive_challenge();
                challenges.insert(0, alpha);
                proof {
                    assert(vals(challenges@) =~= seq![challenge_value()] + ch_old);
                }
                let input = build_tgt_input(num, &challenges);
                target = g.evaluate(&input);
            }
            polys.push(g);
            proof {
                assert(polys_models(polys@) =~= polys_models(polys_old) + seq![g.model()]);
                let gsp = round_g(pm, num as nat, ch_old);
                assert(g.model() == gsp);
                assert(round_ok(gsp, num as nat, ch_old, t_old));
                if num > 0 {
                    let ch2 = seq![challenge_value()] + ch_old;
                    let t2 = poly_eval(gsp, tgt_input(num as nat, ch2));
                    assert(vals(challenges@) == ch2);
                    assert(target.val() == t2);
                    match run_rounds(pm, (num - 1) as nat, t2, ch2) {
                        None => {
                            assert(run_rounds(pm, num as nat, t_old, ch_old) is None);
                        },
                        Some(rest) => {
                            assert(run_rounds(pm, num as nat, t_old, ch_old) == Some(
                                seq![gsp] + rest));
                            assert((polys_models(polys_old) + seq![gsp]) + rest =~= polys_models(
                                polys_old,
                            ) + (seq![gsp] + rest));
                        },
                    }
                } else {
                    assert(run_rounds(pm, num as nat, t_old, ch_old) == Some(seq![gsp]));
                    assert(polys_models(polys_old) + seq![gsp] =~= polys_models(polys@));
                }
            }
        }

        let mut commitments: Vec<PolynomialCommitment> = Vec::new();
        let mut i: usize = 0;
        while i < polys.len()
            invariant
                i <= polys@.len(),
                commitments@.len() == i,
                forall|k: int|
                    0 <= k < polys@.len() ==> (#[trigger] polys@[k]).wf() && polys@[k].num_vars
                        == poly.num_vars,
                forall|k: int|
                    0 <= k < i ==> (#[trigger] commitments@[k]).0.model() == polys@[k].model()
                        && commitments@[k].0.num_vars == poly.num_vars && commitments@[k].0.wf(),
            decreases polys@.len() - i,
        {
            commitments.push(PolynomialCommitment::commit(&polys[i]));
            i = i + 1;
        }

        let committed = PolynomialCommitment::commit(poly);
        let proof_obj = SumCheckProof { poly: committed, reduced_polys: commitments };
        proof {
            let gs = protocol_rounds(pm, nv)->Some_0;
            assert(gs == polys_models(polys@));
            assert forall|k: int|
                0 <= k < nv implies (#[trigger] proof_obj.reduced_polys@[k]).0.model() == gs[k]
                && proof_obj.reduced_polys@[k].0.num_vars == nv
                && proof_obj.reduced_polys@[k].0.wf() by {
                assert(commitments@[k].0.model() == polys@[k].model());
                assert(polys_models(polys@)[k] == polys@[k].model());
            }
        }
        Ok((sum, proof_obj))
    }
}

/// The verifier's replay from round `idx` onward: each committed round
/// polynomial must declare `nv` variables and must meet the round
/// consistency check against the running target; the challenge chain and
/// target updates mirror the prover's exactly.
pub open spec fn replay_rounds(
    rps: Seq<PolynomialCommitment>,
    nv: nat,
    idx: nat,
    target: int,
    ch: Seq<int>,
) -> bool
    decreases rps.len() - idx,
{
    if idx >= rps.len() {
        true
    } else {
        let v = (nv - 1 - idx) as nat;
        let g = rps[idx as int].0;
        if g.num_vars != nv {
            false
        } else if !round_ok(g.model(), v, ch, target) {
            false
        } else {
            let ch2 = seq![challenge_value()] + ch;
            let t2 = poly_eval(g.model(), tgt_input(v, ch2));
            replay_rounds(rps, nv, idx + 1, t2, ch2)
        }
    }
}

/// What the verifier accepts: a proof with exactly one round polynomial
/// per declared variable whose full replay passes every round check.
pub open spec fn verify_spec(sum: int, nv: nat, proof: SumCheckProof) -> bool {
    &&& proof.reduced_polys@.len() == nv
    &&& replay_rounds(proof.reduced_polys@, nv, 0, sum, Seq::empty())
}

/// Every field element stored in the proof is canonical.
pub open spec fn proof_wf(p: SumCheckProof) -> bool {
    &&& p.poly.0.wf()
    &&& forall|i: int|
        0 <= i < p.reduced_polys@.len() ==> (#[trigger] p.reduced_polys@[i]).0.wf()
}

impl SumCheckParams {
    /// Verifies a proof against the claimed sum: rejects a proof whose
    /// round count differs from `num_vars` or whose round polynomials
    /// declare another variable count (a shape mismatch, reported rather
    /// than crashing), replays every round's consistency check against
    /// the running target, and accepts only if all of them hold.
    ///
    /// A complete verifier with a binding commitment must additionally
    /// open the committed original polynomial at the full challenge point
    /// and hold it to the final round's target. The placeholder identity
    /// commitment has no binding to enforce, so that oracle check is
    /// deliberately left to a real commitment scheme.
    pub fn verify(&self, _prologue: (), sum: Scalar, num_vars: usize, proof: SumCheckProof) -> (r:
        bool)
        requires
            sum.wf(),
            proof_wf(proof),
        ensures
            r == verify_spec(sum.val(), num_vars as nat, proof),
            proof.reduced_polys@.len() != num_vars ==> r == false,
    {
        let ghost nv = num_vars as nat;
        let ghost rps = proof.reduced_polys@;
        if proof.reduced_polys.len() != num_vars {
            return false;
        }
        let mut challenges: Vec<Scalar> = Vec::new();
        let mut target = sum;
        let mut idx: usize = 0;
        proof {
            assert(vals(challenges@) =~= Seq::<int>::empty());
        }
        while idx < num_vars
            invariant
                proof_wf(proof),
                rps == proof.reduced_polys@,
                nv == num_vars as nat,
                rps.len() == num_vars,
                idx <= num_vars,
                challenges@.len() == idx,
                forall|i: int| 0 <= i < challenges@.len() ==> (#[trigger] challenges@[i]).wf(),
                target.wf(),
                sum.wf(),
                verify_spec(sum.val(), nv, proof) == replay_rounds(rps, nv, idx as nat,
                    target.val(), vals(challenges@)),
            decreases num_vars - idx,
        {
            let v = num_vars - 1 - idx;
            let rp = &proof.reduced_polys[idx];
            if rp.0.num_vars != num_vars {
                proof {
                    assert(!replay_rounds(rps, nv, idx as nat, target.val(), vals(challenges@)));
                }
                return false;
            }
            let zero = Scalar::zero();
            let one = Scalar::one();
            let zero_input = build_ext_input(v, &zero, &challenges);
            let one_input = build_ext_input(v, &one, &challenges);
            let e0 = rp.evaluate(&zero_input);
            let e1 = rp.evaluate(&one_input);
            let res = fe_add(&e0, &e1);
            proof {
                if target.val() == res.val() {
                    lemma_val_injective(target, res);
                }
            }
            if !(target == res) {
                proof {
                    assert(!round_ok(rp.0.model(), v as nat, vals(challenges@), target.val()));
                    assert(!replay_rounds(rps, nv, idx as nat, target.val(), vals(challenges@)));
                }
                return false;
            }
            let ghost ch_old = vals(challenges@);
            let ghost t_old = target.val();
            let alpha = derive_challenge();
            challenges.insert(0, alpha);
            proof {
                assert(vals(challenges@) =~= seq![challenge_value()] + ch_old);
            }
            let input = build_tgt_input(v, &challenges);
            target = rp.evaluate(&input);
            idx = idx + 1;
            proof {
                assert(replay_rounds(rps, nv, (idx - 1) as nat, t_old, ch_old) == replay_rounds(
                    rps,
                    nv,
                    idx as nat,
                    target.val(),
                    vals(challenges@),
                ));
            }
        }
        true
    }
}

/// A successful run from variable `v` yields one round polynomial per
/// remaining variable.
proof fn lemma_run_rounds_len(
    pm: Seq<(int, Seq<(usize, u64)>)>,
    v: nat,
    target: int,
    ch: Seq<int>,
)
    requires
        run_rounds(pm, v, target, ch) is Some,
    ensures
        run_rounds(pm, v, target, ch)->Some_0.len() == v + 1,
    decreases v,
{
    if v > 0 && round_ok(round_g(pm, v, ch), v, ch, target) {
        let ch2 = seq![challenge_value()] + ch;
        let t2 = poly_eval(round_g(pm, v, ch), tgt_input(v, ch2));
        if run_rounds(pm, (v - 1) as nat, t2, ch2) is Some {
            lemma_run_rounds_len(pm, (v - 1) as nat, t2, ch2);
        }
    }
}

/// Inductive step of completeness: a suffix of prover rounds that
/// succeeded replays successfully from the same target and challenges.
proof fn lemma_replay(
    rps: Seq<PolynomialCommitment>,
    pm: Seq<(int, Seq<(usize, u64)>)>,
    nv: nat,
    idx: nat,
    target: int,
    ch: Seq<int>,
    gs: Seq<Seq<(int, Seq<(usize, u64)>)>>,
)
    requires
        rps.len() == nv,
        idx < nv,
        run_rounds(pm, (nv - 1 - idx) as nat, target, ch) == Some(gs),
        forall|k: int|
            idx <= k < nv ==> (#[trigger] rps[k]).0.model() == gs[k - idx] && rps[k].0.num_vars
                == nv,
    ensures
        replay_rounds(rps, nv, idx, target, ch),
    decreases nv - idx,
{
    let v = (nv - 1 - idx) as nat;
    lemma_run_rounds_len(pm, v, target, ch);
    assert(gs.len() == v + 1);
    let g = round_g(pm, v, ch);
    assert(round_ok(g, v, ch, target));
    assert(rps[idx as int].0.model() == gs[0]);
    if v == 0 {
        assert(gs == seq![g]);
        assert(replay_rounds(rps, nv, idx + 1, poly_eval(g, tgt_input(v, seq![challenge_value()]
            + ch)), seq![challenge_value()] + ch));
    } else {
        let ch2 = seq![challenge_value()] + ch;
        let t2 = poly_eval(g, tgt_input(v, ch2));
        let inner = run_rounds(pm, (v - 1) as nat, t2, ch2);
        assert(inner is Some);
        let rest = inner->Some_0;
        assert(gs == seq![g] + rest);
        assert(gs[0] == g);
        assert forall|k: int|
            idx + 1 <= k < nv implies (#[trigger] rps[k]).0.model() == rest[k - idx - 1]
            && rps[k].0.num_vars == nv by {
            assert(rps[k].0.model() == gs[k - idx]);
            assert(gs[k - idx] == rest[k - idx - 1]);
        }
        lemma_replay(rps, pm, nv, idx + 1, t2, ch2, rest);
    }
}

/// Completeness: a (sum, proof) pair produced by a successful prover run
/// is always accepted by the verifier — in particular, every round
/// polynomial of the proof meets the round consistency check, for all
/// rounds, under the replayed targets and challenges.
pub proof fn lemma_completeness(
    pm: Seq<(int, Seq<(usize, u64)>)>,
    nv: nat,
    s: Scalar,
    proof: SumCheckProof,
)
    requires
        prover_post(pm, nv, s, proof),
    ensures
        verify_spec(s.val(), nv, proof),
{
    if nv > 0 {
        let gs = protocol_rounds(pm, nv)->Some_0;
        assert forall|k: int|
            0 <= k < nv implies (#[trigger] proof.reduced_polys@[k]).0.model() == gs[k - 0]
            && proof.reduced_polys@[k].0.num_vars == nv by {
            assert(proof.reduced_polys@[k].0.model() == gs[k]);
        }
        lemma_replay(proof.reduced_polys@, pm, nv, 0, cube_sum(pm, nv), Seq::empty(), gs);
    }
}

/// Determinism: two successful prover runs on the same polynomial yield
/// the same claimed sum and proofs with identical content — the same
/// committed polynomial and the same round polynomials, round for round.
pub proof fn lemma_prover_deterministic(
    pm: Seq<(int, Seq<(usize, u64)>)>,
    nv: nat,
    s1: Scalar,
    s2: Scalar,
    p1: SumCheckProof,
    p2: SumCheckProof,
)
    requires
        prover_post(pm, nv, s1, p1),
        prover_post(pm, nv, s2, p2),
    ensures
        s1 == s2,
        p1.reduced_polys@.len() == p2.reduced_polys@.len(),
        p1.poly.0.model() == p2.poly.0.model(),
        forall|i: int|
            0 <= i < p1.reduced_polys@.len() ==> (#[trigger] p1.reduced_polys@[i]).0.model()
                == p2.reduced_polys@[i].0.model(),
{
    lemma_val_injective(s1, s2);
    let gs = protocol_rounds(pm, nv)->Some_0;
    assert forall|i: int|
        0 <= i < p1.reduced_polys@.len() implies (#[trigger] p1.reduced_polys@[i]).0.model()
        == p2.reduced_polys@[i].0.model() by {
        assert(p1.reduced_polys@[i].0.model() == gs[i]);
        assert(p2.reduced_polys@[i].0.model() == gs[i]);
    }
}

} // verus!
