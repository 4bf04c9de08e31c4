//! Lazy enumerator of the bounded integer lattice {0,…,max}^k.
//!
//! The cursor walks the lattice in mixed-radix ("odometer") order: the
//! lowest-indexed variable is the fastest-varying digit. Each point is
//! yielded exactly once; the cursor is single-pass and not restartable.

use crate::scalar::{fe_add, prime, scalar_lt, vals, Scalar};
use vstd::arithmetic::div_mod::lemma_small_mod;
use vstd::pervasive::VecAdditionalExecFns;
use vstd::prelude::*;

verus! {

/// Every digit lies in the counting range 0..=max.
pub open spec fn digits_wf(d: Seq<int>, maxv: int) -> bool {
    forall|i: int| 0 <= i < d.len() ==> 0 <= #[trigger] d[i] <= maxv
}

/// Every digit equals the bound: the cursor is at the last point.
pub open spec fn all_maxed(d: Seq<int>, maxv: int) -> bool {
    forall|i: int| 0 <= i < d.len() ==> #[trigger] d[i] == maxv
}

/// The all-zero point.
pub open spec fn zero_digits(k: nat) -> Seq<int> {
    Seq::new(k, |i: int| 0)
}

/// Odometer step: the first digit strictly below the bound is incremented,
/// every digit before it (already at the bound) is reset to zero.
pub open spec fn step_digits(d: Seq<int>, maxv: int) -> Seq<int>
    decreases d.len(),
{
    if d.len() == 0 {
        d
    } else if d[0] < maxv {
        d.update(0, d[0] + 1)
    } else {
        seq![0int] + step_digits(d.subrange(1, d.len() as int), maxv)
    }
}

/// The rank of a point in enumeration order: the digits read as a
/// little-endian number in radix max+1.
pub open spec fn cube_index(d: Seq<int>, maxv: int) -> int
    decreases d.len(),
{
    if d.len() == 0 {
        0
    } else {
        d[0] + (maxv + 1) * cube_index(d.subrange(1, d.len() as int), maxv)
    }
}

/// The number of points of {0,…,max}^k, that is (max+1)^k.
pub open spec fn cube_size(maxv: int, k: nat) -> int
    decreases k,
{
    if k == 0 {
        1
    } else {
        (maxv + 1) * cube_size(maxv, (k - 1) as nat)
    }
}

/// The i-th point of the enumeration: i odometer steps from the origin.
pub open spec fn nth_point(k: nat, maxv: int, i: nat) -> Seq<int>
    decreases i,
{
    if i == 0 {
        zero_digits(k)
    } else {
        step_digits(nth_point(k, maxv, (i - 1) as nat), maxv)
    }
}

/// The origin has rank zero.
pub proof fn lemma_zero_digits_index(k: nat, maxv: int)
    ensures
        cube_index(zero_digits(k), maxv) == 0,
    decreases k,
{
    if k > 0 {
        lemma_zero_digits_index((k - 1) as nat, maxv);
        assert(zero_digits(k).subrange(1, k as int) =~= zero_digits((k - 1) as nat));
    }
}

/// An odometer step raises the rank by exactly one, keeps the length, and
/// keeps every digit in range. Together with `lemma_index_bound` and
/// `lemma_maxed_index` this shows the enumerator yields each of the
/// (max+1)^k points once, in order of rank.
pub proof fn lemma_step_index(d: Seq<int>, maxv: int)
    requires
        digits_wf(d, maxv),
        !all_maxed(d, maxv),
    ensures
        cube_index(step_digits(d, maxv), maxv) == cube_index(d, maxv) + 1,
        step_digits(d, maxv).len() == d.len(),
        digits_wf(step_digits(d, maxv), maxv),
    decreases d.len(),
{
    let tail = d.subrange(1, d.len() as int);
    if d[0] < maxv {
        assert(step_digits(d, maxv) =~= d.update(0, d[0] + 1));
        assert(d.update(0, d[0] + 1).subrange(1, d.len() as int) =~= tail);
    } else {
        assert(!all_maxed(tail, maxv)) by {
            let j = choose|i: int| 0 <= i < d.len() && d[i] != maxv;
            assert(tail[j - 1] == d[j]);
        }
        lemma_step_index(tail, maxv);
        let s = step_digits(d, maxv);
        assert(s == seq![0int] + step_digits(tail, maxv));
        assert(s.subrange(1, s.len() as int) =~= step_digits(tail, maxv));
        assert(s[0] == 0);
        assert((maxv + 1) * (cube_index(tail, maxv) + 1)
            == (maxv + 1) * cube_index(tail, maxv) + maxv + 1) by (nonlinear_arith);
    }
}

/// At the last point every digit equals the bound and the rank is
/// (max+1)^k - 1.
pub proof fn lemma_maxed_index(d: Seq<int>, maxv: int)
    requires
        all_maxed(d, maxv),
        maxv >= 0,
    ensures
        cube_index(d, maxv) == cube_size(maxv, d.len()) - 1,
    decreases d.len(),
{
    if d.len() > 0 {
        let tail = d.subrange(1, d.len() as int);
        lemma_maxed_index(tail, maxv);
        assert(cube_index(d, maxv) == maxv + (maxv + 1) * (cube_size(maxv, tail.len()) - 1));
        assert((maxv + 1) * (cube_size(maxv, tail.len()) - 1)
            == (maxv + 1) * cube_size(maxv, tail.len()) - (maxv + 1)) by (nonlinear_arith);
    }
}

/// The rank of any in-range point lies below (max+1)^k.
pub proof fn lemma_index_bound(d: Seq<int>, maxv: int)
    requires
        digits_wf(d, maxv),
    ensures
        0 <= cube_index(d, maxv),
        cube_index(d, maxv) < cube_size(maxv, d.len()),
    decreases d.len(),
{
    if d.len() > 0 {
        assert(0 <= d[0] <= maxv);
        let tail = d.subrange(1, d.len() as int);
        lemma_index_bound(tail, maxv);
        let it = cube_index(tail, maxv);
        let st = cube_size(maxv, tail.len());
        assert(0 <= (maxv + 1) * it && (maxv + 1) * it <= (maxv + 1) * (st - 1))
            by (nonlinear_arith)
            requires 0 <= it, it <= st - 1, maxv >= 0,
        ;
        assert((maxv + 1) * (st - 1) == (maxv + 1) * st - (maxv + 1)) by (nonlinear_arith);
    }
}

/// Cursor over the points of {0,…,max_value}^k.
pub struct HyperCube {
    /// The point to be yielded next; emptied when the walk is over.
    pub current: Vec<Scalar>,
    /// Whether every point has been yielded.
    pub ended: bool,
    /// The largest digit value, read as a bounded non-negative counter.
    pub max_value: Scalar,
}

impl HyperCube {
    /// The cursor invariant: the bound is canonical and every digit counts
    /// within it.
    pub open spec fn wf(self) -> bool {
        &&& self.max_value.wf()
        &&& forall|i: int|
            0 <= i < self.current@.len() ==> (#[trigger] self.current@[i]).wf()
                && self.current@[i].val() <= self.max_value.val()
    }

    /// A fresh cursor at the all-zero point of {0,…,max_value}^num_vars.
    pub fn new(num_vars: usize, max_value: Scalar) -> (r: HyperCube)
        requires
            max_value.wf(),
        ensures
            r.wf(),
            !r.ended,
            r.max_value == max_value,
            r.current@.len() == num_vars,
            vals(r.current@) =~= zero_digits(num_vars as nat),
    {
        let mut current: Vec<Scalar> = Vec::new();
        let mut i: usize = 0;
        while i < num_vars
            invariant
                i <= num_vars,
                current@.len() == i,
                forall|j: int| 0 <= j < i ==> (#[trigger] current@[j]).val() == 0,
                forall|j: int| 0 <= j < i ==> (#[trigger] current@[j]).wf(),
            decreases num_vars - i,
        {
            current.push(Scalar::zero());
            i = i + 1;
        }
        HyperCube { current, ended: false, max_value }
    }

    /// Yields the current point and advances the odometer; `None` once the
    /// walk is over. Advancing from the last point (all digits at the
    /// bound) exhausts the cursor.
    pub fn next(&mut self) -> (r: Option<Vec<Scalar>>)
        requires
            old(self).wf(),
        ensures
            final(self).wf(),
            final(self).max_value == old(self).max_value,
            old(self).ended ==> r is None && *final(self) == *old(self),
            !old(self).ended ==> r is Some && r->Some_0@ == old(self).current@,
            !old(self).ended && all_maxed(vals(old(self).current@), old(self).max_value.val())
                ==> final(self).ended && final(self).current@.len() == 0,
            !old(self).ended && !all_maxed(vals(old(self).current@), old(self).max_value.val())
                ==> !final(self).ended && final(self).current@.len() == old(self).current@.len()
                    && vals(final(self).current@) == step_digits(
                        vals(old(self).current@),
                        old(self).max_value.val(),
                    ),
    {
        if self.ended {
            return None;
        }

        let ghost od = vals(old(self).current@);
        let ghost maxv = self.max_value.val();

        let mut result: Vec<Scalar> = Vec::new();
        let mut i: usize = 0;
        while i < self.current.len()
            invariant
                i <= self.current@.len(),
                self.current@ == old(self).current@,
                result@.len() == i,
                forall|j: int| 0 <= j < i ==> result@[j] == self.current@[j],
            decreases self.current@.len() - i,
        {
            result.push(self.current[i]);
            i = i + 1;
        }
        assert(result@ =~= old(self).current@);

        let mut incremented = false;
        let one = Scalar::one();
        let mut i: usize = 0;
        while i < self.current.len()
            invariant_except_break
                old(self).wf(),
                self.max_value == old(self).max_value,
                self.ended == old(self).ended,
                i <= self.current@.len(),
                self.current@.len() == old(self).current@.len(),
                od == vals(old(self).current@),
                maxv == self.max_value.val(),
                one.val() == 1,
                one.wf(),
                !incremented,
                forall|j: int| i <= j < self.current@.len()
                    ==> #[trigger] self.current@[j] == old(self).current@[j],
                forall|j: int| 0 <= j < i ==> (#[trigger] self.current@[j]).val() == 0,
                forall|j: int| 0 <= j < i ==> od[j] == maxv,
                forall|j: int|
                    0 <= j < self.current@.len() ==> (#[trigger] self.current@[j]).wf()
                        && self.current@[j].val() <= maxv,
            ensures
                self.max_value == old(self).max_value,
                self.ended == old(self).ended,
                self.current@.len() == old(self).current@.len(),
                forall|j: int|
                    0 <= j < self.current@.len() ==> (#[trigger] self.current@[j]).wf()
                        && self.current@[j].val() <= maxv,
                !incremented ==> i == self.current@.len() && all_maxed(od, maxv),
                incremented ==> i < self.current@.len() && od[i as int] < maxv
                    && (forall|j: int| 0 <= j < i ==> od[j] == maxv)
                    && (forall|j: int|
                        0 <= j < self.current@.len() ==> (#[trigger] self.current@[j]).val()
                            == (if j < i {
                                0
                            } else if j == i {
                                od[j] + 1
                            } else {
                                od[j]
                            })),
            decreases self.current@.len() - i,
        {
            let digit = self.current[i];
            if scalar_lt(&digit, &self.max_value) {
                proof {
                    assert(digit.val() + 1 <= maxv);
                    assert(maxv < prime());
                    lemma_small_mod((digit.val() + 1) as nat, prime() as nat);
                }
                let bumped = fe_add(&digit, &one);
                self.current.set(i, bumped);
                incremented = true;
                break;
            } else {
                proof {
                    assert(digit.val() == maxv);
                }
                self.current.set(i, Scalar::zero());
                i = i + 1;
            }
        }

        if !incremented {
            self.ended = true;
            self.current = Vec::new();
        } else {
            proof {
                lemma_step_prefix(od, maxv, i as int);
                assert(vals(self.current@) =~= step_digits(od, maxv));
            }
        }

        Some(result)
    }
}

/// Unfolds the odometer step at the first digit below the bound: every
/// earlier digit wraps to zero, that digit is incremented, the rest stand.
proof fn lemma_step_prefix(d: Seq<int>, maxv: int, i: int)
    requires
        0 <= i < d.len(),
        forall|j: int| 0 <= j < i ==> d[j] == maxv,
        d[i] < maxv,
    ensures
        step_digits(d, maxv) =~= Seq::new(
            d.len(),
            |j: int|
                if j < i {
                    0
                } else if j == i {
                    d[j] + 1
                } else {
                    d[j]
                },
        ),
    decreases i,
{
    if i == 0 {
        assert(step_digits(d, maxv) =~= d.update(0, d[0] + 1));
    } else {
        let tail = d.subrange(1, d.len() as int);
        lemma_step_prefix(tail, maxv, i - 1);
        assert(step_digits(d, maxv) == seq![0int] + step_digits(tail, maxv));
    }
}

} // verus!
