//! Multilinear polynomials by their values on the hypercube `{0, 1}^n`.
//!
//! The value at index `i` is the one at the point whose coordinates are the bits of `i`, the last
//! variable being the lowest bit.
use crate::field::{
    lemma_distrib, lemma_one, lemma_plus_assoc, lemma_plus_comm, lemma_times_comm, lemma_times_zero,
    lemma_zero, Ext,
};
use crate::poly::coeffs::{evaluate, fold_once};
use crate::poly::multilinear::MultilinearPoint;
use crate::poly::vector::{
    all_canonical, copy_vec, dot, even, interleave, lemma_difference, lemma_distrib_minus,
    lemma_dot_add, lemma_dot_add_right, lemma_dot_parity, lemma_dot_push, lemma_dot_scale,
    lemma_dot_scale_right, lemma_minus_swap, lemma_plus_swap, lemma_times_swap, lemma_vec_canonical,
    lemma_weighted_sum_len, lemma_weighted_sum_prefix, odd, vadd, vscale, vsub, weighted_sum, zeros,
};
use vstd::arithmetic::power2::{lemma2_to64, lemma_pow2_pos, lemma_pow2_unfold, pow2};
use vstd::prelude::*;

verus! {

/// The values that are left when the last variable is set to `r`.
pub open spec fn restrict(e: Seq<Ext>, r: Ext) -> Seq<Ext> {
    vadd(even(e), vscale(r, vsub(odd(e), even(e))))
}

/// The value at `point` of the multilinear polynomial with the values `e` on the hypercube.
pub open spec fn extend(e: Seq<Ext>, point: Seq<Ext>) -> Ext
    decreases point.len(),
{
    if point.len() == 0 {
        e[0]
    } else {
        extend(restrict(e, point.last()), point.drop_last())
    }
}

/// The values on the hypercube of the polynomial with coefficients `c`: where the last variable
/// is one, both the terms without it and those with it count.
pub open spec fn hypercube(c: Seq<Ext>) -> Seq<Ext>
    decreases c.len(),
{
    if c.len() <= 1 {
        c
    } else {
        interleave(hypercube(even(c)), vadd(hypercube(even(c)), hypercube(odd(c))))
    }
}

/// The values on the hypercube of the polynomial that is one at `point` and zero at the other
/// vertices, extended to any `point`.
pub open spec fn eq_weights(point: Seq<Ext>) -> Seq<Ext>
    decreases point.len(),
{
    if point.len() == 0 {
        seq![Ext::one_spec()]
    } else {
        let t = eq_weights(point.drop_last());
        interleave(vsub(t, vscale(point.last(), t)), vscale(point.last(), t))
    }
}

/// The values at `point` of several polynomials.
pub open spec fn extend_all(vs: Seq<Seq<Ext>>, point: Seq<Ext>) -> Seq<Ext> {
    Seq::new(vs.len(), |i: int| extend(vs[i], point))
}

/// A list of `2^num_variables` values.
#[derive(Debug, PartialEq, Eq)]
pub struct EvaluationsList {
    pub evals: Vec<Ext>,
    pub num_variables: usize,
}

impl View for EvaluationsList {
    type V = Seq<Ext>;

    open spec fn view(&self) -> Seq<Ext> {
        self.evals@
    }
}

impl EvaluationsList {
    pub open spec fn wf(&self) -> bool {
        self.evals@.len() == pow2(self.num_variables as nat)
    }

    pub fn num_variables(&self) -> (n: usize)
        ensures
            n == self.num_variables,
    {
        self.num_variables
    }

    /// The value of the polynomial at `point`.
    pub fn eval_extension(&self, point: &MultilinearPoint) -> (r: Ext)
        requires
            self.wf(),
            point@.len() == self.num_variables,
        ensures
            r == extend(self@, point@),
    {
        let mut cur: Vec<Ext> = copy_vec(&self.evals);
        let mut left: usize = point.0.len();
        let ghost whole = point@;
        assert(whole.take(left as int) =~= whole);
        while left > 0
            invariant
                whole == point@,
                left <= whole.len(),
                cur@.len() == pow2(left as nat),
                extend(cur@, whole.take(left as int)) == extend(self@, whole),
            decreases left,
        {
            proof {
                lemma_pow2_unfold(left as nat);
                assert(whole.take(left as int).drop_last() =~= whole.take(left - 1));
            }
            left = left - 1;
            cur = restrict_pairs(&cur, point.0[left]);
        }
        proof {
            lemma_pow2_pos(0);
        }
        cur[0]
    }
}

/// Sets the last variable to `r`.
pub fn restrict_pairs(e: &Vec<Ext>, r: Ext) -> (res: Vec<Ext>)
    ensures
        res@ == restrict(e@, r),
{
    let len: usize = e.len();
    let mut res: Vec<Ext> = Vec::new();
    for i in 0..len / 2
        invariant
            len == e@.len(),
            res@.len() == i,
            forall|k: int|
                0 <= k < i ==> res@[k] == e@[2 * k].plus(
                    r.times(e@[2 * k + 1].minus(e@[2 * k])),
                ),
    {
        res.push(e[2 * i].add(r.mul(e[2 * i + 1].sub(e[2 * i]))));
    }
    assert(res@ =~= restrict(e@, r));
    res
}

/// The values of a polynomial on the hypercube.
pub fn to_evaluations(c: &Vec<Ext>) -> (res: Vec<Ext>)
    requires
        exists|n: nat| c@.len() == pow2(n),
    ensures
        res@ == hypercube(c@),
        res@.len() == c@.len(),
    decreases c@.len(),
{
    let len: usize = c.len();
    if len <= 1 {
        copy_vec(c)
    } else {
        let ghost n = choose|n: nat| c@.len() == pow2(n);
        proof {
            lemma2_to64();
            assert(n > 0);
            lemma_pow2_unfold(n);
        }
        let mut low: Vec<Ext> = Vec::new();
        let mut high: Vec<Ext> = Vec::new();
        for i in 0..len / 2
            invariant
                len == c@.len(),
                low@.len() == i,
                high@.len() == i,
                forall|k: int| 0 <= k < i ==> low@[k] == c@[2 * k] && high@[k] == c@[2 * k + 1],
        {
            low.push(c[2 * i]);
            high.push(c[2 * i + 1]);
        }
        assert(low@ =~= even(c@) && high@ =~= odd(c@));
        assert(low@.len() == pow2((n - 1) as nat));
        let low: Vec<Ext> = to_evaluations(&low);
        let high: Vec<Ext> = to_evaluations(&high);
        let mut res: Vec<Ext> = Vec::new();
        for i in 0..len / 2
            invariant
                len == 2 * low@.len(),
                len == 2 * high@.len(),
                res@.len() == 2 * i,
                forall|k: int|
                    0 <= k < 2 * i ==> res@[k] == #[trigger] interleave(low@, vadd(low@, high@))[k],
        {
            res.push(low[i]);
            res.push(low[i].add(high[i]));
        }
        assert(res@ =~= interleave(low@, vadd(low@, high@)));
        res
    }
}

/// The weights that pick out the value at `point`.
pub fn eq_weights_at(point: &MultilinearPoint) -> (res: Vec<Ext>)
    requires
        pow2(point@.len()) <= usize::MAX,
    ensures
        res@ == eq_weights(point@),
        res@.len() == pow2(point@.len()),
{
    let n: usize = point.0.len();
    let mut cur: Vec<Ext> = Vec::new();
    cur.push(Ext::one());
    assert(cur@ =~= eq_weights(point@.take(0)));
    proof {
        lemma2_to64();
    }
    for i in 0..n
        invariant
            n == point@.len(),
            cur@ == eq_weights(point@.take(i as int)),
            cur@.len() == pow2(i as nat),
    {
        let x: Ext = point.0[i];
        let len: usize = cur.len();
        let mut next: Vec<Ext> = Vec::new();
        let ghost wide = interleave(vsub(cur@, vscale(x, cur@)), vscale(x, cur@));
        for k in 0..len
            invariant
                len == cur@.len(),
                wide == interleave(vsub(cur@, vscale(x, cur@)), vscale(x, cur@)),
                next@.len() == 2 * k,
                forall|j: int| 0 <= j < 2 * k ==> next@[j] == #[trigger] wide[j],
        {
            let scaled: Ext = x.mul(cur[k]);
            next.push(cur[k].sub(scaled));
            next.push(scaled);
        }
        proof {
            assert(next@ =~= wide);
            assert(point@.take(i + 1).drop_last() =~= point@.take(i as int));
            lemma_pow2_unfold((i + 1) as nat);
        }
        cur = next;
    }
    assert(point@.take(n as int) =~= point@);
    cur
}

// Values and coefficients.

pub proof fn lemma_interleave(a: Seq<Ext>, b: Seq<Ext>)
    requires
        a.len() == b.len(),
    ensures
        even(interleave(a, b)) == a,
        odd(interleave(a, b)) == b,
{
    assert(even(interleave(a, b)) =~= a);
    assert(odd(interleave(a, b)) =~= b);
}

pub proof fn lemma_hypercube_len(c: Seq<Ext>, n: nat)
    requires
        c.len() == pow2(n),
    ensures
        hypercube(c).len() == c.len(),
    decreases n,
{
    if n > 0 {
        lemma_pow2_unfold(n);
        lemma_pow2_pos((n - 1) as nat);
        lemma_hypercube_len(even(c), (n - 1) as nat);
        lemma_hypercube_len(odd(c), (n - 1) as nat);
    } else {
        lemma2_to64();
    }
}

pub proof fn lemma_hypercube_canonical(c: Seq<Ext>, n: nat)
    requires
        c.len() == pow2(n),
        all_canonical(c),
    ensures
        all_canonical(hypercube(c)),
    decreases n,
{
    if n > 0 {
        lemma_pow2_unfold(n);
        lemma_pow2_pos((n - 1) as nat);
        let (he, ho) = (hypercube(even(c)), hypercube(odd(c)));
        lemma_hypercube_canonical(even(c), (n - 1) as nat);
        lemma_hypercube_len(even(c), (n - 1) as nat);
        lemma_vec_canonical(Ext::one_spec(), he, ho);
        assert forall|i: int| 0 <= i < hypercube(c).len() implies (#[trigger] hypercube(
            c,
        )[i]).canonical() by {
            assert(he[i / 2].canonical());
            assert(vadd(he, ho)[i / 2].canonical());
        }
    } else {
        lemma2_to64();
    }
}

/// Taking the values on the hypercube is linear.
pub proof fn lemma_hypercube_linear(a: Seq<Ext>, z: Ext, b: Seq<Ext>, n: nat)
    requires
        a.len() == pow2(n),
        b.len() == pow2(n),
    ensures
        hypercube(vadd(a, vscale(z, b))) == vadd(hypercube(a), vscale(z, hypercube(b))),
    decreases n,
{
    let s = vadd(a, vscale(z, b));
    lemma_hypercube_len(a, n);
    lemma_hypercube_len(b, n);
    lemma_hypercube_len(s, n);
    if n > 0 {
        lemma_pow2_unfold(n);
        lemma_pow2_pos((n - 1) as nat);
        let m = (n - 1) as nat;
        assert(even(s) =~= vadd(even(a), vscale(z, even(b))));
        assert(odd(s) =~= vadd(odd(a), vscale(z, odd(b))));
        lemma_hypercube_linear(even(a), z, even(b), m);
        lemma_hypercube_linear(odd(a), z, odd(b), m);
        lemma_hypercube_len(even(a), m);
        lemma_hypercube_len(odd(a), m);
        lemma_hypercube_len(even(b), m);
        lemma_hypercube_len(odd(b), m);
        let (ae, ao, be, bo) = (
            hypercube(even(a)),
            hypercube(odd(a)),
            hypercube(even(b)),
            hypercube(odd(b)),
        );
        let right = vadd(hypercube(a), vscale(z, hypercube(b)));
        assert forall|i: int| 0 <= i < s.len() implies #[trigger] hypercube(s)[i] == right[i] by {
            let k = i / 2;
            if i % 2 == 1 {
                lemma_plus_swap(ae[k], z.times(be[k]), ao[k], z.times(bo[k]));
                lemma_distrib(z, be[k], bo[k]);
            }
        }
        assert(hypercube(s) =~= right);
    } else {
        lemma2_to64();
        assert(hypercube(s) =~= vadd(hypercube(a), vscale(z, hypercube(b))));
    }
}

/// Setting the last variable acts alike on the values and on the coefficients.
pub proof fn law_restrict_is_fold(c: Seq<Ext>, r: Ext, n: nat)
    requires
        c.len() == pow2(n),
        n > 0,
        all_canonical(c),
    ensures
        restrict(hypercube(c), r) == hypercube(fold_once(c, r)),
{
    let m = (n - 1) as nat;
    lemma_pow2_unfold(n);
    lemma_pow2_pos(m);
    let (he, ho) = (hypercube(even(c)), hypercube(odd(c)));
    lemma_hypercube_len(even(c), m);
    lemma_hypercube_len(odd(c), m);
    lemma_hypercube_canonical(even(c), m);
    lemma_hypercube_canonical(odd(c), m);
    lemma_interleave(he, vadd(he, ho));
    assert(vsub(vadd(he, ho), he) =~= ho) by {
        assert forall|i: int| 0 <= i < ho.len() implies #[trigger] vsub(vadd(he, ho), he)[i]
            == ho[i] by {
            lemma_plus_comm(he[i], ho[i]);
            lemma_difference(ho[i], he[i]);
        }
    }
    lemma_hypercube_linear(even(c), r, odd(c), m);
}

/// The values on the hypercube determine the value at every point.
pub proof fn law_extend_hypercube(c: Seq<Ext>, point: Seq<Ext>)
    requires
        c.len() == pow2(point.len()),
        all_canonical(c),
    ensures
        extend(hypercube(c), point) == evaluate(c, point),
    decreases point.len(),
{
    if point.len() > 0 {
        let r = point.last();
        law_restrict_is_fold(c, r, point.len());
        lemma_pow2_unfold(point.len());
        lemma_vec_canonical(r, even(c), vscale(r, odd(c)));
        law_extend_hypercube(fold_once(c, r), point.drop_last());
    } else {
        lemma2_to64();
    }
}

pub proof fn lemma_eq_weights_len(point: Seq<Ext>)
    ensures
        eq_weights(point).len() == pow2(point.len()),
    decreases point.len(),
{
    if point.len() > 0 {
        lemma_eq_weights_len(point.drop_last());
        lemma_pow2_unfold(point.len());
    } else {
        lemma2_to64();
    }
}

pub proof fn lemma_eq_weights_canonical(point: Seq<Ext>)
    ensures
        all_canonical(eq_weights(point)),
    decreases point.len(),
{
    if point.len() > 0 {
        let t = eq_weights(point.drop_last());
        let x = point.last();
        lemma_vec_canonical(x, t, vscale(x, t));
        assert forall|i: int| 0 <= i < eq_weights(point).len() implies (#[trigger] eq_weights(
            point,
        )[i]).canonical() by {
            assert(vsub(t, vscale(x, t))[i / 2].canonical());
            assert(vscale(x, t)[i / 2].canonical());
        }
    }
}

/// Weighing the values on the hypercube by `eq_weights(point)` gives the value at `point`.
pub proof fn law_eq_weights(c: Seq<Ext>, point: Seq<Ext>)
    requires
        c.len() == pow2(point.len()),
        all_canonical(c),
    ensures
        dot(hypercube(c), eq_weights(point)) == evaluate(c, point),
    decreases point.len(),
{
    if point.len() == 0 {
        lemma2_to64();
        lemma_one(c[0]);
        lemma_zero(c[0]);
        assert(dot(c.skip(1), eq_weights(point).skip(1)) == Ext::zero_spec());
    } else {
        let n = point.len();
        let m = (n - 1) as nat;
        let x = point.last();
        let t = eq_weights(point.drop_last());
        lemma_pow2_unfold(n);
        lemma_pow2_pos(m);
        lemma_eq_weights_len(point.drop_last());
        lemma_eq_weights_canonical(point.drop_last());
        let (he, ho) = (hypercube(even(c)), hypercube(odd(c)));
        lemma_hypercube_len(even(c), m);
        lemma_hypercube_len(odd(c), m);
        let xt = vscale(x, t);
        lemma_interleave(he, vadd(he, ho));
        lemma_interleave(vsub(t, xt), xt);
        lemma_dot_parity(hypercube(c), eq_weights(point));
        // dot = he.(t - xt) + (he + ho).xt
        lemma_dot_add(he, ho, xt);
        lemma_plus_assoc(dot(he, vsub(t, xt)), dot(he, xt), dot(ho, xt));
        lemma_dot_add_right(he, vsub(t, xt), xt);
        lemma_vec_canonical(x, t, xt);
        assert(vadd(vsub(t, xt), xt) =~= t) by {
            assert forall|i: int| 0 <= i < t.len() implies #[trigger] vadd(vsub(t, xt), xt)[i]
                == t[i] by {
                assert(xt[i].canonical());
                lemma_difference(t[i], xt[i]);
            }
        }
        lemma_dot_scale_right(ho, x, t);
        // the same for the folded polynomial
        lemma_vec_canonical(x, even(c), vscale(x, odd(c)));
        law_eq_weights(fold_once(c, x), point.drop_last());
        lemma_hypercube_linear(even(c), x, odd(c), m);
        lemma_dot_add(he, vscale(x, ho), t);
        lemma_dot_scale(x, ho, t);
    }
}

/// Setting the last variable is linear.
proof fn lemma_restrict_linear(a: Seq<Ext>, z: Ext, b: Seq<Ext>, r: Ext)
    requires
        a.len() == b.len(),
    ensures
        restrict(vadd(a, vscale(z, b)), r) == vadd(restrict(a, r), vscale(z, restrict(b, r))),
{
    let s = vadd(a, vscale(z, b));
    let right = vadd(restrict(a, r), vscale(z, restrict(b, r)));
    assert forall|k: int| 0 <= k < a.len() / 2 implies #[trigger] restrict(s, r)[k] == right[k] by {
        let (a0, a1, b0, b1) = (a[2 * k], a[2 * k + 1], b[2 * k], b[2 * k + 1]);
        let (da, db) = (a1.minus(a0), b1.minus(b0));
        // s1 - s0 = da + z db
        lemma_minus_swap(a1, z.times(b1), a0, z.times(b0));
        lemma_distrib_minus(b1, b0, z);
        lemma_times_comm(z, b1);
        lemma_times_comm(z, b0);
        lemma_times_comm(z, db);
        // r (da + z db) = r da + z (r db)
        lemma_distrib(r, da, z.times(db));
        lemma_times_swap(r, z, db);
        lemma_plus_swap(a0, z.times(b0), r.times(da), z.times(r.times(db)));
        lemma_distrib(z, b0, r.times(db));
    }
    assert(restrict(s, r) =~= right);
}

/// Evaluation is linear in the values on the hypercube.
pub proof fn lemma_extend_linear(a: Seq<Ext>, z: Ext, b: Seq<Ext>, point: Seq<Ext>)
    requires
        a.len() == pow2(point.len()),
        b.len() == pow2(point.len()),
    ensures
        extend(vadd(a, vscale(z, b)), point) == extend(a, point).plus(z.times(extend(b, point))),
    decreases point.len(),
{
    if point.len() > 0 {
        let r = point.last();
        lemma_pow2_unfold(point.len());
        lemma_restrict_linear(a, z, b, r);
        lemma_extend_linear(restrict(a, r), z, restrict(b, r), point.drop_last());
    } else {
        lemma2_to64();
    }
}

pub proof fn lemma_extend_zeros(point: Seq<Ext>)
    ensures
        extend(zeros(pow2(point.len())), point) == Ext::zero_spec(),
    decreases point.len(),
{
    if point.len() > 0 {
        let r = point.last();
        let n = pow2(point.len());
        let zero = Ext::zero_spec();
        lemma_pow2_unfold(point.len());
        lemma_difference(zero, zero);
        lemma_zero(zero);
        lemma_times_zero(r);
        assert(restrict(zeros(n), r) =~= zeros(pow2((point.len() - 1) as nat)));
        lemma_extend_zeros(point.drop_last());
    } else {
        lemma2_to64();
    }
}

/// The value at a point of a combination of weights is the combination of their values there.
pub proof fn law_extend_combination(vs: Seq<Seq<Ext>>, r: Seq<Ext>, point: Seq<Ext>)
    requires
        vs.len() == r.len(),
        forall|i: int| 0 <= i < vs.len() ==> (#[trigger] vs[i]).len() == pow2(point.len()),
    ensures
        extend(weighted_sum(vs, r, pow2(point.len())), point) == dot(r, extend_all(vs, point)),
    decreases vs.len(),
{
    let n = pow2(point.len());
    if vs.len() == 0 {
        lemma_extend_zeros(point);
    } else {
        let k = vs.len() - 1;
        let (v0, r0) = (vs.drop_last(), r.drop_last());
        law_extend_combination(v0, r0, point);
        lemma_weighted_sum_prefix(v0, r0, r, n);
        lemma_weighted_sum_len(v0, r, n);
        lemma_extend_linear(weighted_sum(v0, r, n), r[k], vs[k], point);
        lemma_dot_push(r0, extend_all(v0, point), r[k], extend(vs[k], point));
        assert(r0.push(r[k]) =~= r);
        assert(extend_all(v0, point).push(extend(vs[k], point)) =~= extend_all(vs, point));
    }
}

// What the values are.

/// The value at a point of the polynomial with the values `e` on the hypercube is the sum of the
/// values, each times its weight for the point.
pub proof fn law_extend(e: Seq<Ext>, point: Seq<Ext>)
    requires
        e.len() == pow2(point.len()),
        all_canonical(e),
    ensures
        extend(e, point) == dot(e, eq_weights(point)),
    decreases point.len(),
{
    if point.len() == 0 {
        lemma2_to64();
        lemma_one(e[0]);
        lemma_zero(e[0]);
        assert(dot(e.skip(1), eq_weights(point).skip(1)) == Ext::zero_spec());
    } else {
        let n = point.len();
        let x = point.last();
        let t = eq_weights(point.drop_last());
        let xt = vscale(x, t);
        let (lo, hi) = (even(e), odd(e));
        let d = vsub(hi, lo);
        lemma_pow2_unfold(n);
        lemma_eq_weights_len(point.drop_last());
        lemma_eq_weights_canonical(point.drop_last());
        lemma_vec_canonical(x, lo, vscale(x, d));
        lemma_vec_canonical(x, hi, lo);
        law_extend(restrict(e, x), point.drop_last());
        lemma_interleave(vsub(t, xt), xt);
        lemma_dot_parity(e, eq_weights(point));
        // lo.(t - xt) + hi.xt = lo.t + x (d.t)
        assert(vadd(lo, d) =~= hi) by {
            assert forall|i: int| 0 <= i < hi.len() implies #[trigger] vadd(lo, d)[i] == hi[i] by {
                lemma_difference(lo[i], hi[i]);
            }
        }
        lemma_dot_add(lo, d, xt);
        lemma_plus_assoc(dot(lo, vsub(t, xt)), dot(lo, xt), dot(d, xt));
        lemma_dot_add_right(lo, vsub(t, xt), xt);
        lemma_vec_canonical(x, t, xt);
        assert(vadd(vsub(t, xt), xt) =~= t) by {
            assert forall|i: int| 0 <= i < t.len() implies #[trigger] vadd(vsub(t, xt), xt)[i]
                == t[i] by {
                assert(xt[i].canonical());
                lemma_difference(t[i], xt[i]);
            }
        }
        lemma_dot_scale_right(d, x, t);
        lemma_dot_add(lo, vscale(x, d), t);
        lemma_dot_scale(x, d, t);
    }
}

/// The weight of the vertex with index `i`: for each variable, the coordinate of the point where
/// the bit of `i` is one, and one minus it where it is zero.
pub proof fn law_eq_weight_entries(point: Seq<Ext>, x: Ext, i: int)
    requires
        0 <= i < pow2(point.len()),
    ensures
        eq_weights(Seq::empty()) == seq![Ext { c0: 1, c1: 0 }],
        eq_weights(point.push(x)).len() == 2 * pow2(point.len()),
        eq_weights(point.push(x))[2 * i] == eq_weights(point)[i].minus(
            x.times(eq_weights(point)[i]),
        ),
        eq_weights(point.push(x))[2 * i + 1] == x.times(eq_weights(point)[i]),
{
    assert(point.push(x).drop_last() =~= point);
    lemma_eq_weights_len(point);
}

/// The list stands for the values that it holds.
pub proof fn law_evaluations_view(list: EvaluationsList)
    ensures
        list@ == list.evals@,
        list.wf() <==> list.evals@.len() == pow2(list.num_variables as nat),
{
}

} // verus!
