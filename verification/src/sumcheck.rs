//! The sumcheck protocol for a sum over the hypercube of the products of two multilinear
//! polynomials, one variable per round, the last variable first.
use crate::domain::lemma_pow2_injective;
use crate::fiat_shamir::{
    challenge_pow_if_positive, challenge_scalar, law_stopped, lemma_stopped_after,
    lemma_stopped_prefix, pow_trace, stopped, taken, Entry, PowBits, ProofError, ProofResult,
    Transcript,
};
use crate::field::{
    lemma_canonical, lemma_distrib, lemma_minus_plus, lemma_one, lemma_plus_assoc, lemma_plus_comm,
    lemma_times_assoc, lemma_times_comm, lemma_times_zero, lemma_zero, Ext,
};
use crate::poly::coeffs::{
    fold, fold_once, law_fold_compose, law_univariate, lemma_fold_canonical, lemma_fold_len,
    univariate, CoefficientList,
};
use crate::poly::evals::{
    eq_weights_at, extend, hypercube, law_restrict_is_fold, restrict, restrict_pairs,
    to_evaluations,
};
use crate::poly::multilinear::{reversed, MultilinearPoint};
use crate::poly::vector::{
    add_scaled, add_vectors, all_canonical, copy_vec, dot, dot_product, even, law_weighted_sum,
    law_weighted_sum_entry, lemma_difference, lemma_distrib_right, lemma_dot_add,
    lemma_dot_add_right, lemma_dot_canonical, lemma_dot_parity, lemma_dot_scale,
    lemma_dot_scale_right, lemma_minus_swap, lemma_plus_swap, lemma_solve, lemma_vec_canonical,
    lemma_weighted_sum_len, odd, powers, vadd, vscale, vsub, weighted_sum, zero_vector, zeros,
};
use crate::whir::statement::{combined_sum, combined_weights, Statement};
use vstd::arithmetic::power2::{lemma_pow2_unfold, pow2};
use vstd::prelude::*;

verus! {

/// The state of a sumcheck: the values of both polynomials on the hypercube, and what the sum of
/// their products is claimed to be.
#[verifier::ext_equal]
pub struct SumcheckView {
    pub p: Seq<Ext>,
    pub w: Seq<Ext>,
    pub sum: Ext,
}

/// A polynomial of degree two, by its coefficients.
pub struct Quadratic {
    pub c0: Ext,
    pub c1: Ext,
    pub c2: Ext,
}

impl Quadratic {
    /// The value at `t`.
    pub open spec fn at(self, t: Ext) -> Ext {
        self.c0.plus(t.times(self.c1.plus(t.times(self.c2))))
    }
}

/// The field element two.
pub open spec fn two_spec() -> Ext {
    Ext { c0: 2, c1: 0 }
}

impl SumcheckView {
    /// The sum is as claimed.
    pub open spec fn holds(self) -> bool {
        dot(self.p, self.w) == self.sum
    }

    /// Both lists are for `n` variables.
    pub open spec fn sized(self, n: nat) -> bool {
        self.p.len() == pow2(n) && self.w.len() == pow2(n)
    }

    /// The polynomial of the round: at `t`, the sum over the remaining variables when the last one
    /// is `t`. Its constant and its leading coefficient come from the two lists, and the linear
    /// one makes its values at zero and at one add up to the claim.
    pub open spec fn round_poly(self) -> Quadratic {
        let c0 = dot(even(self.p), even(self.w));
        let c2 = dot(vsub(odd(self.p), even(self.p)), vsub(odd(self.w), even(self.w)));
        Quadratic { c0, c1: self.sum.minus(c0.plus(c0)).minus(c2), c2 }
    }

    /// The values that are sent in the round.
    pub open spec fn message(self) -> Seq<Ext> {
        let h = self.round_poly();
        seq![h.at(Ext::zero_spec()), h.at(Ext::one_spec()), h.at(two_spec())]
    }

    /// The state when the last variable is set to `r`.
    pub open spec fn bind(self, r: Ext) -> SumcheckView {
        SumcheckView {
            p: restrict(self.p, r),
            w: restrict(self.w, r),
            sum: self.round_poly().at(r),
        }
    }

    /// The state after rounds with the challenges `rs`.
    pub open spec fn bind_all(self, rs: Seq<Ext>) -> SumcheckView
        decreases rs.len(),
    {
        if rs.len() == 0 {
            self
        } else {
            self.bind_all(rs.drop_last()).bind(rs.last())
        }
    }

    /// The steps of a round with the challenge `r`.
    pub open spec fn round_steps(self, r: Ext, pow_bits: PowBits) -> Seq<Entry> {
        seq![Entry::Scalars(self.message()), Entry::Challenge(seq![r])] + pow_trace(pow_bits)
    }

    /// The steps of rounds with the challenges `rs`.
    pub open spec fn trace(self, rs: Seq<Ext>, pow_bits: PowBits) -> Seq<Entry>
        decreases rs.len(),
    {
        if rs.len() == 0 {
            Seq::empty()
        } else {
            self.trace(rs.drop_last(), pow_bits) + self.bind_all(rs.drop_last()).round_steps(
                rs.last(),
                pow_bits,
            )
        }
    }

    /// Rounds that were to have the challenges `rs` were ended by a refusal with the error `e`,
    /// after `done` whole rounds and within the next one. The state is that after the whole
    /// rounds.
    pub open spec fn stops(
        self,
        rs: Seq<Ext>,
        pow_bits: PowBits,
        done: int,
        state: SumcheckView,
        now: Seq<Entry>,
        before: Seq<Entry>,
        e: ProofError,
    ) -> bool {
        &&& 0 <= done < rs.len()
        &&& self.trace(rs.take(done), pow_bits).len() <= taken(now, before) < self.trace(
            rs.take(done + 1),
            pow_bits,
        ).len()
        &&& state == self.bind_all(rs.take(done))
        &&& stopped(now, before, self.trace(rs, pow_bits), e)
    }

    /// The state with more constraints: the weights `ws` times the coefficients `r`, and the
    /// values that the polynomial is claimed to have under them.
    pub open spec fn with_equalities(
        self,
        ws: Seq<Seq<Ext>>,
        values: Seq<Ext>,
        r: Seq<Ext>,
    ) -> SumcheckView {
        SumcheckView {
            p: self.p,
            w: vadd(self.w, weighted_sum(ws, r, self.w.len())),
            sum: self.sum.plus(dot(r, values)),
        }
    }
}

/// The weights that pick out the values at the points.
pub open spec fn eq_vectors(points: Seq<Seq<Ext>>) -> Seq<Seq<Ext>> {
    Seq::new(points.len(), |i: int| crate::poly::evals::eq_weights(points[i]))
}

/// The points, as sequences.
pub open spec fn points_view(points: Seq<MultilinearPoint>) -> Seq<Seq<Ext>> {
    Seq::new(points.len(), |i: int| points[i]@)
}

/// The start of a sumcheck for the polynomial with coefficients `c` in `n` variables and the
/// constraints combined by the powers of `gamma`.
pub open spec fn start(
    c: Seq<Ext>,
    cs: Seq<crate::whir::statement::ConstraintView>,
    gamma: Ext,
    n: nat,
) -> SumcheckView {
    SumcheckView {
        p: hypercube(c),
        w: combined_weights(cs, gamma, n),
        sum: combined_sum(cs, gamma),
    }
}

/// A sumcheck in progress.
pub struct SumcheckSingle {
    pub evaluation_of_p: Vec<Ext>,
    pub weights: Vec<Ext>,
    pub sum: Ext,
}

impl View for SumcheckSingle {
    type V = SumcheckView;

    open spec fn view(&self) -> SumcheckView {
        SumcheckView { p: self.evaluation_of_p@, w: self.weights@, sum: self.sum }
    }
}

impl SumcheckSingle {
    /// Starts a sumcheck for a polynomial over the base field.
    pub fn from_base_coeffs(
        coeffs: &CoefficientList<crate::field::Felt>,
        statement: &Statement,
        combination_randomness: Ext,
    ) -> (r: SumcheckSingle)
        requires
            coeffs.wf(),
            statement.wf(),
            statement.num_variables == coeffs.num_variables,
        ensures
            r@ == start(
                crate::poly::coeffs::lift_all(coeffs@),
                statement@,
                combination_randomness,
                coeffs.num_variables as nat,
            ),
            r@.sized(coeffs.num_variables as nat),
    {
        Self::from_extension_coeffs(&coeffs.lift(), statement, combination_randomness)
    }

    /// Starts a sumcheck for a polynomial over the extension field.
    pub fn from_extension_coeffs(
        coeffs: &CoefficientList<Ext>,
        statement: &Statement,
        combination_randomness: Ext,
    ) -> (r: SumcheckSingle)
        requires
            coeffs.wf(),
            statement.wf(),
            statement.num_variables == coeffs.num_variables,
        ensures
            r@ == start(
                coeffs@,
                statement@,
                combination_randomness,
                coeffs.num_variables as nat,
            ),
            r@.sized(coeffs.num_variables as nat),
    {
        assert(coeffs.coeffs.len() == coeffs@.len());
        let (weights, sum) = statement.combine(combination_randomness);
        let evaluation_of_p: Vec<Ext> = to_evaluations(&coeffs.coeffs);
        SumcheckSingle { evaluation_of_p, weights, sum }
    }

    /// A copy of the state.
    pub fn duplicate(&self) -> (r: SumcheckSingle)
        ensures
            r@ == self@,
    {
        SumcheckSingle {
            evaluation_of_p: copy_vec(&self.evaluation_of_p),
            weights: copy_vec(&self.weights),
            sum: self.sum,
        }
    }

    /// Adds to the claim that the polynomial has the given values at the given points, each
    /// constraint times its coefficient.
    pub fn add_new_equality(
        &mut self,
        points: &Vec<MultilinearPoint>,
        evaluations: &Vec<Ext>,
        combination_randomness: &Vec<Ext>,
    )
        requires
            points@.len() == evaluations@.len() == combination_randomness@.len(),
            forall|i: int|
                0 <= i < points@.len() ==> old(self).weights@.len() == pow2(
                    (#[trigger] points@[i])@.len(),
                ),
        ensures
            final(self)@ == old(self)@.with_equalities(
                eq_vectors(points_view(points@)),
                evaluations@,
                combination_randomness@,
            ),
            final(self)@.w.len() == old(self)@.w.len(),
    {
        let n: usize = self.weights.len();
        let len: usize = points.len();
        let mut added: Vec<Ext> = zero_vector(n);
        let ghost vs = eq_vectors(points_view(points@));
        for i in 0..len
            invariant
                len == points@.len(),
                len == combination_randomness@.len(),
                n == self.weights@.len(),
                *self == *old(self),
                forall|i: int|
                    0 <= i < points@.len() ==> n == pow2((#[trigger] points@[i])@.len()),
                vs == eq_vectors(points_view(points@)),
                added@ == weighted_sum(vs.take(i as int), combination_randomness@, n as nat),
                added@.len() == n,
        {
            assert(n == pow2(points@[i as int]@.len()));
            let v: Vec<Ext> = eq_weights_at(&points[i]);
            added = add_scaled(&added, combination_randomness[i], &v);
            proof {
                assert(vs.take(i + 1).drop_last() =~= vs.take(i as int));
                assert(vs.take(i + 1).last() == v@);
                lemma_weighted_sum_len(vs.take(i + 1), combination_randomness@, n as nat);
            }
        }
        assert(vs.take(len as int) =~= vs);
        self.weights = add_vectors(&self.weights, &added);
        self.sum = self.sum.add(dot_product(combination_randomness, evaluations));
    }

    /// The polynomial of the next round.
    fn round_poly(&self) -> (r: Quadratic)
        requires
            self@.p.len() == self@.w.len(),
        ensures
            r == self@.round_poly(),
    {
        let len: usize = self.weights.len();
        let mut p0: Vec<Ext> = Vec::new();
        let mut w0: Vec<Ext> = Vec::new();
        let mut dp: Vec<Ext> = Vec::new();
        let mut dw: Vec<Ext> = Vec::new();
        let ghost (p, w) = (self@.p, self@.w);
        for i in 0..len / 2
            invariant
                p == self.evaluation_of_p@,
                w == self.weights@,
                len == p.len(),
                len == w.len(),
                p0@ == even(p).take(i as int),
                w0@ == even(w).take(i as int),
                dp@ == vsub(odd(p), even(p)).take(i as int),
                dw@ == vsub(odd(w), even(w)).take(i as int),
        {
            let (a0, a1) = (self.evaluation_of_p[2 * i], self.evaluation_of_p[2 * i + 1]);
            let (b0, b1) = (self.weights[2 * i], self.weights[2 * i + 1]);
            p0.push(a0);
            w0.push(b0);
            dp.push(a1.sub(a0));
            dw.push(b1.sub(b0));
            assert(p0@ =~= even(p).take(i + 1));
            assert(w0@ =~= even(w).take(i + 1));
            assert(dp@ =~= vsub(odd(p), even(p)).take(i + 1));
            assert(dw@ =~= vsub(odd(w), even(w)).take(i + 1));
        }
        assert(p0@ =~= even(p));
        assert(w0@ =~= even(w));
        assert(dp@ =~= vsub(odd(p), even(p)));
        assert(dw@ =~= vsub(odd(w), even(w)));
        let c0: Ext = dot_product(&p0, &w0);
        let c2: Ext = dot_product(&dp, &dw);
        let c1: Ext = self.sum.sub(c0.add(c0)).sub(c2);
        Quadratic { c0, c1, c2 }
    }

    /// Runs `rounds` rounds. The point that is returned has the challenges in the order of the
    /// variables, so the last challenge first.
    pub fn compute_sumcheck_polynomials<T: Transcript>(
        &mut self,
        prover_state: &mut T,
        rounds: usize,
        pow_bits: PowBits,
    ) -> (r: ProofResult<MultilinearPoint>)
        requires
            exists|n: nat| rounds <= n && old(self)@.sized(n),
        ensures
            match r {
                Ok(point) => {
                    let rs = point@.reverse();
                    &&& rs.len() == rounds
                    &&& all_canonical(rs)
                    &&& final(self)@ == old(self)@.bind_all(rs)
                    &&& final(prover_state).log() == old(prover_state).log() + old(self)@.trace(
                        rs,
                        pow_bits,
                    )
                },
                Err(e) => exists|rs: Seq<Ext>, done: int|
                    {
                        &&& rs.len() == rounds
                        &&& all_canonical(rs)
                        &&& #[trigger] old(self)@.stops(
                            rs,
                            pow_bits,
                            done,
                            final(self)@,
                            final(prover_state).log(),
                            old(prover_state).log(),
                            e,
                        )
                    },
            },
            forall|n: nat|
                r is Ok && #[trigger] old(self)@.sized(n) && rounds <= n ==> final(self)@.sized(
                    (n - rounds) as nat,
                ),
    {
        let ghost n = choose|n: nat| rounds <= n && old(self)@.sized(n);
        let ghost v = self@;
        let ghost log = prover_state.log();
        let mut rs: Vec<Ext> = Vec::new();
        assert(log + v.trace(rs@, pow_bits) =~= log);
        for i in 0..rounds
            invariant
                v == old(self)@,
                log == old(prover_state).log(),
                rounds <= n,
                rs@.len() == i,
                all_canonical(rs@),
                self@ == v.bind_all(rs@),
                self@.sized((n - i) as nat),
                prover_state.log() == log + v.trace(rs@, pow_bits),
        {
            proof {
                lemma_pow2_unfold((n - i) as nat);
            }
            let h: Quadratic = self.round_poly();
            let mut message: Vec<Ext> = Vec::new();
            message.push(h.value(Ext::zero()));
            message.push(h.value(Ext::one()));
            message.push(h.value(Ext { c0: 2, c1: 0 }));
            assert(message@ =~= self@.message());
            let ghost before = log + v.trace(rs@, pow_bits);
            let ghost none = zeros((rounds - i) as nat);
            let ghost blank = self@.round_steps(none[0], pow_bits);
            if let Err(e) = prover_state.add_scalars(&message) {
                proof {
                    assert(before + blank.take(0) =~= before);
                    lemma_stops(v, rs@, none, pow_bits, prover_state.log(), log, e);
                }
                return Err(e);
            }
            let r: Ext = match challenge_scalar(prover_state) {
                Ok(r) => r,
                Err(e) => {
                    proof {
                        assert(before + blank.take(1) =~= before.push(blank[0]));
                        lemma_stops(v, rs@, none, pow_bits, prover_state.log(), log, e);
                    }
                    return Err(e);
                },
            };
            let ghost two = seq![Entry::Scalars(self@.message()), Entry::Challenge(seq![r])];
            let ghost rest = none.update(0, r);
            assert(rs@.push(r).drop_last() =~= rs@);
            assert(prover_state.log() =~= before + two);
            if let Err(e) = challenge_pow_if_positive(prover_state, pow_bits) {
                proof {
                    lemma_stopped_after(prover_state.log(), before, two, pow_trace(pow_bits), e);
                    lemma_stops(v, rs@, rest, pow_bits, prover_state.log(), log, e);
                }
                return Err(e);
            }
            assert(prover_state.log() =~= log + v.trace(rs@.push(r), pow_bits));
            self.evaluation_of_p = restrict_pairs(&self.evaluation_of_p, r);
            self.weights = restrict_pairs(&self.weights, r);
            self.sum = h.value(r);
            rs.push(r);
        }
        proof {
            assert(rs@.reverse().reverse() =~= rs@);
            assert forall|m: nat| #[trigger] v.sized(m) && rounds <= m implies self@.sized(
                (m - rounds) as nat,
            ) by {
                lemma_pow2_injective(m, n);
            }
        }
        Ok(MultilinearPoint(reversed(&rs)))
    }
}

/// More challenges add steps.
pub proof fn lemma_trace_prefix(v: SumcheckView, rs: Seq<Ext>, k: int, pow_bits: PowBits)
    requires
        0 <= k <= rs.len(),
    ensures
        v.trace(rs.take(k), pow_bits).is_prefix_of(v.trace(rs, pow_bits)),
    decreases rs.len(),
{
    if k == rs.len() {
        assert(rs.take(k) =~= rs);
    } else {
        let rest = rs.drop_last();
        lemma_trace_prefix(v, rest, k, pow_bits);
        assert(rest.take(k) =~= rs.take(k));
        let (a, b) = (v.trace(rs.take(k), pow_bits), v.trace(rest, pow_bits));
        let whole = v.trace(rs, pow_bits);
        assert(whole.subrange(0, a.len() as int) =~= b.subrange(0, a.len() as int));
    }
}

/// A refusal in the round after those with the challenges `rs`.
proof fn lemma_stops(
    v: SumcheckView,
    rs: Seq<Ext>,
    more: Seq<Ext>,
    pow_bits: PowBits,
    now: Seq<Entry>,
    log: Seq<Entry>,
    e: ProofError,
)
    requires
        more.len() > 0,
        stopped(
            now,
            log + v.trace(rs, pow_bits),
            v.bind_all(rs).round_steps(more[0], pow_bits),
            e,
        ),
    ensures
        v.stops(rs + more, pow_bits, rs.len() as int, v.bind_all(rs), now, log, e),
{
    let all = rs + more;
    let k = rs.len() as int;
    let next = all.take(k + 1);
    assert(all.take(k) =~= rs);
    assert(next.drop_last() =~= rs);
    lemma_stopped_after(
        now,
        log,
        v.trace(rs, pow_bits),
        v.bind_all(rs).round_steps(more[0], pow_bits),
        e,
    );
    lemma_trace_prefix(v, all, k + 1, pow_bits);
    lemma_stopped_prefix(now, log, v.trace(next, pow_bits), v.trace(all, pow_bits), e);
}

impl Quadratic {
    /// The value at `t`.
    pub fn value(&self, t: Ext) -> (r: Ext)
        ensures
            r == self.at(t),
    {
        self.c0.add(t.mul(self.c1.add(t.mul(self.c2))))
    }
}

// What the rounds keep.

/// What is sent for zero and for one adds up to the claim.
pub proof fn law_message_sums(v: SumcheckView)
    requires
        v.sum.canonical(),
    ensures
        v.message()[0].plus(v.message()[1]) == v.sum,
{
    let h = v.round_poly();
    let d = h.c0.plus(h.c0);
    let x = v.sum.minus(d);
    lemma_dot_canonical(even(v.p), even(v.w));
    lemma_canonical(v.sum, d);
    lemma_canonical(x, h.c2);
    lemma_canonical(h.c1, h.c2);
    lemma_times_zero(h.c1.plus(Ext::zero_spec().times(h.c2)));
    lemma_zero(h.c0);
    lemma_dot_canonical(
        vsub(odd(v.p), even(v.p)),
        vsub(odd(v.w), even(v.w)),
    );
    lemma_one(h.c2);
    lemma_one(h.c1.plus(h.c2));
    lemma_minus_plus(x, h.c2);
    lemma_zero(x);
    // h(0) + h(1) = c0 + (c0 + x)
    lemma_plus_assoc(h.c0, h.c0, x);
    lemma_plus_comm(d, x);
    lemma_minus_plus(v.sum, d);
    lemma_zero(v.sum);
}

/// The product of two sums, multiplied out.
proof fn lemma_dot_expand(a: Seq<Ext>, b: Seq<Ext>, r: Ext, x: Seq<Ext>, y: Seq<Ext>)
    requires
        a.len() == b.len() == x.len() == y.len(),
    ensures
        dot(vadd(a, vscale(r, x)), vadd(b, vscale(r, y))) == dot(a, b).plus(
            r.times(dot(a, y).plus(dot(x, b)).plus(r.times(dot(x, y)))),
        ),
{
    let bry = vadd(b, vscale(r, y));
    lemma_dot_add(a, vscale(r, x), bry);
    lemma_dot_scale(r, x, bry);
    lemma_dot_add_right(a, b, vscale(r, y));
    lemma_dot_scale_right(a, r, y);
    lemma_dot_add_right(x, b, vscale(r, y));
    lemma_dot_scale_right(x, r, y);
    let (ab, ay, xb, xy) = (dot(a, b), dot(a, y), dot(x, b), r.times(dot(x, y)));
    lemma_plus_assoc(ab, r.times(ay), r.times(xb.plus(xy)));
    lemma_distrib(r, ay, xb.plus(xy));
    lemma_plus_assoc(ay, xb, xy);
}

/// If the claim holds, the polynomial of the round is the sum of the products with the last
/// variable set to its argument, so the claim of the next round holds.
pub proof fn law_bind_holds(v: SumcheckView, r: Ext, n: nat)
    requires
        n > 0,
        v.sized(n),
        all_canonical(v.p),
        all_canonical(v.w),
        v.holds(),
    ensures
        v.round_poly().at(r) == dot(restrict(v.p, r), restrict(v.w, r)),
        v.bind(r).holds(),
        v.bind(r).sized((n - 1) as nat),
        all_canonical(v.bind(r).p),
        all_canonical(v.bind(r).w),
{
    let h = v.round_poly();
    lemma_pow2_unfold(n);
    let (pe, po, we, wo) = (even(v.p), odd(v.p), even(v.w), odd(v.w));
    let (dp, dw) = (vsub(po, pe), vsub(wo, we));
    let one = Ext::one_spec();
    assert(vadd(pe, vscale(one, dp)) =~= po) by {
        assert forall|i: int| 0 <= i < po.len() implies #[trigger] vadd(pe, vscale(one, dp))[i]
            == po[i] by {
            lemma_canonical(po[i], pe[i]);
            lemma_one(dp[i]);
            lemma_difference(pe[i], po[i]);
        }
    }
    assert(vadd(we, vscale(one, dw)) =~= wo) by {
        assert forall|i: int| 0 <= i < wo.len() implies #[trigger] vadd(we, vscale(one, dw))[i]
            == wo[i] by {
            lemma_canonical(wo[i], we[i]);
            lemma_one(dw[i]);
            lemma_difference(we[i], wo[i]);
        }
    }
    lemma_dot_parity(v.p, v.w);
    lemma_dot_expand(pe, we, one, dp, dw);
    let mid = dot(pe, dw).plus(dot(dp, we));
    lemma_dot_canonical(dp, dw);
    lemma_one(h.c2);
    lemma_canonical(mid, h.c2);
    lemma_one(mid.plus(h.c2));
    // sum = c0 + (c0 + (mid + c2))
    let d = h.c0.plus(h.c0);
    lemma_plus_assoc(h.c0, h.c0, mid.plus(h.c2));
    lemma_plus_comm(d, mid.plus(h.c2));
    lemma_solve(mid.plus(h.c2), d, v.sum);
    lemma_canonical(dot(pe, dw), dot(dp, we));
    lemma_solve(mid, h.c2, mid.plus(h.c2));
    assert(h.c1 == mid);
    lemma_dot_expand(pe, we, r, dp, dw);
    lemma_vec_canonical(r, pe, vscale(r, dp));
    lemma_vec_canonical(r, we, vscale(r, dw));
}

/// Rounds keep a claim that holds.
pub proof fn law_bind_all_holds(v: SumcheckView, rs: Seq<Ext>, n: nat)
    requires
        rs.len() <= n,
        v.sized(n),
        all_canonical(v.p),
        all_canonical(v.w),
        v.holds(),
    ensures
        v.bind_all(rs).holds(),
        v.bind_all(rs).sized((n - rs.len()) as nat),
        all_canonical(v.bind_all(rs).p),
        all_canonical(v.bind_all(rs).w),
    decreases rs.len(),
{
    if rs.len() > 0 {
        law_bind_all_holds(v, rs.drop_last(), n);
        law_bind_holds(v.bind_all(rs.drop_last()), rs.last(), (n - rs.len() + 1) as nat);
    }
}

/// Rounds set the last variables of the polynomial to the challenges.
pub proof fn law_bind_all_is_fold(v: SumcheckView, c: Seq<Ext>, rs: Seq<Ext>, n: nat)
    requires
        rs.len() <= n,
        c.len() == pow2(n),
        all_canonical(c),
        v.p == hypercube(c),
    ensures
        v.bind_all(rs).p == hypercube(fold(c, rs.reverse())),
    decreases rs.len(),
{
    if rs.len() == 0 {
        assert(fold(c, rs.reverse()) == c);
    } else {
        let (rest, last) = (rs.drop_last(), seq![rs.last()]);
        law_bind_all_is_fold(v, c, rest, n);
        let folded = fold(c, rest.reverse());
        lemma_fold_len(c, rest.reverse(), n);
        lemma_fold_canonical(c, rest.reverse());
        law_restrict_is_fold(folded, rs.last(), (n - rest.len()) as nat);
        assert(rs.reverse() =~= last + rest.reverse());
        law_fold_compose(c, last, rest.reverse());
        assert(last.drop_last() =~= Seq::<Ext>::empty());
        assert(fold(folded, last) == fold_once(folded, rs.last())) by {
            reveal_with_fuel(fold, 2);
        }
    }
}

/// Constraints that the polynomial meets can be added to a claim that holds.
pub proof fn law_equalities_hold(
    v: SumcheckView,
    ws: Seq<Seq<Ext>>,
    values: Seq<Ext>,
    r: Seq<Ext>,
)
    requires
        v.holds(),
        v.p.len() == v.w.len(),
        ws.len() == values.len() == r.len(),
        forall|i: int| 0 <= i < ws.len() ==> (#[trigger] ws[i]).len() == v.p.len(),
        forall|i: int| 0 <= i < ws.len() ==> dot(v.p, #[trigger] ws[i]) == values[i],
    ensures
        v.with_equalities(ws, values, r).holds(),
{
    law_weighted_sum(v.p, ws, values, r);
    lemma_weighted_sum_len(ws, r, v.w.len());
    lemma_dot_add_right(v.p, v.w, weighted_sum(ws, r, v.w.len()));
}

/// Rounds set the last variables of the weights to the challenges: with the other variables at
/// `point`, the weights have the value that they had before with all variables set.
pub proof fn law_bind_all_weight(v: SumcheckView, rs: Seq<Ext>, point: Seq<Ext>)
    ensures
        extend(v.bind_all(rs).w, point) == extend(v.w, point + rs.reverse()),
    decreases rs.len(),
{
    if rs.len() == 0 {
        assert(point + rs.reverse() =~= point);
    } else {
        let (rest, last) = (rs.drop_last(), rs.last());
        law_bind_all_weight(v, rest, point.push(last));
        assert(point.push(last).drop_last() =~= point);
        assert(point.push(last) + rest.reverse() =~= point + rs.reverse());
    }
}

/// Each round halves both lists.
pub proof fn lemma_bind_all_sized(v: SumcheckView, rs: Seq<Ext>, n: nat)
    requires
        rs.len() <= n,
        v.sized(n),
    ensures
        v.bind_all(rs).sized((n - rs.len()) as nat),
    decreases rs.len(),
{
    if rs.len() > 0 {
        lemma_bind_all_sized(v, rs.drop_last(), n);
        lemma_pow2_unfold((n - rs.len() + 1) as nat);
    }
}

// What the messages say.

/// Twice an element, and a half of twice an element.
proof fn lemma_two(a: Ext)
    requires
        a.canonical(),
    ensures
        two_spec().times(a) == a.plus(a),
        (Ext { c0: 0x7FFF_FFFF_8000_0001, c1: 0 }).times(two_spec().times(a)) == a,
{
    let half = Ext { c0: 0x7FFF_FFFF_8000_0001, c1: 0 };
    let one = Ext::one_spec();
    assert(one.plus(one) == two_spec()) by {
        reveal(Ext::plus);
    }
    assert(half.times(two_spec()) == one) by {
        reveal(Ext::times);
    }
    lemma_one(a);
    lemma_distrib_right(one, one, a);
    lemma_times_assoc(half, two_spec(), a);
}

/// Equal sums with an equal first summand have an equal second one.
proof fn lemma_cancel(x: Ext, a: Ext, b: Ext)
    requires
        a.canonical(),
        b.canonical(),
        x.plus(a) == x.plus(b),
    ensures
        a == b,
{
    lemma_plus_comm(x, a);
    lemma_plus_comm(x, b);
    lemma_solve(a, x, x.plus(a));
    lemma_solve(b, x, x.plus(b));
}

/// The coefficients of the polynomial of the round are canonical.
proof fn lemma_round_poly_canonical(v: SumcheckView)
    ensures
        v.round_poly().c0.canonical(),
        v.round_poly().c1.canonical(),
        v.round_poly().c2.canonical(),
{
    let h = v.round_poly();
    lemma_dot_canonical(even(v.p), even(v.w));
    lemma_dot_canonical(vsub(odd(v.p), even(v.p)), vsub(odd(v.w), even(v.w)));
    lemma_canonical(v.sum.minus(h.c0.plus(h.c0)), h.c2);
}

/// The value of a polynomial of degree two by its coefficients, and its values at zero, at one and
/// at two.
proof fn lemma_degree_two(a: Seq<Ext>, t: Ext)
    requires
        a.len() == 3,
        all_canonical(a),
    ensures
        univariate(a, t) == a[0].plus(t.times(a[1].plus(t.times(a[2])))),
        univariate(a, Ext { c0: 0, c1: 0 }) == a[0],
        univariate(a, Ext { c0: 1, c1: 0 }) == a[0].plus(a[1].plus(a[2])),
        univariate(a, Ext { c0: 2, c1: 0 }) == a[0].plus(
            two_spec().times(a[1].plus(a[2]).plus(a[2])),
        ),
{
    let two = two_spec();
    let (zero, one) = (Ext::zero_spec(), Ext::one_spec());
    assert forall|x: Ext| #[trigger] univariate(a, x) == a[0].plus(
        x.times(a[1].plus(x.times(a[2]))),
    ) by {
        reveal_with_fuel(univariate, 4);
        assert(a.skip(1).skip(1).skip(1).len() == 0);
        lemma_times_zero(x);
        lemma_times_comm(x, zero);
        lemma_zero(a[2]);
        lemma_plus_comm(a[2], zero);
    }
    lemma_times_zero(a[1].plus(zero.times(a[2])));
    lemma_zero(a[0]);
    lemma_plus_comm(a[0], zero);
    lemma_canonical(a[1], a[2]);
    lemma_one(a[2]);
    lemma_one(a[1].plus(a[2]));
    lemma_two(a[2]);
    lemma_plus_assoc(a[1], a[2], a[2]);
}

/// Three values are sent, and they determine the next claim: for every challenge, the polynomial
/// of degree at most two that has the sent values at zero, at one and at two has the next claimed
/// sum at the challenge.
pub proof fn law_message_determines(v: SumcheckView, a: Seq<Ext>, r: Ext)
    requires
        a.len() == 3,
        all_canonical(a),
        univariate(a, Ext { c0: 0, c1: 0 }) == v.message()[0],
        univariate(a, Ext { c0: 1, c1: 0 }) == v.message()[1],
        univariate(a, Ext { c0: 2, c1: 0 }) == v.message()[2],
    ensures
        v.message().len() == 3,
        univariate(a, r) == v.bind(r).sum,
{
    let h = v.round_poly();
    let b = seq![h.c0, h.c1, h.c2];
    lemma_round_poly_canonical(v);
    lemma_degree_two(a, r);
    lemma_degree_two(b, r);
    lemma_degree_two(b, Ext::zero_spec());
    lemma_degree_two(b, Ext::one_spec());
    lemma_degree_two(b, two_spec());
    let (s, t) = (a[1].plus(a[2]), h.c1.plus(h.c2));
    let (x, y) = (s.plus(a[2]), t.plus(h.c2));
    lemma_canonical(a[1], a[2]);
    lemma_canonical(h.c1, h.c2);
    lemma_canonical(s, a[2]);
    lemma_canonical(t, h.c2);
    lemma_canonical(two_spec(), x);
    lemma_canonical(two_spec(), y);
    lemma_cancel(h.c0, s, t);
    lemma_cancel(h.c0, two_spec().times(x), two_spec().times(y));
    lemma_two(x);
    lemma_two(y);
    lemma_cancel(s, a[2], h.c2);
    lemma_plus_comm(a[1], a[2]);
    lemma_plus_comm(h.c1, h.c2);
    lemma_cancel(a[2], a[1], h.c1);
}

/// Two rounds in turn: the values that the second one sends for zero and for one add up to the
/// value, at the challenge between them, of the polynomial through the values of the first one.
pub proof fn law_next_message(v: SumcheckView, a: Seq<Ext>, r: Ext)
    requires
        a.len() == 3,
        all_canonical(a),
        univariate(a, Ext { c0: 0, c1: 0 }) == v.message()[0],
        univariate(a, Ext { c0: 1, c1: 0 }) == v.message()[1],
        univariate(a, Ext { c0: 2, c1: 0 }) == v.message()[2],
    ensures
        v.bind(r).message()[0].plus(v.bind(r).message()[1]) == univariate(a, r),
{
    let h = v.round_poly();
    law_message_determines(v, a, r);
    lemma_canonical(h.c0, r.times(h.c1.plus(r.times(h.c2))));
    law_message_sums(v.bind(r));
}

/// There is such a polynomial, so the next claim is its value, whatever the challenge.
pub proof fn law_message_interpolates(v: SumcheckView)
    ensures
        exists|a: Seq<Ext>|
            {
                &&& a.len() == 3
                &&& all_canonical(a)
                &&& #[trigger] univariate(a, Ext { c0: 0, c1: 0 }) == v.message()[0]
                &&& univariate(a, Ext { c0: 1, c1: 0 }) == v.message()[1]
                &&& univariate(a, Ext { c0: 2, c1: 0 }) == v.message()[2]
                &&& forall|r: Ext| #[trigger] univariate(a, r) == v.bind(r).sum
            },
{
    let h = v.round_poly();
    let b = seq![h.c0, h.c1, h.c2];
    lemma_round_poly_canonical(v);
    assert forall|r: Ext| #[trigger] univariate(b, r) == h.at(r) by {
        lemma_degree_two(b, r);
    }
    assert(univariate(b, Ext { c0: 0, c1: 0 }) == v.message()[0]);
}

/// Where the claim holds, the sent values are the sums of the products with the last variable at
/// zero, at one and at two.
pub proof fn law_message_is_sums(v: SumcheckView, n: nat)
    requires
        n > 0,
        v.sized(n),
        all_canonical(v.p),
        all_canonical(v.w),
        v.holds(),
    ensures
        forall|i: int|
            0 <= i < 3 ==> #[trigger] v.message()[i] == dot(
                restrict(v.p, Ext { c0: i as u64, c1: 0 }),
                restrict(v.w, Ext { c0: i as u64, c1: 0 }),
            ),
{
    assert forall|i: int| 0 <= i < 3 implies #[trigger] v.message()[i] == dot(
        restrict(v.p, Ext { c0: i as u64, c1: 0 }),
        restrict(v.w, Ext { c0: i as u64, c1: 0 }),
    ) by {
        law_bind_holds(v, Ext { c0: i as u64, c1: 0 }, n);
    }
}

/// What is sent when the claim is off by `d`: nothing changes at zero, and the values at one and
/// at two are off by once and by twice `d`.
pub proof fn law_message_of_claim(v: SumcheckView, u: SumcheckView, d: Ext)
    requires
        d.canonical(),
        u.p == v.p,
        u.w == v.w,
        u.sum == v.sum.plus(d),
    ensures
        u.message()[0] == v.message()[0],
        u.message()[1] == v.message()[1].plus(d),
        u.message()[2] == v.message()[2].plus(d.plus(d)),
{
    let (h, g) = (v.round_poly(), u.round_poly());
    let (b, c) = (seq![h.c0, h.c1, h.c2], seq![g.c0, g.c1, g.c2]);
    let zero = Ext::zero_spec();
    lemma_round_poly_canonical(v);
    lemma_round_poly_canonical(u);
    lemma_zero(d);
    lemma_plus_comm(d, zero);
    lemma_solve(d, zero, d);
    let e = h.c0.plus(h.c0);
    lemma_canonical(h.c0, h.c0);
    lemma_zero(e);
    lemma_zero(h.c2);
    lemma_plus_comm(e, zero);
    lemma_plus_comm(h.c2, zero);
    // c1 is off by d
    lemma_minus_swap(v.sum, d, e, zero);
    lemma_minus_swap(v.sum.minus(e), d, h.c2, zero);
    assert(g.c1 == h.c1.plus(d));
    lemma_degree_two(b, zero);
    lemma_degree_two(c, zero);
    lemma_degree_two(b, Ext::one_spec());
    lemma_degree_two(c, Ext::one_spec());
    lemma_degree_two(b, two_spec());
    lemma_degree_two(c, two_spec());
    // c0 + ((c1 + d) + c2) = (c0 + (c1 + c2)) + d
    let s = h.c1.plus(h.c2);
    lemma_plus_swap(h.c1, d, h.c2, zero);
    lemma_plus_assoc(h.c0, s, d);
    // c0 + 2 (((c1 + d) + c2) + c2) = (c0 + 2 ((c1 + c2) + c2)) + 2 d
    lemma_plus_swap(s, d, h.c2, zero);
    let t = s.plus(h.c2);
    lemma_distrib(two_spec(), t, d);
    lemma_two(d);
    lemma_plus_assoc(h.c0, two_spec().times(t), d.plus(d));
}

/// The steps of a sumcheck: in each round the three values are sent and one challenge is received,
/// and right behind it stands the work, where its difficulty is positive. The state that the next
/// round starts from has the last variable set to the challenge.
pub proof fn law_sumcheck_steps(v: SumcheckView, rs: Seq<Ext>, bits: PowBits, i: int)
    requires
        0 <= i < rs.len(),
    ensures
        0 < bits.0 <= 0x7FF0_0000_0000_0000 ==> {
            &&& v.trace(rs, bits).len() == 3 * rs.len()
            &&& v.trace(rs, bits)[3 * i] == Entry::Scalars(v.bind_all(rs.take(i)).message())
            &&& v.trace(rs, bits)[3 * i + 1] == Entry::Challenge(seq![rs[i]])
            &&& v.trace(rs, bits)[3 * i + 2] == Entry::Pow(bits)
        },
        !(0 < bits.0 <= 0x7FF0_0000_0000_0000) ==> {
            &&& v.trace(rs, bits).len() == 2 * rs.len()
            &&& v.trace(rs, bits)[2 * i] == Entry::Scalars(v.bind_all(rs.take(i)).message())
            &&& v.trace(rs, bits)[2 * i + 1] == Entry::Challenge(seq![rs[i]])
        },
        v.bind_all(rs.take(0)) == v,
        v.bind_all(rs.take(i + 1)) == v.bind_all(rs.take(i)).bind(rs[i]),
        v.bind_all(rs.take(rs.len() as int)) == v.bind_all(rs),
    decreases rs.len(),
{
    let rest = rs.drop_last();
    assert(rs.take(i + 1).drop_last() =~= rs.take(i));
    assert(rs.take(rs.len() as int) =~= rs);
    assert(rs.take(0) =~= Seq::<Ext>::empty());
    if rest.len() > 0 {
        law_sumcheck_steps(v, rest, bits, if i < rest.len() {
            i
        } else {
            0
        });
    }
    if i < rest.len() {
        assert(rest.take(i) =~= rs.take(i));
    } else {
        assert(rs.take(i) =~= rest);
    }
}

/// A sumcheck stands for the lists and the claim that it holds, and points for their coordinates.
pub proof fn law_sumcheck_view(prover: SumcheckSingle, points: Seq<MultilinearPoint>)
    ensures
        prover@.p == prover.evaluation_of_p@,
        prover@.w == prover.weights@,
        prover@.sum == prover.sum,
        points_view(points).len() == points.len(),
        forall|i: int| 0 <= i < points.len() ==> #[trigger] points_view(points)[i] == points[i].0@,
{
}

/// More constraints leave the polynomial as it is. With the powers of `gamma` for coefficients,
/// the claim grows by the polynomial in one variable that has the values for coefficients, at
/// `gamma`, and each weight by the one that has the weights of the constraints there.
pub proof fn law_equalities(
    v: SumcheckView,
    ws: Seq<Seq<Ext>>,
    values: Seq<Ext>,
    gamma: Ext,
    j: int,
)
    requires
        ws.len() == values.len(),
        all_canonical(values),
        forall|i: int| 0 <= i < ws.len() ==> (#[trigger] ws[i]).len() == v.w.len(),
        forall|i: int| 0 <= i < ws.len() ==> all_canonical(#[trigger] ws[i]),
        0 <= j < v.w.len(),
    ensures
        ({
            let u = v.with_equalities(ws, values, powers(gamma, ws.len()));
            let column = Seq::new(ws.len(), |i: int| ws[i][j]);
            &&& u.p == v.p
            &&& u.w.len() == v.w.len()
            &&& u.w[j] == v.w[j].plus(univariate(column, gamma))
            &&& u.sum == v.sum.plus(univariate(values, gamma))
        }),
{
    let column = Seq::new(ws.len(), |i: int| ws[i][j]);
    law_weighted_sum_entry(ws, powers(gamma, ws.len()), v.w.len(), j);
    law_univariate(values, gamma);
    law_univariate(column, gamma);
}

/// A sumcheck that was refused has the state after the rounds that were taken as a whole: a round
/// is three steps where there is work in it, and two otherwise.
pub proof fn law_sumcheck_stops(
    v: SumcheckView,
    rs: Seq<Ext>,
    bits: PowBits,
    done: int,
    state: SumcheckView,
    now: Seq<Entry>,
    before: Seq<Entry>,
    e: ProofError,
)
    requires
        v.stops(rs, bits, done, state, now, before, e),
    ensures
        ({
            let steps = now.len() - before.len() - 1;
            &&& 0 <= done < rs.len()
            &&& 0 < bits.0 <= 0x7FF0_0000_0000_0000 ==> 3 * done <= steps < 3 * (done + 1)
            &&& !(0 < bits.0 <= 0x7FF0_0000_0000_0000) ==> 2 * done <= steps < 2 * (done + 1)
            &&& state == v.bind_all(rs.take(done))
            &&& forall|i: int|
                0 <= i < steps ==> now[before.len() + i] == #[trigger] v.trace(rs, bits)[i]
            &&& now.last() is Refused
            &&& now.last()->Refused_1 == e
        }),
{
    law_stopped(now, before, v.trace(rs, bits), e);
    law_sumcheck_steps(v, rs.take(done + 1), bits, 0);
    if done > 0 {
        law_sumcheck_steps(v, rs.take(done), bits, 0);
    }
    let steps = now.len() - before.len() - 1;
    assert forall|i: int| 0 <= i < steps implies now[before.len() + i] == #[trigger] v.trace(
        rs,
        bits,
    )[i] by {
        assert(now[before.len() + i] == v.trace(rs, bits)[before.len() + i - before.len()]);
    }
}

} // verus!
