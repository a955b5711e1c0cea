//! What is claimed of a committed polynomial: weighted sums of its values on the hypercube.
use crate::field::Ext;
use crate::poly::coeffs::{evaluate, law_univariate, univariate};
use crate::poly::evals::{
    eq_weights, eq_weights_at, hypercube, law_eq_weights, lemma_eq_weights_len, EvaluationsList,
};
use crate::poly::multilinear::MultilinearPoint;
use crate::poly::vector::{
    add_scaled, all_canonical, copy_vec, dot, dot_product, law_weighted_sum, law_weighted_sum_entry,
    lemma_weighted_sum_len, powers, weighted_sum, zero_vector,
};
use crate::utils::expand_randomness;
use vstd::arithmetic::power2::pow2;
use vstd::prelude::*;

verus! {

/// The weights of a constraint, as sequences.
#[verifier::ext_equal]
pub enum WeightsView {
    /// The weights that pick out the value at a point.
    Evaluation(Seq<Ext>),
    /// Any weights, by their values on the hypercube.
    Linear(Seq<Ext>),
}

impl WeightsView {
    /// The weight of each vertex of the hypercube.
    pub open spec fn vector(self) -> Seq<Ext> {
        match self {
            WeightsView::Evaluation(point) => eq_weights(point),
            WeightsView::Linear(weight) => weight,
        }
    }

    /// The weights are for polynomials in `n` variables.
    pub open spec fn fits(self, n: nat) -> bool {
        match self {
            WeightsView::Evaluation(point) => point.len() == n,
            WeightsView::Linear(weight) => weight.len() == pow2(n),
        }
    }
}

/// The weights of a constraint.
pub enum Weights {
    /// The weights that pick out the value at a point.
    Evaluation { point: MultilinearPoint },
    /// Any weights, by their values on the hypercube.
    Linear { weight: EvaluationsList },
}

impl View for Weights {
    type V = WeightsView;

    open spec fn view(&self) -> WeightsView {
        match *self {
            Weights::Evaluation { point } => WeightsView::Evaluation(point@),
            Weights::Linear { weight } => WeightsView::Linear(weight@),
        }
    }
}

impl Weights {
    /// The weights are for polynomials in `n` variables.
    pub open spec fn wf(&self, n: usize) -> bool {
        match *self {
            Weights::Evaluation { point } => point@.len() == n,
            Weights::Linear { weight } => weight.num_variables == n && weight.wf(),
        }
    }

    /// The weights that pick out the value at `point`.
    pub fn evaluation(point: MultilinearPoint) -> (r: Weights)
        ensures
            r@ == WeightsView::Evaluation(point@),
            point@.len() <= usize::MAX ==> r.wf(point@.len() as usize),
    {
        Weights::Evaluation { point }
    }

    /// The weights with the values `weight` on the hypercube.
    pub fn linear(weight: EvaluationsList) -> (r: Weights)
        ensures
            r@ == WeightsView::Linear(weight@),
            weight.wf() ==> r.wf(weight.num_variables),
    {
        Weights::Linear { weight }
    }

    /// The weight of each vertex of the hypercube.
    pub fn to_vector(&self, n: usize) -> (r: Vec<Ext>)
        requires
            self.wf(n),
            pow2(n as nat) <= usize::MAX,
        ensures
            r@ == self@.vector(),
            r@.len() == pow2(n as nat),
    {
        match self {
            Weights::Evaluation { point } => eq_weights_at(point),
            Weights::Linear { weight } => copy_vec(&weight.evals),
        }
    }
}

/// A constraint: weights, and what the weighted sum is to be.
pub type ConstraintView = (WeightsView, Ext);

/// The weight vectors of the constraints.
pub open spec fn vectors(cs: Seq<ConstraintView>) -> Seq<Seq<Ext>> {
    Seq::new(cs.len(), |i: int| cs[i].0.vector())
}

/// What the weighted sums are to be.
pub open spec fn values(cs: Seq<ConstraintView>) -> Seq<Ext> {
    Seq::new(cs.len(), |i: int| cs[i].1)
}

/// The combination by the powers of `gamma` of the weights, in `n` variables.
pub open spec fn combined_weights(cs: Seq<ConstraintView>, gamma: Ext, n: nat) -> Seq<Ext> {
    weighted_sum(vectors(cs), powers(gamma, cs.len()), pow2(n))
}

/// The combination by the powers of `gamma` of what the weighted sums are to be.
pub open spec fn combined_sum(cs: Seq<ConstraintView>, gamma: Ext) -> Ext {
    dot(powers(gamma, cs.len()), values(cs))
}

/// The polynomial with coefficients `c`, in `n` variables, meets the constraints.
pub open spec fn satisfies(c: Seq<Ext>, cs: Seq<ConstraintView>, n: nat) -> bool {
    forall|i: int|
        0 <= i < cs.len() ==> (#[trigger] cs[i]).0.fits(n) && dot(hypercube(c), cs[i].0.vector())
            == cs[i].1
}

/// A polynomial that meets the constraints meets their combination.
pub proof fn law_combine(c: Seq<Ext>, cs: Seq<ConstraintView>, gamma: Ext, n: nat)
    requires
        c.len() == pow2(n),
        satisfies(c, cs, n),
    ensures
        dot(hypercube(c), combined_weights(cs, gamma, n)) == combined_sum(cs, gamma),
{
    crate::poly::evals::lemma_hypercube_len(c, n);
    assert forall|i: int| 0 <= i < cs.len() implies (#[trigger] vectors(cs)[i]).len() == pow2(
        n,
    ) && dot(hypercube(c), vectors(cs)[i]) == values(cs)[i] by {
        assert(cs[i].0.fits(n));
        if let WeightsView::Evaluation(point) = cs[i].0 {
            lemma_eq_weights_len(point);
        }
    }
    law_weighted_sum(hypercube(c), vectors(cs), values(cs), powers(gamma, cs.len()));
}

/// Constraints on a polynomial in `num_variables` variables.
pub struct Statement {
    pub num_variables: usize,
    pub constraints: Vec<(Weights, Ext)>,
}

/// The constraints, as sequences.
pub open spec fn constraints_view(cs: Seq<(Weights, Ext)>) -> Seq<ConstraintView> {
    Seq::new(cs.len(), |i: int| (cs[i].0@, cs[i].1))
}

impl View for Statement {
    type V = Seq<ConstraintView>;

    open spec fn view(&self) -> Seq<ConstraintView> {
        constraints_view(self.constraints@)
    }
}

impl Statement {
    /// All weights are for polynomials in `num_variables` variables.
    pub open spec fn wf(&self) -> bool {
        forall|i: int|
            0 <= i < self.constraints@.len() ==> (#[trigger] self.constraints@[i]).0.wf(
                self.num_variables,
            )
    }

    /// A statement without constraints.
    pub fn new(num_variables: usize) -> (r: Statement)
        ensures
            r.num_variables == num_variables,
            r@ == Seq::<ConstraintView>::empty(),
            r.wf(),
    {
        let r = Statement { num_variables, constraints: Vec::new() };
        assert(r@ =~= Seq::<ConstraintView>::empty());
        r
    }

    pub fn num_variables(&self) -> (n: usize)
        ensures
            n == self.num_variables,
    {
        self.num_variables
    }

    /// Adds a constraint behind the others.
    pub fn add_constraint(&mut self, weights: Weights, sum: Ext)
        requires
            weights.wf(old(self).num_variables),
        ensures
            final(self)@ == old(self)@.push((weights@, sum)),
            final(self).num_variables == old(self).num_variables,
            old(self).wf() ==> final(self).wf(),
    {
        self.constraints.push((weights, sum));
        assert(self@ =~= old(self)@.push((weights@, sum)));
    }

    /// Adds constraints before the others.
    pub fn add_constraints_in_front(&mut self, constraints: Vec<(Weights, Ext)>)
        requires
            forall|i: int|
                0 <= i < constraints@.len() ==> (#[trigger] constraints@[i]).0.wf(
                    old(self).num_variables,
                ),
        ensures
            final(self)@ == constraints_view(constraints@) + old(self)@,
            final(self).num_variables == old(self).num_variables,
            old(self).wf() ==> final(self).wf(),
    {
        let mut all: Vec<(Weights, Ext)> = constraints;
        all.append(&mut self.constraints);
        self.constraints = all;
        assert(self@ =~= constraints_view(constraints@) + old(self)@);
    }

    /// Combines the constraints by the powers of `gamma` into weights and a sum.
    pub fn combine(&self, gamma: Ext) -> (r: (Vec<Ext>, Ext))
        requires
            self.wf(),
            pow2(self.num_variables as nat) <= usize::MAX,
        ensures
            r.0@ == combined_weights(self@, gamma, self.num_variables as nat),
            r.0@.len() == pow2(self.num_variables as nat),
            r.1 == combined_sum(self@, gamma),
    {
        let n: usize = self.num_variables;
        let len: usize = self.constraints.len();
        let r: Vec<Ext> = expand_randomness(gamma, len);
        let mut weights: Vec<Ext> = zero_vector(crate::domain::two_to_the(n));
        let mut sums: Vec<Ext> = Vec::new();
        let ghost vs = vectors(self@);
        for i in 0..len
            invariant
                self.wf(),
                pow2(n as nat) <= usize::MAX,
                n == self.num_variables,
                len == self.constraints@.len(),
                len == r@.len(),
                vs == vectors(self@),
                weights@ == weighted_sum(vs.take(i as int), r@, pow2(n as nat)),
                weights@.len() == pow2(n as nat),
                sums@ == values(self@).take(i as int),
        {
            let v: Vec<Ext> = self.constraints[i].0.to_vector(n);
            weights = add_scaled(&weights, r[i], &v);
            sums.push(self.constraints[i].1);
            proof {
                assert(vs.take(i + 1).drop_last() =~= vs.take(i as int));
                assert(vs.take(i + 1).last() == v@);
                lemma_weighted_sum_len(vs.take(i + 1), r@, pow2(n as nat));
                assert(sums@ =~= values(self@).take(i + 1));
            }
        }
        assert(vs.take(len as int) =~= vs);
        assert(sums@ =~= values(self@));
        let sum: Ext = dot_product(&r, &sums);
        (weights, sum)
    }
}

// What the combination is.

/// The weights of a constraint on the value at a point pick out that value, and other weights are
/// as given.
pub proof fn law_weights(w: WeightsView, c: Seq<Ext>, n: nat)
    requires
        w.fits(n),
        c.len() == pow2(n),
        all_canonical(c),
    ensures
        w.vector().len() == pow2(n),
        w matches WeightsView::Evaluation(point) ==> dot(hypercube(c), w.vector()) == evaluate(
            c,
            point,
        ),
        w matches WeightsView::Linear(weight) ==> w.vector() == weight,
{
    if let WeightsView::Evaluation(point) = w {
        lemma_eq_weights_len(point);
        law_eq_weights(c, point);
    }
}

/// The combined claim is the polynomial in one variable that has the claims for coefficients, at
/// `gamma`; and each combined weight is the one that has the weights there for coefficients.
pub proof fn law_combined(cs: Seq<ConstraintView>, gamma: Ext, n: nat, j: int)
    requires
        forall|i: int|
            0 <= i < cs.len() ==> (#[trigger] cs[i]).0.fits(n) && cs[i].1.canonical()
                && all_canonical(cs[i].0.vector()),
        0 <= j < pow2(n),
    ensures
        ({
            let claims = Seq::new(cs.len(), |i: int| cs[i].1);
            let column = Seq::new(cs.len(), |i: int| cs[i].0.vector()[j]);
            &&& combined_sum(cs, gamma) == univariate(claims, gamma)
            &&& combined_weights(cs, gamma, n).len() == pow2(n)
            &&& combined_weights(cs, gamma, n)[j] == univariate(column, gamma)
        }),
{
    let claims = Seq::new(cs.len(), |i: int| cs[i].1);
    let column = Seq::new(cs.len(), |i: int| cs[i].0.vector()[j]);
    let vs = vectors(cs);
    assert forall|i: int| 0 <= i < vs.len() implies (#[trigger] vs[i]).len() == pow2(n) by {
        assert(cs[i].0.fits(n));
        if let WeightsView::Evaluation(point) = cs[i].0 {
            lemma_eq_weights_len(point);
        }
    }
    assert forall|i: int| 0 <= i < cs.len() implies (#[trigger] column[i]).canonical() by {
        assert(cs[i].0.fits(n) && all_canonical(cs[i].0.vector()));
        assert(vs[i].len() == pow2(n));
        assert(cs[i].0.vector()[j].canonical());
    }
    assert forall|i: int| 0 <= i < cs.len() implies (#[trigger] claims[i]).canonical() by {
        assert(cs[i].1.canonical());
    }
    law_weighted_sum_entry(vs, powers(gamma, cs.len()), pow2(n), j);
    assert(Seq::new(vs.len(), |i: int| vs[i][j]) =~= column);
    assert(values(cs) =~= claims);
    law_univariate(claims, gamma);
    law_univariate(column, gamma);
}

/// A statement stands for its constraints in their order, each by its weights and its claim.
pub proof fn law_statement_view(statement: Statement)
    ensures
        statement@.len() == statement.constraints@.len(),
        forall|i: int|
            0 <= i < statement@.len() ==> {
                &&& (#[trigger] statement@[i]).1 == statement.constraints@[i].1
                &&& statement.constraints@[i].0 matches Weights::Evaluation { point }
                    ==> statement@[i].0 == WeightsView::Evaluation(point.0@)
                &&& statement.constraints@[i].0 matches Weights::Linear { weight }
                    ==> statement@[i].0 == WeightsView::Linear(weight.evals@)
            },
{
}

} // verus!
