//! The opening of queried rows.
use crate::domain::lemma_pow2_injective;
use crate::field::{Ext, Felt};
use crate::merkle::{open_base_rows, open_ext_rows, openings_view, Leafs, Proof};
use crate::poly::coeffs::{evaluate, lift_vec, CoefficientList};
use crate::poly::multilinear::MultilinearPoint;
use crate::poly::vector::copy_vec;
use crate::whir::committer::lift_rows;
use crate::whir::prover::round::{RoundState, RoundView};
use vstd::arithmetic::power2::pow2;
use vstd::prelude::*;

verus! {

/// Rows of a commitment that were opened, with their authentication paths.
pub enum Opened {
    /// Rows of the first commitment.
    Commitment((Leafs<Felt>, Proof)),
    /// Rows of the commitment of a round.
    Round((Leafs<Ext>, Proof)),
}

impl Opened {
    /// The rows, in the extension field.
    pub open spec fn leaves(self) -> Seq<Seq<Ext>> {
        match self {
            Opened::Commitment(opened) => lift_rows(openings_view(opened).leaves),
            Opened::Round(opened) => openings_view(opened).leaves,
        }
    }

    /// These are the rows of the last commitment with the given indices.
    pub open spec fn answers(self, s: RoundView, indices: Seq<usize>) -> bool {
        match (s.ext_tree, self) {
            (None, Opened::Commitment(opened)) => openings_view(opened) == s.base_tree.open(
                indices,
            ),
            (Some(tree), Opened::Round(opened)) => openings_view(opened) == tree.open(indices),
            _ => false,
        }
    }

    /// The values at `point` of the rows, each a list of coefficients.
    pub fn evaluate(&self, point: &MultilinearPoint) -> (r: Vec<Ext>)
        requires
            forall|i: int|
                0 <= i < self.leaves().len() ==> (#[trigger] self.leaves()[i]).len() == pow2(
                    point@.len(),
                ),
        ensures
            r@ == Seq::new(self.leaves().len(), |i: int| evaluate(self.leaves()[i], point@)),
    {
        let n: usize = match self {
            Opened::Commitment(opened) => opened.0.len(),
            Opened::Round(opened) => opened.0.len(),
        };
        let mut r: Vec<Ext> = Vec::new();
        for i in 0..n
            invariant
                n == self.leaves().len(),
                forall|i: int|
                    0 <= i < self.leaves().len() ==> (#[trigger] self.leaves()[i]).len() == pow2(
                        point@.len(),
                    ),
                r@.len() == i,
                forall|k: int| 0 <= k < i ==> r@[k] == evaluate(self.leaves()[k], point@),
        {
            let leaf: Vec<Ext> = match self {
                Opened::Commitment(opened) => lift_vec(&opened.0[i]),
                Opened::Round(opened) => copy_vec(&opened.0[i]),
            };
            assert(leaf@ == self.leaves()[i as int]);
            let leaf: CoefficientList<Ext> = CoefficientList::new(leaf);
            proof {
                lemma_pow2_injective(leaf.num_variables as nat, point@.len());
            }
            r.push(leaf.evaluate(point));
        }
        assert(r@ =~= Seq::new(self.leaves().len(), |i: int| evaluate(self.leaves()[i], point@)));
        r
    }
}

impl RoundState {
    /// Opens the queried rows of the last commitment.
    pub fn open_queries(&self, indices: &Vec<usize>) -> (r: Opened)
        requires
            self@.leaves_shaped(),
            forall|i: int|
                0 <= i < indices@.len() ==> (#[trigger] indices@[i]) < pow2(self@.log_height()),
        ensures
            r.answers(self@, indices@),
    {
        match &self.merkle_prover_data {
            None => Opened::Commitment(
                open_base_rows(indices, &self.commitment_merkle_prover_data),
            ),
            Some(data) => Opened::Round(open_ext_rows(indices, data)),
        }
    }

    /// The values of opened rows at the folding randomness.
    pub fn evaluate_opened(&self, opened: &Opened, indices: &Vec<usize>) -> (answers: Vec<Ext>)
        requires
            self@.leaves_shaped(),
            forall|i: int|
                0 <= i < indices@.len() ==> (#[trigger] indices@[i]) < pow2(self@.log_height()),
            opened.answers(self@, indices@),
        ensures
            answers@ == self@.stir_answers(indices@),
    {
        let ghost s = self@;
        assert(opened.leaves().len() == indices@.len());
        assert forall|i: int| 0 <= i < indices@.len() implies (#[trigger] opened.leaves()[i])
            == s.leaf(indices@[i]) && opened.leaves()[i].len() == pow2(s.folding.len()) by {
            assert(indices@[i] < pow2(s.log_height()));
            match s.ext_tree {
                None => {
                    assert(s.base_tree.rows[indices@[i] as int].len() == pow2(s.folding.len()));
                },
                Some(tree) => {
                    assert(tree.rows[indices@[i] as int].len() == pow2(s.folding.len()));
                },
            }
        }
        let answers: Vec<Ext> = opened.evaluate(&self.folding_randomness);
        assert(answers@ =~= s.stir_answers(indices@));
        answers
    }

    /// Keeps opened rows for the proof.
    pub(crate) fn record(&mut self, opened: Opened, Ghost(indices): Ghost<Seq<usize>>)
        requires
            opened.answers(old(self)@, indices),
        ensures
            final(self)@ == old(self)@.with_openings(indices),
            final(self).keeps(old(self)),
            final(self).sumcheck_prover == old(self).sumcheck_prover,
            final(self).randomness_vec == old(self).randomness_vec,
    {
        let ghost s = self@;
        match opened {
            Opened::Commitment(opened) => {
                self.commitment_merkle_proof = Some(opened);
            },
            Opened::Round(opened) => {
                self.merkle_proofs.push(opened);
                assert(self@.merkle_proofs =~= s.merkle_proofs.push(openings_view(opened)));
            },
        }
        assert(self@ =~= s.with_openings(indices));
    }
}

} // verus!
