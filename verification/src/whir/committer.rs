//! The commitment to a polynomial.
use crate::domain::{lemma_pow2_monotone, two_to_the};
use crate::encoding::{encode_base, encoded_rows};
use crate::fiat_shamir::{lemma_stopped_after, stopped, Entry, ProofResult, Transcript};
use crate::field::{Ext, Felt};
use crate::merkle::{
    base_commitment, base_tree_view, commit_base_matrix, lemma_row_bounds, lemma_rows_shape,
    rows_of, BaseTree,
};
use crate::poly::coeffs::{lift_all, CoefficientList};
use crate::poly::vector::{all_canonical, zeros};
use crate::whir::parameters::WhirConfig;
use crate::whir::utils::{ood_answers, ood_trace, sample_ood_points};
use vstd::arithmetic::power2::pow2;
use vstd::prelude::*;

verus! {

/// A committed polynomial, with the values that were given at points out of the domain.
pub struct Witness {
    pub polynomial: CoefficientList<Felt>,
    pub prover_data: BaseTree,
    pub ood_points: Vec<Ext>,
    pub ood_answers: Vec<Ext>,
}

impl Witness {
    /// The tree has the shape that the parameters ask for, and each point has its answer.
    pub open spec fn wf(&self, config: &WhirConfig) -> bool {
        let factor = config.folding_factor.at(0);
        &&& self.polynomial.wf()
        &&& self.ood_points@.len() == self.ood_answers@.len()
        &&& base_tree_view(self.prover_data).shaped(
            (config.log_domain(0) - factor) as nat,
            factor,
        )
    }
}

/// The rows, each lifted to the extension field.
pub open spec fn lift_rows(rows: Seq<Seq<Felt>>) -> Seq<Seq<Ext>> {
    Seq::new(rows.len(), |i: int| lift_all(rows[i]))
}

/// Writes commitments to polynomials.
pub struct CommitmentWriter<'a>(pub &'a WhirConfig);

impl<'a> CommitmentWriter<'a> {
    /// Commits to a polynomial and samples it out of the domain.
    pub fn commit<T: Transcript>(
        &self,
        prover_state: &mut T,
        polynomial: CoefficientList<Felt>,
    ) -> (r: ProofResult<Witness>)
        requires
            self.0.supported(),
            polynomial.wf(),
            polynomial.num_variables == self.0.variables(),
            self.0.variables() <= self.0.log_domain(0) <= self.0.folding_factor.at(0) + 32,
        ensures
            ({
                let c = lift_all(polynomial@);
                let n = self.0.variables();
                match r {
                    Ok(w) => {
                        let tree = base_tree_view(w.prover_data);
                        let (root, paths) = base_commitment(tree.rows);
                        &&& w.wf(self.0)
                        &&& w.polynomial == polynomial
                        &&& lift_rows(tree.rows) == encoded_rows(
                            c,
                            self.0.log_domain(0),
                            self.0.folding_factor.at(0),
                        )
                        &&& tree.paths == paths
                        &&& w.ood_points@.len() == self.0.committment_ood_samples
                        &&& w.ood_answers@ == ood_answers(c, w.ood_points@, n)
                        &&& final(prover_state).log() == old(prover_state).log() + seq![
                            Entry::Digest(root),
                        ] + ood_trace(c, w.ood_points@, n)
                    },
                    Err(e) => exists|rows: Seq<Seq<Felt>>, points: Seq<Ext>|
                        {
                            &&& lift_rows(rows) == encoded_rows(
                                c,
                                self.0.log_domain(0),
                                self.0.folding_factor.at(0),
                            )
                            &&& points.len() == self.0.committment_ood_samples
                            &&& all_canonical(points)
                            &&& stopped(
                                final(prover_state).log(),
                                old(prover_state).log(),
                                seq![Entry::Digest((#[trigger] base_commitment(rows)).0)]
                                    + #[trigger] ood_trace(c, points, n),
                                e,
                            )
                        },
                }
            }),
    {
        let config: &WhirConfig = self.0;
        let log_size: usize = config.starting_domain.log_size;
        let factor: usize = config.folding_factor.at_round(0);
        let ghost log = prover_state.log();
        let ghost c = lift_all(polynomial@);
        let ghost n = config.variables();
        proof {
            assert(config.folding_factor.at(0) + 0 < log_size);
            lemma_pow2_monotone(n, log_size as nat);
            lemma_pow2_monotone(factor as nat, log_size as nat);
        }
        let width: usize = two_to_the(factor);
        let values: Vec<Felt> = encode_base(&polynomial.coeffs, log_size, factor);
        proof {
            lemma_rows(values@, log_size as nat, factor as nat);
        }
        let (root, prover_data) = commit_base_matrix(&values, width);
        let ghost tree = base_tree_view(prover_data);
        let ghost sent = seq![Entry::Digest(root@)];
        assert(base_commitment(tree.rows).0 == root@);
        let lifted: CoefficientList<Ext> = polynomial.lift();
        if let Err(e) = prover_state.add_digest(&root) {
            proof {
                let points = zeros(config.committment_ood_samples as nat);
                let whole = sent + ood_trace(c, points, n);
                assert(log + whole.take(0) =~= log);
                assert(stopped(prover_state.log(), log, whole, e));
                assert(base_commitment(tree.rows).0 == root@);
            }
            return Err(e);
        }
        assert(prover_state.log() =~= log + sent);
        match sample_ood_points(prover_state, config.committment_ood_samples, &lifted) {
            Ok((ood_points, ood_answers)) => {
                Ok(Witness { polynomial, prover_data, ood_points, ood_answers })
            },
            Err(e) => {
                proof {
                    let points = choose|points: Seq<Ext>|
                        {
                            &&& points.len() == config.committment_ood_samples
                            &&& all_canonical(points)
                            &&& stopped(
                                prover_state.log(),
                                log + sent,
                                #[trigger] ood_trace(c, points, n),
                                e,
                            )
                        };
                    lemma_stopped_after(
                        prover_state.log(),
                        log,
                        sent,
                        ood_trace(c, points, n),
                        e,
                    );
                    assert(base_commitment(tree.rows).0 == root@);
                }
                Err(e)
            },
        }
    }
}

/// The rows of a matrix, lifted, are the rows of the lifted matrix.
proof fn lemma_rows(values: Seq<Felt>, log_size: nat, factor: nat)
    requires
        factor <= log_size,
        values.len() == pow2(log_size),
    ensures
        pow2(factor) > 0,
        values.len() > 0,
        values.len() % pow2(factor) == 0,
        lift_rows(rows_of(values, pow2(factor))) == rows_of(lift_all(values), pow2(factor)),
        rows_of(values, pow2(factor)).len() == pow2((log_size - factor) as nat),
        forall|i: int|
            0 <= i < rows_of(values, pow2(factor)).len() ==> (#[trigger] rows_of(
                values,
                pow2(factor),
            )[i]).len() == pow2(factor),
{
    let w = pow2(factor);
    lemma_rows_shape(values, log_size, factor);
    lemma_rows_shape(lift_all(values), log_size, factor);
    let rows = rows_of(values, w);
    assert forall|i: int| 0 <= i < rows.len() implies #[trigger] lift_rows(rows)[i] == rows_of(
        lift_all(values),
        w,
    )[i] by {
        assert(rows[i].len() == w);
        assert(rows_of(lift_all(values), w)[i].len() == w);
        lemma_row_bounds(log_size, factor, i);
        assert(lift_rows(rows)[i] =~= rows_of(lift_all(values), w)[i]);
    }
    assert(lift_rows(rows) =~= rows_of(lift_all(values), w));
}

} // verus!
