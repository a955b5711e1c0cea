//! The prover.
use crate::domain::{law_root_powers, lemma_pow2_monotone, root_of_unity, two_to_the, Domain};
use crate::encoding::{encode_ext, encoded_rows, lemma_sizes};
use crate::fiat_shamir::{
    challenge_pow_if_positive, challenge_scalar, lemma_stopped_after, lemma_stopped_prefix,
    pow_trace, stopped, taken, Entry, PowBits, ProofResult, Request, Transcript,
};
use crate::field::Ext;
use crate::merkle::{
    commit_ext_matrix, ext_commitment, ext_paths, ext_rows, ext_tree_view, lemma_rows_shape,
    ExtTree, TreeView,
};
use crate::poly::coeffs::{CoefficientList, CoefficientStorage};
use crate::poly::multilinear::{lemma_expand_len, reversed, MultilinearPoint};
use crate::poly::vector::{all_canonical, copy_vec, zeros};
use crate::sumcheck::{eq_vectors, points_view, SumcheckSingle};
use crate::utils::expand_randomness;
use crate::whir::committer::Witness;
use crate::whir::parameters::{bytes_per_query, RoundConfig, WhirConfig};
use crate::whir::prover::model::{
    filled, final_state, lemma_filled, linear_values, proof_of, prove_trace, state_after,
    trace_after, Replies,
};
use crate::whir::prover::openings::Opened;
use crate::whir::prover::round::{
    after_final, after_init, after_round, blank_final, blank_round, combination_trace,
    combined_claim, commitment_trace, final_outcome, final_queries_trace, final_sumcheck,
    final_trace, init_trace, queries_trace, round_outcome, round_points, round_refused, round_rows,
    round_stopped, round_sumcheck, round_trace, round_values, stir_points, write_at, FinalReplies,
    InitReplies, RoundReplies, RoundState, RoundView,
};
use crate::whir::prover::steps::{
    challenge_trace, lemma_refused_combination, lemma_refused_queries, lemma_refused_sampling,
    lemma_refused_sumcheck, lemma_stopped_within,
};
use crate::whir::prover::whir_proof::WhirProof;
use crate::whir::statement::{values, vectors, ConstraintView, Statement, Weights, WeightsView};
use crate::whir::utils::{
    get_challenge_stir_queries, increasing, law_query_indices, ood_answers, ood_trace,
    query_indices, sample_ood_points,
};
use std::ops::Deref;
use vstd::arithmetic::power2::pow2;
use vstd::prelude::*;

pub use crate::merkle::{Leafs, Proof};

pub mod laws;
pub mod model;
pub mod openings;
pub mod proof_laws;
pub mod round;
pub mod step_laws;
pub mod steps;
pub mod whir_proof;

verus! {

/// The prover for a set of parameters.
#[derive(Debug)]
pub struct Prover(pub WhirConfig);

impl Deref for Prover {
    type Target = WhirConfig;

    fn deref(&self) -> (r: &WhirConfig)
        ensures
            *r == self.0,
    {
        &self.0
    }
}

impl Prover {
    /// The rounds and the final sumcheck together fold all variables.
    pub fn validate_parameters(&self) -> (b: bool)
        requires
            self.0.folding_factor.total(self.0.rounds()) + self.0.final_sumcheck_rounds
                <= usize::MAX,
            self.0.rounds() < usize::MAX,
        ensures
            b == self.0.balanced(),
    {
        self.0.mv_parameters.num_variables == self.0.folding_factor.total_number(
            self.0.n_rounds(),
        ) + self.0.final_sumcheck_rounds
    }

    /// The statement is about polynomials of the right size, and is empty where none is proved.
    pub fn validate_statement(&self, statement: &Statement) -> (b: bool)
        ensures
            b == (statement.num_variables == self.0.variables() && (self.0.initial_statement
                || statement@.len() == 0)),
    {
        statement.num_variables() == self.0.mv_parameters.num_variables && (
        self.0.initial_statement || statement.constraints.len() == 0)
    }

    /// The committed polynomial has the right size.
    pub fn validate_witness(&self, witness: &Witness) -> (b: bool)
        requires
            witness.ood_points@.len() == witness.ood_answers@.len(),
            self.0.initial_statement || witness.ood_points@.len() == 0,
        ensures
            b == (witness.polynomial.num_variables == self.0.variables()),
    {
        witness.polynomial.num_variables() == self.0.mv_parameters.num_variables
    }
}

/// Writes the coordinates of `point`, the last one first, from `start` on.
fn write_randomness(v: &mut Vec<Ext>, start: usize, point: &MultilinearPoint)
    requires
        start + point@.len() <= old(v)@.len(),
    ensures
        final(v)@ == write_at(old(v)@, start as nat, point@.reverse()),
{
    let n: usize = point.0.len();
    let total: usize = v.len();
    let ghost before = v@;
    let ghost rs = point@.reverse();
    assert(v@ =~= write_at(before, start as nat, rs.take(0)));
    for i in 0..n
        invariant
            n == point@.len(),
            rs == point@.reverse(),
            before.len() == total,
            start + n <= total,
            v@ == write_at(before, start as nat, rs.take(i as int)),
    {
        v.set(start + i, point.0[n - 1 - i]);
        assert(v@ =~= write_at(before, start as nat, rs.take(i + 1)));
    }
    assert(rs.take(n as int) =~= rs);
}

impl Prover {
    /// Receives the queries of a round, and gives the points of its constraints: the samples out
    /// of the domain, and the queried elements of the folded domain.
    pub fn compute_stir_queries<T: Transcript>(
        &self,
        round_index: usize,
        prover_state: &mut T,
        round_state: &RoundState,
        num_variables: usize,
        round_params: &RoundConfig,
        ood_points: &Vec<Ext>,
    ) -> (r: ProofResult<(Vec<MultilinearPoint>, Vec<usize>)>)
        requires
            round_state.domain.wf(),
            self.0.folding_factor.at(round_index as nat) < round_state.domain.log_size,
            round_params.num_queries * bytes_per_query(
                (round_state.domain.log_size - self.0.folding_factor.at(round_index as nat)) as nat,
            ) <= usize::MAX,
        ensures
            ({
                let bits = (round_state.domain.log_size - self.0.folding_factor.at(
                    round_index as nat,
                )) as nat;
                let queries = round_params.num_queries as nat;
                match r {
                    Ok((points, indices)) => {
                        &&& increasing(indices@)
                        &&& forall|i: int|
                            0 <= i < indices@.len() ==> (#[trigger] indices@[i]) < pow2(bits)
                        &&& points_view(points@) == stir_points(
                            bits,
                            ood_points@,
                            indices@,
                            num_variables as nat,
                        )
                        &&& forall|i: int|
                            0 <= i < points@.len() ==> (#[trigger] points@[i])@.len()
                                == num_variables
                        &&& exists|bytes: Seq<u8>|
                            #![trigger query_indices(bytes, queries, bits)]
                            {
                                &&& bytes.len() == queries * bytes_per_query(bits)
                                &&& indices@ == query_indices(bytes, queries, bits)
                                &&& final(prover_state).log() == old(prover_state).log().push(
                                    Entry::Bytes(bytes),
                                )
                            }
                    },
                    Err(e) => final(prover_state).log() == old(prover_state).log().push(
                        Entry::Refused(Request::Bytes(queries * bytes_per_query(bits)), e),
                    ),
                }
            }),
    {
        let factor: usize = self.0.folding_factor.at_round(round_index);
        let ghost bits = (round_state.domain.log_size - factor) as nat;
        let ghost log_size = round_state.domain.log_size as nat;
        let ghost log = prover_state.log();
        let indices: Vec<usize> = get_challenge_stir_queries(
            &round_state.domain,
            factor,
            round_params.num_queries,
            prover_state,
        )?;
        proof {
            let bytes = choose|bytes: Seq<u8>|
                {
                    &&& bytes.len() == round_params.num_queries * bytes_per_query(bits)
                    &&& indices@ == #[trigger] query_indices(
                        bytes,
                        round_params.num_queries as nat,
                        bits,
                    )
                    &&& prover_state.log() == log.push(Entry::Bytes(bytes))
                };
            lemma_pow2_monotone(bits, log_size);
            law_query_indices(bytes, round_params.num_queries as nat, bits);
            lemma_pow2_monotone(factor as nat, log_size);
            law_root_powers(log_size, factor as nat);
        }
        let domain_scaled_gen: Ext = round_state.domain.element(two_to_the(factor));
        let mut points: Vec<MultilinearPoint> = Vec::new();
        let samples: usize = ood_points.len();
        let queries: usize = indices.len();
        let ghost all = stir_points(bits, ood_points@, indices@, num_variables as nat);
        for i in 0..samples
            invariant
                samples == ood_points@.len(),
                all == stir_points(bits, ood_points@, indices@, num_variables as nat),
                points@.len() == i,
                forall|k: int| 0 <= k < i ==> (#[trigger] points@[k])@ == all[k],
                forall|k: int| 0 <= k < i ==> (#[trigger] points@[k])@.len() == num_variables,
        {
            proof {
                lemma_expand_len(ood_points@[i as int], num_variables as nat);
            }
            points.push(MultilinearPoint::expand_from_univariate(ood_points[i], num_variables));
        }
        for i in 0..queries
            invariant
                samples == ood_points@.len(),
                queries == indices@.len(),
                domain_scaled_gen == root_of_unity(bits),
                all == stir_points(bits, ood_points@, indices@, num_variables as nat),
                points@.len() == samples + i,
                forall|k: int| 0 <= k < samples + i ==> (#[trigger] points@[k])@ == all[k],
                forall|k: int|
                    0 <= k < samples + i ==> (#[trigger] points@[k])@.len() == num_variables,
        {
            let x: Ext = domain_scaled_gen.exp_u64(indices[i] as u64);
            proof {
                lemma_expand_len(x, num_variables as nat);
            }
            points.push(MultilinearPoint::expand_from_univariate(x, num_variables));
        }
        assert(points_view(points@) =~= all);
        Ok((points, indices))
    }

    /// Encodes and commits to the folded polynomial.
    fn commit_folded(&self, folded: &CoefficientList<Ext>, domain: &Domain, factor: usize) -> (r: (
        [u8; 32],
        ExtTree,
    ))
        requires
            folded.wf(),
            domain.wf(),
            folded.num_variables <= domain.log_size,
            factor <= domain.log_size <= factor + 32,
        ensures
            ({
                let rows = encoded_rows(folded@, domain.log_size as nat, factor as nat);
                let (root, paths) = ext_commitment(rows);
                &&& r.0@ == root
                &&& ext_tree_view(r.1) == (TreeView { rows, paths })
                &&& ext_tree_view(r.1).shaped((domain.log_size - factor) as nat, factor as nat)
            }),
    {
        let log_size: usize = domain.log_size;
        proof {
            lemma_sizes(log_size as nat, folded.num_variables as nat);
            lemma_pow2_monotone(factor as nat, log_size as nat);
        }
        let expansion: usize = domain.size() / folded.num_coeffs();
        let values: Vec<Ext> = encode_ext(&folded.coeffs, expansion, log_size, factor);
        proof {
            lemma_rows_shape(values@, log_size as nat, factor as nat);
        }
        let (root, tree) = commit_ext_matrix(&values, two_to_the(factor));
        assert(ext_commitment(ext_rows(tree)) == (root@, ext_paths(tree)));
        (root, tree)
    }

    /// The sumcheck of a round at its start: the constraints join the running one, or start one.
    fn combine_constraints(
        running: Option<SumcheckSingle>,
        folded: &CoefficientList<Ext>,
        points: &Vec<MultilinearPoint>,
        evaluations: &Vec<Ext>,
        gamma: Ext,
    ) -> (r: SumcheckSingle)
        requires
            folded.wf(),
            points@.len() == evaluations@.len(),
            forall|i: int|
                0 <= i < points@.len() ==> (#[trigger] points@[i])@.len() == folded.num_variables,
            running matches Some(v) ==> v@.sized(folded.num_variables as nat),
        ensures
            r@.sized(folded.num_variables as nat),
            r@ == combined_claim(
                match running {
                    Some(v) => Some(v@),
                    None => None,
                },
                folded@,
                points_view(points@),
                evaluations@,
                gamma,
            ),
    {
        match running {
            Some(prover) => {
                let mut prover: SumcheckSingle = prover;
                let randomness: Vec<Ext> = expand_randomness(gamma, points.len());
                prover.add_new_equality(points, evaluations, &randomness);
                prover
            },
            None => {
                let n: usize = folded.num_variables();
                let len: usize = points.len();
                let mut statement: Statement = Statement::new(n);
                for i in 0..len
                    invariant
                        n == folded.num_variables,
                        len == points@.len(),
                        len == evaluations@.len(),
                        forall|i: int|
                            0 <= i < points@.len() ==> (#[trigger] points@[i])@.len() == n,
                        statement.wf(),
                        statement.num_variables == n,
                        statement@.len() == i,
                        forall|k: int|
                            0 <= k < i ==> #[trigger] statement@[k] == (
                                WeightsView::Evaluation(points@[k]@),
                                evaluations@[k],
                            ),
                {
                    let point: MultilinearPoint = MultilinearPoint(
                        copy_vec(&points[i].0),
                    );
                    assert(points@[i as int]@.len() == n);
                    statement.add_constraint(Weights::evaluation(point), evaluations[i]);
                }
                let prover: SumcheckSingle = SumcheckSingle::from_extension_coeffs(
                    folded,
                    &statement,
                    gamma,
                );
                assert(vectors(statement@) =~= eq_vectors(points_view(points@)));
                assert(values(statement@) =~= evaluations@);
                prover
            },
        }
    }

    /// Commits to the folded polynomial and samples it out of the domain.
    fn commit_and_sample<T: Transcript>(
        &self,
        prover_state: &mut T,
        folded: &CoefficientList<Ext>,
        domain: &Domain,
        factor: usize,
        samples: usize,
    ) -> (r: ProofResult<(ExtTree, Vec<Ext>, Vec<Ext>)>)
        requires
            folded.wf(),
            domain.wf(),
            folded.num_variables <= domain.log_size,
            factor <= domain.log_size <= factor + 32,
        ensures
            ({
                let rows = encoded_rows(folded@, domain.log_size as nat, factor as nat);
                let (root, paths) = ext_commitment(rows);
                let n = folded.num_variables as nat;
                let first = seq![Entry::Digest(root)];
                match r {
                    Ok((tree, points, answers)) => {
                        &&& ext_tree_view(tree) == (TreeView { rows, paths })
                        &&& ext_tree_view(tree).shaped(
                            (domain.log_size - factor) as nat,
                            factor as nat,
                        )
                        &&& points@.len() == samples
                        &&& all_canonical(points@)
                        &&& answers@ == ood_answers(folded@, points@, n)
                        &&& final(prover_state).log() == old(prover_state).log() + (first
                            + ood_trace(folded@, points@, n))
                    },
                    Err(e) => exists|points: Seq<Ext>|
                        #![trigger ood_trace(folded@, points, n)]
                        {
                            &&& points.len() == samples
                            &&& all_canonical(points)
                            &&& stopped(
                                final(prover_state).log(),
                                old(prover_state).log(),
                                first + ood_trace(folded@, points, n),
                                e,
                            )
                        },
                }
            }),
    {
        let ghost log = prover_state.log();
        let ghost n = folded.num_variables as nat;
        let (root, tree) = self.commit_folded(folded, domain, factor);
        let ghost first = seq![Entry::Digest(root@)];
        if let Err(e) = prover_state.add_digest(&root) {
            proof {
                let points = zeros(samples as nat);
                let whole = first + ood_trace(folded@, points, n);
                assert(log + whole.take(0) =~= log);
                assert(stopped(prover_state.log(), log, whole, e));
            }
            return Err(e);
        }
        assert(prover_state.log() =~= log + first);
        match sample_ood_points(prover_state, samples, folded) {
            Ok((points, answers)) => {
                assert(prover_state.log() =~= log + (first + ood_trace(folded@, points@, n)));
                Ok((tree, points, answers))
            },
            Err(e) => {
                proof {
                    let points = choose|points: Seq<Ext>|
                        {
                            &&& points.len() == samples
                            &&& all_canonical(points)
                            &&& stopped(
                                prover_state.log(),
                                log + first,
                                #[trigger] ood_trace(folded@, points, n),
                                e,
                            )
                        };
                    let trace = ood_trace(folded@, points, n);
                    lemma_stopped_after(prover_state.log(), log, first, trace, e);
                }
                Err(e)
            },
        }
    }

    /// Receives the queries of a round, opens the queried rows and keeps them for the proof, and
    /// gives the points of the constraints of the round with the values there.
    fn answer_queries<T: Transcript>(
        &self,
        round_index: usize,
        prover_state: &mut T,
        round_state: &mut RoundState,
        num_variables: usize,
        round_params: &RoundConfig,
        ood_points: &Vec<Ext>,
        ood_values: Vec<Ext>,
    ) -> (r: ProofResult<(Vec<MultilinearPoint>, Vec<Ext>)>)
        requires
            self.0.supported(),
            round_index < self.0.rounds(),
            *round_params == self.0.round_parameters@[round_index as int],
            old(round_state).domain.wf(),
            old(round_state)@.log_size == self.0.log_domain(round_index as nat),
            old(round_state)@.folding.len() == self.0.folding_factor.at(round_index as nat),
            old(round_state)@.leaves_shaped(),
        ensures
            ({
                let s = old(round_state)@;
                let k = round_index as nat;
                let (queries, bits) = (self.0.queries(k), self.0.log_folded(k));
                match r {
                    Ok((points, values)) => {
                        &&& final(round_state).keeps(old(round_state))
                        &&& final(round_state).sumcheck_prover == old(round_state).sumcheck_prover
                        &&& final(round_state).randomness_vec == old(round_state).randomness_vec
                        &&& forall|i: int|
                            0 <= i < points@.len() ==> (#[trigger] points@[i])@.len()
                                == num_variables
                        &&& exists|bytes: Seq<u8>|
                            #![trigger query_indices(bytes, queries, bits)]
                            {
                                let indices = query_indices(bytes, queries, bits);
                                &&& bytes.len() == self.0.query_bytes(k)
                                &&& points_view(points@) == stir_points(
                                    bits,
                                    ood_points@,
                                    indices,
                                    num_variables as nat,
                                )
                                &&& values@ == ood_values@ + s.stir_answers(indices)
                                &&& final(round_state)@ == s.with_openings(indices)
                                &&& final(prover_state).log() == old(prover_state).log().push(
                                    Entry::Bytes(bytes),
                                )
                            }
                    },
                    Err(e) => {
                        &&& *final(round_state) == *old(round_state)
                        &&& final(prover_state).log() == old(prover_state).log().push(
                            Entry::Refused(Request::Bytes(self.0.query_bytes(k)), e),
                        )
                    },
                }
            }),
    {
        let ghost k = round_index as nat;
        proof {
            assert(self.0.folding_factor.at(k) + k < self.0.starting_domain.log_size);
            assert(self.0.queries(k) == round_params.num_queries);
            assert(self.0.queries_fit(k));
        }
        let (points, indices) = self.compute_stir_queries(
            round_index,
            prover_state,
            round_state,
            num_variables,
            round_params,
            ood_points,
        )?;
        proof {
            let (queries, bits) = (self.0.queries(k), self.0.log_folded(k));
            let bytes = choose|bytes: Seq<u8>|
                {
                    &&& bytes.len() == queries * bytes_per_query(bits)
                    &&& indices@ == #[trigger] query_indices(bytes, queries, bits)
                    &&& prover_state.log() == old(prover_state).log().push(Entry::Bytes(bytes))
                };
            assert(indices@ == query_indices(bytes, queries, bits));
        }
        let opened: Opened = round_state.open_queries(&indices);
        let mut stir_values: Vec<Ext> = round_state.evaluate_opened(&opened, &indices);
        let mut values: Vec<Ext> = ood_values;
        values.append(&mut stir_values);
        round_state.record(opened, Ghost(indices@));
        Ok((points, values))
    }

    /// Runs the sumcheck of a round: the constraints join the running claim, or make up one, and
    /// the challenges become the folding randomness of the next round.
    fn run_sumcheck<T: Transcript>(
        &self,
        round_index: usize,
        prover_state: &mut T,
        round_state: &mut RoundState,
        folded: &CoefficientList<Ext>,
        points: &Vec<MultilinearPoint>,
        values: &Vec<Ext>,
        gamma: Ext,
    ) -> (r: ProofResult<()>)
        requires
            self.0.balanced(),
            round_index < self.0.rounds(),
            folded.wf(),
            folded.num_variables == self.0.variables_after(round_index as nat),
            points@.len() == values@.len(),
            forall|i: int|
                0 <= i < points@.len() ==> (#[trigger] points@[i])@.len() == folded.num_variables,
            old(round_state)@.sumcheck matches Some(v) ==> v.sized(folded.num_variables as nat),
            old(round_state)@.randomness.len() == self.0.variables(),
        ensures
            ({
                let k = round_index as nat;
                let s = old(round_state)@;
                let v = combined_claim(s.sumcheck, folded@, points_view(points@), values@, gamma);
                let bits = self.0.round_parameters@[round_index as int].folding_pow_bits;
                &&& final(round_state).domain == old(round_state).domain
                &&& final(round_state).coefficients == old(round_state).coefficients
                &&& final(round_state).same_commitments(old(round_state))
                &&& final(round_state).statement == old(round_state).statement
                &&& final(round_state).same_openings(old(round_state))
                &&& match r {
                    Ok(_) => exists|rs: Seq<Ext>|
                        #![trigger v.trace(rs, bits)]
                        {
                            &&& rs.len() == self.0.folding_factor.at(k + 1)
                            &&& all_canonical(rs)
                            &&& v.bind_all(rs).sized((folded.num_variables - rs.len()) as nat)
                            &&& final(round_state)@ == (RoundView {
                                sumcheck: Some(v.bind_all(rs)),
                                folding: rs.reverse(),
                                randomness: write_at(
                                    s.randomness,
                                    self.0.folding_factor.total(k),
                                    rs,
                                ),
                                ..s
                            })
                            &&& final(prover_state).log() == old(prover_state).log() + v.trace(
                                rs,
                                bits,
                            )
                        },
                    Err(e) => {
                        &&& final(round_state).keeps(old(round_state))
                        &&& final(round_state).randomness_vec == old(round_state).randomness_vec
                        &&& final(round_state).sumcheck_prover is None
                        &&& exists|rs: Seq<Ext>|
                            #![trigger v.trace(rs, bits)]
                            {
                                &&& rs.len() == self.0.folding_factor.at(k + 1)
                                &&& all_canonical(rs)
                                &&& stopped(
                                    final(prover_state).log(),
                                    old(prover_state).log(),
                                    v.trace(rs, bits),
                                    e,
                                )
                            }
                    },
                }
            }),
    {
        let bits: PowBits = self.0.round_parameters[round_index].folding_pow_bits;
        proof {
            assert(self.0.round_parameters.len() == self.0.rounds());
            self.0.lemma_variables(round_index as nat);
        }
        let factor: usize = self.0.folding_factor.at_round(round_index + 1);
        let running: Option<SumcheckSingle> = round_state.sumcheck_prover.take();
        let mut sumcheck: SumcheckSingle = Self::combine_constraints(
            running,
            folded,
            points,
            values,
            gamma,
        );
        let ghost v = sumcheck@;
        let point: MultilinearPoint = match sumcheck.compute_sumcheck_polynomials(
            prover_state,
            factor,
            bits,
        ) {
            Ok(point) => point,
            Err(e) => {
                return Err(e);
            },
        };
        let ghost rs = point@.reverse();
        write_randomness(
            &mut round_state.randomness_vec,
            self.0.folding_factor.total_number(round_index),
            &point,
        );
        round_state.sumcheck_prover = Some(sumcheck);
        round_state.folding_randomness = point;
        proof {
            assert(rs.reverse() =~= point@);
            assert(prover_state.log() == old(prover_state).log() + v.trace(rs, bits));
        }
        Ok(())
    }

    /// Runs one round: folds, commits to the folded polynomial, samples it, answers queries to the
    /// commitment before, and runs the sumcheck for all of this. The last round is the final one.
    ///
    /// Where no sumcheck is running, the constraints of the round start one, and are combined by
    /// the powers of the challenge however few of the queries differ.
    pub fn round<T: Transcript>(
        &self,
        round_index: usize,
        prover_state: &mut T,
        round_state: &mut RoundState,
    ) -> (r: ProofResult<()>)
        requires
            self.0.supported(),
            self.0.balanced(),
            round_index <= self.0.rounds(),
            old(round_state).wf(&self.0, round_index as nat),
        ensures
            if round_index < self.0.rounds() {
                round_outcome(
                    &self.0,
                    round_index as nat,
                    old(round_state),
                    final(round_state),
                    old(prover_state).log(),
                    final(prover_state).log(),
                    r,
                )
            } else {
                final_outcome(
                    &self.0,
                    old(round_state)@.folded(),
                    old(round_state),
                    final(round_state),
                    old(prover_state).log(),
                    final(prover_state).log(),
                    r,
                )
            },
    {
        let ghost k = round_index as nat;
        proof {
            self.0.lemma_variables(k);
        }
        let folded: CoefficientList<Ext> = round_state.coefficients.fold(
            &round_state.folding_randomness,
        );
        if round_index == self.0.n_rounds() {
            self.final_round(round_index, prover_state, round_state, &folded)
        } else {
            self.inner_round(round_index, prover_state, round_state, folded)
        }
    }

    /// Runs a round that is not the final one up to its sumcheck: commits to the folded polynomial
    /// over the given domain, samples it, answers queries and receives the combination challenge.
    /// Gives the commitment, the points of the constraints with the values there, and the
    /// challenge.
    fn prepare_round<T: Transcript>(
        &self,
        round_index: usize,
        prover_state: &mut T,
        round_state: &mut RoundState,
        folded: &CoefficientList<Ext>,
        domain: &Domain,
    ) -> (r: ProofResult<(ExtTree, Vec<MultilinearPoint>, Vec<Ext>, Ext)>)
        requires
            self.0.supported(),
            self.0.balanced(),
            round_index < self.0.rounds(),
            old(round_state).wf(&self.0, round_index as nat),
            folded.wf(),
            folded@ == old(round_state)@.folded(),
            folded.num_variables == self.0.variables_after(round_index as nat),
            domain.wf(),
            domain.log_size == self.0.log_domain(round_index as nat + 1),
        ensures
            ({
                let s = old(round_state)@;
                let k = round_index as nat;
                match r {
                    Ok((tree, points, values, gamma)) => {
                        let rows = round_rows(s, &self.0, k);
                        &&& final(round_state).keeps(old(round_state))
                        &&& final(round_state).sumcheck_prover == old(round_state).sumcheck_prover
                        &&& final(round_state).randomness_vec == old(round_state).randomness_vec
                        &&& ext_tree_view(tree) == (TreeView {
                            rows,
                            paths: ext_commitment(rows).1,
                        })
                        &&& ext_tree_view(tree).shaped(
                            self.0.log_folded(k + 1),
                            self.0.folding_factor.at(k + 1),
                        )
                        &&& points@.len() == values@.len()
                        &&& forall|i: int|
                            0 <= i < points@.len() ==> (#[trigger] points@[i])@.len()
                                == folded.num_variables
                        &&& exists|replies: RoundReplies|
                            {
                                &&& replies.answers(&self.0, k)
                                &&& gamma == replies.gamma
                                &&& points_view(points@) == round_points(&self.0, k, replies)
                                &&& values@ == round_values(s, &self.0, k, replies)
                                &&& final(round_state)@ == s.with_openings(
                                    replies.indices(&self.0, k),
                                )
                                &&& final(prover_state).log() == old(prover_state).log()
                                    + #[trigger] combination_trace(s, &self.0, k, replies)
                            }
                    },
                    Err(e) => round_refused(
                        &self.0,
                        k,
                        old(round_state),
                        final(round_state),
                        old(prover_state).log(),
                        final(prover_state).log(),
                        e,
                    ),
                }
            }),
    {
        let ghost s = round_state@;
        let ghost k = round_index as nat;
        let ghost log = prover_state.log();
        let ghost first = commitment_trace(s, &self.0, k);
        let ghost n = self.0.variables_after(k);
        let ghost mut replies = blank_round(&self.0, k);
        proof {
            self.0.lemma_variables(k);
            assert(self.0.folding_factor.at(k) + k < self.0.starting_domain.log_size);
            assert(self.0.folding_factor.at(k + 1) + (k + 1) < self.0.starting_domain.log_size);
            assert(self.0.variables_after(k) <= self.0.log_domain(k + 1));
        }
        let round_params: RoundConfig = self.0.round_parameters[round_index];
        let factor: usize = self.0.folding_factor.at_round(round_index + 1);
        let num_variables: usize = folded.num_variables();
        let (tree, ood_points, ood_values) = match self.commit_and_sample(
            prover_state,
            folded,
            domain,
            factor,
            round_params.ood_samples,
        ) {
            Ok(sampled) => sampled,
            Err(e) => {
                proof {
                    let ood = choose|points: Seq<Ext>|
                        {
                            &&& points.len() == round_params.ood_samples
                            &&& all_canonical(points)
                            &&& stopped(
                                prover_state.log(),
                                log,
                                first + #[trigger] ood_trace(s.folded(), points, n),
                                e,
                            )
                        };
                    replies = RoundReplies { ood, ..replies };
                    lemma_refused_sampling(s, &self.0, k, replies, log, prover_state.log(), e);
                }
                return Err(e);
            },
        };
        proof {
            replies = RoundReplies { ood: ood_points@, ..replies };
        }
        let ghost sampled = first + ood_trace(s.folded(), ood_points@, n);
        let (points, values) = match self.answer_queries(
            round_index,
            prover_state,
            round_state,
            num_variables,
            &round_params,
            &ood_points,
            ood_values,
        ) {
            Ok(answered) => answered,
            Err(e) => {
                proof {
                    lemma_refused_queries(s, &self.0, k, replies, log, prover_state.log(), e);
                }
                return Err(e);
            },
        };
        proof {
            let bytes = choose|bytes: Seq<u8>|
                {
                    let indices = #[trigger] query_indices(
                        bytes,
                        self.0.queries(k),
                        self.0.log_folded(k),
                    );
                    &&& bytes.len() == self.0.query_bytes(k)
                    &&& points_view(points@) == stir_points(
                        self.0.log_folded(k),
                        ood_points@,
                        indices,
                        n,
                    )
                    &&& values@ == ood_values@ + s.stir_answers(indices)
                    &&& round_state@ == s.with_openings(indices)
                    &&& prover_state.log() == (log + sampled).push(Entry::Bytes(bytes))
                };
            replies = RoundReplies { bytes, ..replies };
            assert(prover_state.log() =~= log + queries_trace(s, &self.0, k, replies));
        }
        let gamma: Ext = match combination_challenge(prover_state, round_params.pow_bits) {
            Ok(gamma) => gamma,
            Err(e) => {
                proof {
                    let gamma = choose|gamma: Ext|
                        {
                            &&& gamma.canonical()
                            &&& stopped(
                                prover_state.log(),
                                log + queries_trace(s, &self.0, k, replies),
                                #[trigger] challenge_trace(round_params.pow_bits, gamma),
                                e,
                            )
                        };
                    replies = RoundReplies { gamma, ..replies };
                    lemma_refused_combination(s, &self.0, k, replies, log, prover_state.log(), e);
                }
                return Err(e);
            },
        };
        proof {
            replies = RoundReplies { gamma, ..replies };
            assert(prover_state.log() =~= log + combination_trace(s, &self.0, k, replies));
            assert(points_view(points@).len() == points@.len());
        }
        Ok((tree, points, values, gamma))
    }

    /// Runs a round that is not the final one, with the folded polynomial.
    fn inner_round<T: Transcript>(
        &self,
        round_index: usize,
        prover_state: &mut T,
        round_state: &mut RoundState,
        folded: CoefficientList<Ext>,
    ) -> (r: ProofResult<()>)
        requires
            self.0.supported(),
            self.0.balanced(),
            round_index < self.0.rounds(),
            old(round_state).wf(&self.0, round_index as nat),
            folded.wf(),
            folded@ == old(round_state)@.folded(),
            folded.num_variables == self.0.variables_after(round_index as nat),
        ensures
            round_outcome(
                &self.0,
                round_index as nat,
                old(round_state),
                final(round_state),
                old(prover_state).log(),
                final(prover_state).log(),
                r,
            ),
    {
        let ghost s = round_state@;
        let ghost k = round_index as nat;
        let ghost log = prover_state.log();
        proof {
            self.0.lemma_variables(k);
            assert(self.0.folding_factor.at(k) + k < self.0.starting_domain.log_size);
        }
        let new_domain: Domain = round_state.domain.halved();
        let (tree, points, values, gamma) = self.prepare_round(
            round_index,
            prover_state,
            round_state,
            &folded,
            &new_domain,
        )?;
        let ghost mut replies = choose|replies: RoundReplies|
            {
                &&& replies.answers(&self.0, k)
                &&& gamma == replies.gamma
                &&& points_view(points@) == round_points(&self.0, k, replies)
                &&& values@ == round_values(s, &self.0, k, replies)
                &&& round_state@ == s.with_openings(replies.indices(&self.0, k))
                &&& prover_state.log() == log + #[trigger] combination_trace(s, &self.0, k, replies)
            };
        let ghost combined = combination_trace(s, &self.0, k, replies);
        let ghost v = round_sumcheck(s, &self.0, k, replies);
        let ghost indices = replies.indices(&self.0, k);
        let ghost bits = self.0.round_parameters@[round_index as int].folding_pow_bits;
        let ghost factor = self.0.folding_factor.at(k + 1);
        if let Err(e) = self.run_sumcheck(
            round_index,
            prover_state,
            round_state,
            &folded,
            &points,
            &values,
            gamma,
        ) {
            proof {
                let rs = choose|rs: Seq<Ext>|
                    {
                        &&& rs.len() == factor
                        &&& all_canonical(rs)
                        &&& stopped(
                            prover_state.log(),
                            log + combined,
                            #[trigger] v.trace(rs, bits),
                            e,
                        )
                    };
                replies = RoundReplies { folds: rs, ..replies };
                lemma_refused_sumcheck(s, &self.0, k, replies, log, prover_state.log(), e);
                assert(round_state@ =~= round_stopped(
                    s,
                    &self.0,
                    k,
                    replies,
                    taken(prover_state.log(), log),
                ));
            }
            return Err(e);
        }
        proof {
            let rs = choose|rs: Seq<Ext>|
                {
                    &&& rs.len() == factor
                    &&& all_canonical(rs)
                    &&& v.bind_all(rs).sized((folded.num_variables - rs.len()) as nat)
                    &&& round_state@ == (RoundView {
                        sumcheck: Some(v.bind_all(rs)),
                        folding: rs.reverse(),
                        randomness: write_at(s.randomness, self.0.folding_factor.total(k), rs),
                        ..s.with_openings(indices)
                    })
                    &&& prover_state.log() == log + combined + #[trigger] v.trace(rs, bits)
                };
            replies = RoundReplies { folds: rs, ..replies };
            reveal(round_trace);
            assert(combination_trace(s, &self.0, k, replies) == combined);
            assert(round_sumcheck(s, &self.0, k, replies) == v);
            assert(prover_state.log() =~= log + round_trace(s, &self.0, k, replies));
        }
        round_state.domain = new_domain;
        round_state.coefficients = CoefficientStorage::Extension(folded);
        round_state.merkle_prover_data = Some(tree);
        proof {
            reveal(after_round);
            assert(round_state@ =~= after_round(s, &self.0, k, replies));
        }
        Ok(())
    }

    /// Runs the final round: sends the folded polynomial itself, answers queries to the last
    /// commitment, and folds the remaining variables in a sumcheck.
    pub fn final_round<T: Transcript>(
        &self,
        round_index: usize,
        prover_state: &mut T,
        round_state: &mut RoundState,
        folded_coefficients: &CoefficientList<Ext>,
    ) -> (r: ProofResult<()>)
        requires
            self.0.supported(),
            self.0.balanced(),
            round_index == self.0.rounds(),
            old(round_state).wf(&self.0, round_index as nat),
            folded_coefficients.wf(),
            old(round_state).sumcheck_prover is None ==> self.0.final_sumcheck_rounds
                <= folded_coefficients.num_variables,
        ensures
            final_outcome(
                &self.0,
                folded_coefficients@,
                old(round_state),
                final(round_state),
                old(prover_state).log(),
                final(prover_state).log(),
                r,
            ),
    {
        let ghost s = round_state@;
        let ghost k = round_index as nat;
        let ghost c = folded_coefficients@;
        let ghost log = prover_state.log();
        let ghost mut replies = blank_final(&self.0);
        let factor: usize = self.0.folding_factor.at_round(round_index);
        proof {
            reveal(after_final);
            reveal(final_trace);
            self.0.lemma_variables(k);
            assert(self.0.folding_factor.at(k) + k < self.0.starting_domain.log_size);
            assert(self.0.queries(k) == self.0.final_queries);
            assert(self.0.queries_fit(k));
        }
        let ghost blank = final_trace(s, c, &self.0, replies);
        assert(log + blank.take(0) =~= log);
        assert(log + blank.take(1) =~= log.push(blank[0]));
        if let Err(e) = prover_state.add_scalars(&folded_coefficients.coeffs) {
            assert(stopped(prover_state.log(), log, blank, e));
            return Err(e);
        }
        let ghost sent = log.push(Entry::Scalars(c));
        let indices: Vec<usize> = match get_challenge_stir_queries(
            &round_state.domain,
            factor,
            self.0.final_queries,
            prover_state,
        ) {
            Ok(indices) => indices,
            Err(e) => {
                assert(blank[1] == Entry::Bytes(replies.bytes));
                assert(stopped(prover_state.log(), log, blank, e));
                return Err(e);
            },
        };
        proof {
            let bits = self.0.log_folded(k);
            let bytes = choose|bytes: Seq<u8>|
                {
                    &&& bytes.len() == self.0.query_bytes(k)
                    &&& indices@ == #[trigger] query_indices(
                        bytes,
                        self.0.final_queries as nat,
                        bits,
                    )
                    &&& prover_state.log() == sent.push(Entry::Bytes(bytes))
                };
            replies = FinalReplies { bytes, ..replies };
            assert(indices@ == replies.indices(&self.0));
            lemma_pow2_monotone(bits, self.0.log_domain(k));
            law_query_indices(bytes, self.0.final_queries as nat, bits);
        }
        let opened: Opened = round_state.open_queries(&indices);
        round_state.record(opened, Ghost(indices@));
        let ghost two = seq![Entry::Scalars(c), Entry::Bytes(replies.bytes)];
        let ghost queried = final_queries_trace(c, &self.0, replies);
        assert(prover_state.log() =~= log + two);
        if let Err(e) = challenge_pow_if_positive(prover_state, self.0.final_pow_bits) {
            proof {
                let whole = final_trace(s, c, &self.0, replies);
                assert(whole.subrange(0, queried.len() as int) =~= queried);
                lemma_stopped_within(
                    prover_state.log(),
                    log,
                    two,
                    pow_trace(self.0.final_pow_bits),
                    whole,
                    e,
                );
            }
            return Err(e);
        }
        assert(prover_state.log() =~= log + queried);
        let ghost v = final_sumcheck(s, c);
        let ghost bits = self.0.final_folding_pow_bits;
        if let Err(e) = self.run_final_sumcheck(
            round_index,
            prover_state,
            round_state,
            folded_coefficients,
        ) {
            proof {
                let rs = choose|rs: Seq<Ext>|
                    {
                        &&& rs.len() == self.0.final_sumcheck_rounds
                        &&& all_canonical(rs)
                        &&& stopped(
                            prover_state.log(),
                            log + queried,
                            #[trigger] v.trace(rs, bits),
                            e,
                        )
                    };
                replies = FinalReplies { folds: rs, ..replies };
                let whole = final_trace(s, c, &self.0, replies);
                assert(queried + v.trace(rs, bits) =~= whole);
                assert(whole.subrange(0, whole.len() as int) =~= whole);
                lemma_stopped_within(
                    prover_state.log(),
                    log,
                    queried,
                    v.trace(rs, bits),
                    whole,
                    e,
                );
            }
            return Err(e);
        }
        proof {
            let rs = choose|rs: Seq<Ext>|
                {
                    &&& rs.len() == self.0.final_sumcheck_rounds
                    &&& all_canonical(rs)
                    &&& round_state.randomness_vec@ == write_at(
                        s.randomness,
                        self.0.folding_factor.total(k),
                        rs,
                    )
                    &&& prover_state.log() == log + queried + #[trigger] v.trace(rs, bits)
                };
            replies = FinalReplies { folds: rs, ..replies };
            assert(prover_state.log() =~= log + final_trace(s, c, &self.0, replies));
            assert(round_state@ =~= after_final(s, &self.0, replies));
        }
        Ok(())
    }

    /// Folds the remaining variables, if there are any, in the running sumcheck, or in one without
    /// constraints.
    fn run_final_sumcheck<T: Transcript>(
        &self,
        round_index: usize,
        prover_state: &mut T,
        round_state: &mut RoundState,
        folded_coefficients: &CoefficientList<Ext>,
    ) -> (r: ProofResult<()>)
        requires
            self.0.supported(),
            self.0.balanced(),
            round_index == self.0.rounds(),
            old(round_state)@.randomness.len() == self.0.variables(),
            folded_coefficients.wf(),
            match old(round_state)@.sumcheck {
                Some(v) => v.sized(self.0.final_sumcheck_rounds as nat),
                None => self.0.final_sumcheck_rounds <= folded_coefficients.num_variables,
            },
        ensures
            ({
                let s = old(round_state)@;
                let v = final_sumcheck(s, folded_coefficients@);
                let bits = self.0.final_folding_pow_bits;
                &&& final(round_state).keeps(old(round_state))
                &&& final(round_state).sumcheck_prover == old(round_state).sumcheck_prover
                &&& final(round_state).same_openings(old(round_state))
                &&& match r {
                    Ok(_) => exists|rs: Seq<Ext>|
                        #![trigger v.trace(rs, bits)]
                        {
                            &&& rs.len() == self.0.final_sumcheck_rounds
                            &&& all_canonical(rs)
                            &&& final(round_state).randomness_vec@ == write_at(
                                s.randomness,
                                self.0.folding_factor.total(round_index as nat),
                                rs,
                            )
                            &&& final(prover_state).log() == old(prover_state).log() + v.trace(
                                rs,
                                bits,
                            )
                        },
                    Err(e) => {
                        &&& final(round_state).randomness_vec == old(round_state).randomness_vec
                        &&& exists|rs: Seq<Ext>|
                            #![trigger v.trace(rs, bits)]
                            {
                                &&& rs.len() == self.0.final_sumcheck_rounds
                                &&& all_canonical(rs)
                                &&& stopped(
                                    final(prover_state).log(),
                                    old(prover_state).log(),
                                    v.trace(rs, bits),
                                    e,
                                )
                            }
                    },
                }
            }),
    {
        let ghost s = round_state@;
        let ghost c = folded_coefficients@;
        let ghost log = prover_state.log();
        let rounds: usize = self.0.final_sumcheck_rounds;
        let bits: PowBits = self.0.final_folding_pow_bits;
        proof {
            let k = round_index as nat;
            assert(self.0.folding_factor.at(k) + k < self.0.starting_domain.log_size);
            self.0.lemma_variables(k);
        }
        if rounds == 0 {
            proof {
                let rs = Seq::<Ext>::empty();
                let start = self.0.folding_factor.total(round_index as nat);
                assert(write_at(s.randomness, start, rs) =~= s.randomness);
                assert(log + final_sumcheck(s, c).trace(rs, bits) =~= log);
            }
            return Ok(());
        }
        let mut sumcheck: SumcheckSingle = match &round_state.sumcheck_prover {
            Some(prover) => prover.duplicate(),
            // only without a statement, so there are no constraints
            None => SumcheckSingle::from_extension_coeffs(
                folded_coefficients,
                &Statement::new(folded_coefficients.num_variables()),
                Ext::one(),
            ),
        };
        let ghost v = sumcheck@;
        proof {
            if s.sumcheck is None {
                assert(v.w =~= zeros(c.len()));
            }
            assert(v == final_sumcheck(s, c));
        }
        let point: MultilinearPoint = sumcheck.compute_sumcheck_polynomials(
            prover_state,
            rounds,
            bits,
        )?;
        write_randomness(
            &mut round_state.randomness_vec,
            self.0.folding_factor.total_number(round_index),
            &point,
        );
        assert(prover_state.log() == log + v.trace(point@.reverse(), bits));
        Ok(())
    }
}

/// Does the work, and receives the challenge that constraints are combined by.
fn combination_challenge<T: Transcript>(prover_state: &mut T, pow_bits: PowBits) -> (r:
    ProofResult<Ext>)
    ensures
        match r {
            Ok(gamma) => {
                &&& gamma.canonical()
                &&& final(prover_state).log() == old(prover_state).log() + challenge_trace(
                    pow_bits,
                    gamma,
                )
            },
            Err(e) => exists|gamma: Ext|
                {
                    &&& gamma.canonical()
                    &&& stopped(
                        final(prover_state).log(),
                        old(prover_state).log(),
                        #[trigger] challenge_trace(pow_bits, gamma),
                        e,
                    )
                },
        },
{
    let ghost log = prover_state.log();
    let ghost work = pow_trace(pow_bits);
    let ghost zero = Ext::zero_spec();
    let ghost blank = challenge_trace(pow_bits, zero);
    if let Err(e) = challenge_pow_if_positive(prover_state, pow_bits) {
        proof {
            assert(blank.subrange(0, work.len() as int) =~= work);
            lemma_stopped_prefix(prover_state.log(), log, work, blank, e);
        }
        return Err(e);
    }
    let r: ProofResult<Ext> = challenge_scalar(prover_state);
    proof {
        assert(blank.take(work.len() as int) =~= work);
        match r {
            Ok(gamma) => {
                assert(prover_state.log() =~= log + challenge_trace(pow_bits, gamma));
            },
            Err(e) => {
                assert(stopped(prover_state.log(), log, blank, e));
            },
        }
    }
    r
}

/// The values at `point` of the linear weights of the statement.
fn evaluate_linear_weights(statement: &Statement, point: &MultilinearPoint) -> (r: Vec<Ext>)
    requires
        statement.wf(),
        point@.len() == statement.num_variables,
    ensures
        r@ == linear_values(statement@, point@),
{
    let n: usize = statement.constraints.len();
    let mut r: Vec<Ext> = Vec::new();
    let ghost cs = statement@;
    assert(cs.take(0) =~= Seq::<ConstraintView>::empty());
    for i in 0..n
        invariant
            statement.wf(),
            point@.len() == statement.num_variables,
            cs == statement@,
            n == cs.len(),
            r@ == linear_values(cs.take(i as int), point@),
    {
        assert(cs.take(i + 1).drop_last() =~= cs.take(i as int));
        assert(cs.take(i + 1).last() == cs[i as int]);
        assert(statement.constraints@[i as int].0.wf(statement.num_variables));
        match &statement.constraints[i].0 {
            Weights::Linear { weight } => {
                let value: Ext = weight.eval_extension(point);
                r.push(value);
            },
            Weights::Evaluation { .. } => {},
        }
    }
    assert(cs.take(n as int) =~= cs);
    r
}

impl Prover {
    /// Proves that a committed polynomial meets a statement.
    pub fn prove<T: Transcript>(
        &self,
        prover_state: &mut T,
        statement: Statement,
        witness: Witness,
    ) -> (r: ProofResult<WhirProof>)
        requires
            self.0.supported(),
            self.0.balanced(),
            statement.wf(),
            statement.num_variables == self.0.variables(),
            self.0.initial_statement || (statement@.len() == 0 && witness.ood_points@.len() == 0),
            witness.wf(&self.0),
            witness.polynomial.num_variables == self.0.variables(),
        ensures
            match r {
                Ok(p) => {
                    &&& p@.merkle_paths.len() == self.0.rounds()
                    &&& exists|replies: Replies|
                        {
                            &&& replies.answers(&self.0)
                            &&& p@ == proof_of(&self.0, statement@, &witness, replies)
                            &&& final(prover_state).log() == old(prover_state).log()
                                + #[trigger] prove_trace(&self.0, statement@, &witness, replies)
                        }
                },
                Err(e) => exists|replies: Replies|
                    {
                        &&& replies.answers(&self.0)
                        &&& stopped(
                            final(prover_state).log(),
                            old(prover_state).log(),
                            #[trigger] prove_trace(&self.0, statement@, &witness, replies),
                            e,
                        )
                    },
            },
    {
        let ghost config = &self.0;
        let ghost cs = statement@;
        let ghost log = prover_state.log();
        proof {
            self.0.lemma_variables(0);
        }
        let mut round_state: RoundState = match RoundState::initialize_first_round_state(
            &self.0,
            prover_state,
            statement,
            witness,
        ) {
            Ok(state) => state,
            Err(e) => {
                proof {
                    let init = choose|init: InitReplies|
                        {
                            &&& init.answers(config)
                            &&& stopped(
                                prover_state.log(),
                                log,
                                #[trigger] init_trace(config, cs, &witness, init),
                                e,
                            )
                        };
                    let none = Seq::<RoundReplies>::empty();
                    lemma_filled(config, cs, &witness, init, none);
                    lemma_stopped_prefix(
                        prover_state.log(),
                        log,
                        trace_after(config, cs, &witness, init, none),
                        prove_trace(config, cs, &witness, filled(config, init, none)),
                        e,
                    );
                }
                return Err(e);
            },
        };
        let ghost init = choose|init: InitReplies|
            {
                &&& init.answers(config)
                &&& round_state@ == after_init(config, cs, &witness, init)
                &&& prover_state.log() == log + #[trigger] init_trace(config, cs, &witness, init)
            };
        let ghost mut rounds = Seq::<RoundReplies>::empty();
        let n: usize = self.0.n_rounds();
        for round in 0..n
            invariant
                n == self.0.rounds(),
                *config == self.0,
                config.supported(),
                config.balanced(),
                log == old(prover_state).log(),
                cs == statement@,
                rounds.len() == round,
                forall|k: int|
                    0 <= k < rounds.len() ==> (#[trigger] rounds[k]).answers(config, k as nat),
                round_state.wf(config, round as nat),
                round_state@ == state_after(config, cs, &witness, init, rounds),
                prover_state.log() == log + trace_after(config, cs, &witness, init, rounds),
                init.answers(config),
        {
            let ghost s = round_state@;
            let ghost before = trace_after(config, cs, &witness, init, rounds);
            if let Err(e) = self.round(round, prover_state, &mut round_state) {
                proof {
                    let next = choose|next: RoundReplies|
                        {
                            &&& next.answers(config, round as nat)
                            &&& stopped(
                                prover_state.log(),
                                log + before,
                                #[trigger] round_trace(s, config, round as nat, next),
                                e,
                            )
                        };
                    let all = rounds.push(next);
                    assert(all.drop_last() =~= rounds);
                    lemma_stopped_after(
                        prover_state.log(),
                        log,
                        before,
                        round_trace(s, config, round as nat, next),
                        e,
                    );
                    lemma_filled(config, cs, &witness, init, all);
                    lemma_stopped_prefix(
                        prover_state.log(),
                        log,
                        trace_after(config, cs, &witness, init, all),
                        prove_trace(config, cs, &witness, filled(config, init, all)),
                        e,
                    );
                }
                return Err(e);
            }
            proof {
                let next = choose|next: RoundReplies|
                    {
                        &&& next.answers(config, round as nat)
                        &&& round_state@ == after_round(s, config, round as nat, next)
                        &&& prover_state.log() == log + before + #[trigger] round_trace(
                            s,
                            config,
                            round as nat,
                            next,
                        )
                    };
                let old_rounds = rounds;
                rounds = rounds.push(next);
                assert(rounds.drop_last() =~= old_rounds);
                assert(prover_state.log() =~= log + trace_after(
                    config,
                    cs,
                    &witness,
                    init,
                    rounds,
                ));
            }
        }
        let ghost s = round_state@;
        let ghost before = trace_after(config, cs, &witness, init, rounds);
        if let Err(e) = self.round(n, prover_state, &mut round_state) {
            proof {
                let last = choose|last: FinalReplies|
                    {
                        &&& last.answers(config)
                        &&& stopped(
                            prover_state.log(),
                            log + before,
                            #[trigger] final_trace(s, s.folded(), config, last),
                            e,
                        )
                    };
                let replies = Replies { init, rounds, last };
                lemma_stopped_after(
                    prover_state.log(),
                    log,
                    before,
                    final_trace(s, s.folded(), config, last),
                    e,
                );
                assert(stopped(
                    prover_state.log(),
                    log,
                    prove_trace(config, cs, &witness, replies),
                    e,
                ));
            }
            return Err(e);
        }
        let ghost last = choose|last: FinalReplies|
            {
                &&& last.answers(config)
                &&& round_state@ == after_final(s, config, last)
                &&& prover_state.log() == log + before + #[trigger] final_trace(
                    s,
                    s.folded(),
                    config,
                    last,
                )
            };
        let ghost replies = Replies { init, rounds, last };
        let point: MultilinearPoint = MultilinearPoint(reversed(&round_state.randomness_vec));
        let statement_values_at_random_point: Vec<Ext> = evaluate_linear_weights(
            &round_state.statement,
            &point,
        );
        proof {
            assert(prover_state.log() =~= log + prove_trace(config, cs, &witness, replies));
            assert(round_state@ == final_state(config, cs, &witness, replies));
        }
        Ok(
            WhirProof {
                commitment_merkle_paths: round_state.commitment_merkle_proof.unwrap(),
                merkle_paths: round_state.merkle_proofs,
                statement_values_at_random_point,
            },
        )
    }
}

} // verus!
