//! The state of the prover between rounds, and what a round makes of it.
use crate::domain::{root_of_unity, Domain};
use crate::encoding::encoded_rows;
use crate::fiat_shamir::{
    challenge_pow_if_positive, challenge_scalar, lemma_stopped_after, pow_trace, stopped, taken,
    Entry, ProofError, ProofResult, Transcript,
};
use crate::field::{Ext, Felt};
use crate::merkle::{
    base_tree_view, ext_commitment, ext_tree_view, openings_view, BaseTree, ExtTree, Leafs,
    OpeningsView, Proof, TreeView,
};
use crate::poly::coeffs::{evaluate, fold, lift_all, CoefficientStorage};
use crate::poly::evals::hypercube;
use crate::poly::multilinear::{expand, lemma_expand_len, reversed, MultilinearPoint};
use crate::poly::vector::{all_canonical, dot, powers, weighted_sum, zeros};
use crate::sumcheck::{eq_vectors, start, SumcheckSingle, SumcheckView};
use crate::whir::committer::Witness;
use crate::whir::parameters::{bytes_per_query, WhirConfig};
use crate::whir::prover::whir_proof::all_openings;
use crate::whir::statement::{constraints_view, ConstraintView, Statement, Weights, WeightsView};
use crate::whir::utils::{ood_answers, ood_trace, query_indices};
use vstd::arithmetic::power2::pow2;
use vstd::prelude::*;

verus! {

/// The state of the prover between rounds.
#[verifier::ext_equal]
pub struct RoundView {
    /// The size, as an exponent of two, of the domain of the last commitment.
    pub log_size: nat,
    /// The sumcheck, where one is running.
    pub sumcheck: Option<SumcheckView>,
    /// What the last variables of the polynomial are to be set to.
    pub folding: Seq<Ext>,
    /// The polynomial that was committed last.
    pub coeffs: Seq<Ext>,
    /// The first commitment.
    pub base_tree: TreeView<Felt>,
    /// The last commitment, where it is not the first.
    pub ext_tree: Option<TreeView<Ext>>,
    /// What was opened of the later commitments.
    pub merkle_proofs: Seq<OpeningsView<Ext>>,
    /// What was opened of the first commitment.
    pub commitment_proof: Option<OpeningsView<Felt>>,
    /// All challenges that variables were set to, the last variable first.
    pub randomness: Seq<Ext>,
    /// What is proved of the polynomial.
    pub constraints: Seq<ConstraintView>,
}

/// `v` with `rs` written from `start` on.
pub open spec fn write_at(v: Seq<Ext>, start: nat, rs: Seq<Ext>) -> Seq<Ext> {
    Seq::new(
        v.len(),
        |i: int|
            if start <= i < start + rs.len() {
                rs[i - start]
            } else {
                v[i]
            },
    )
}

/// The points of the constraints of a round: the samples out of the domain and the queried
/// elements of the folded domain, each as a point with `n` coordinates.
pub open spec fn stir_points(
    log_folded: nat,
    ood: Seq<Ext>,
    indices: Seq<usize>,
    n: nat,
) -> Seq<Seq<Ext>> {
    Seq::new(
        ood.len() + indices.len(),
        |i: int|
            if i < ood.len() {
                expand(ood[i], n)
            } else {
                expand(root_of_unity(log_folded).power(indices[i - ood.len()] as nat), n)
            },
    )
}

impl RoundView {
    /// The row of the last commitment with the given index.
    pub open spec fn leaf(self, index: usize) -> Seq<Ext> {
        match self.ext_tree {
            None => lift_all(self.base_tree.rows[index as int]),
            Some(tree) => tree.rows[index as int],
        }
    }

    /// The values at the folding randomness of the rows with the given indices.
    pub open spec fn stir_answers(self, indices: Seq<usize>) -> Seq<Ext> {
        Seq::new(indices.len(), |i: int| evaluate(self.leaf(indices[i]), self.folding))
    }

    /// The state with the rows of the last commitment opened.
    pub open spec fn with_openings(self, indices: Seq<usize>) -> RoundView {
        match self.ext_tree {
            None => RoundView {
                commitment_proof: Some(self.base_tree.open(indices)),
                ..self
            },
            Some(tree) => RoundView {
                merkle_proofs: self.merkle_proofs.push(tree.open(indices)),
                ..self
            },
        }
    }

    /// The polynomial that is left when the last variables are set to the folding randomness.
    pub open spec fn folded(self) -> Seq<Ext> {
        fold(self.coeffs, self.folding)
    }

    /// The number of rows of the last commitment, as an exponent of two.
    pub open spec fn log_height(self) -> nat {
        (self.log_size - self.folding.len()) as nat
    }

    /// The last commitment has a row for each element of the folded domain, with an entry for each
    /// setting of the folded variables.
    pub open spec fn leaves_shaped(self) -> bool {
        match self.ext_tree {
            None => self.base_tree.shaped(self.log_height(), self.folding.len()),
            Some(tree) => tree.shaped(self.log_height(), self.folding.len()),
        }
    }

    /// The sizes are those before the round with the given index.
    pub open spec fn sized(self, config: &WhirConfig, round: nat) -> bool {
        &&& self.log_size == config.log_domain(round)
        &&& self.folding.len() == config.folding_factor.at(round)
        &&& self.leaves_shaped()
        &&& self.coeffs.len() == pow2(config.variables_before(round))
        &&& self.randomness.len() == config.variables()
        &&& match self.sumcheck {
            Some(v) => v.sized(config.variables_after(round)),
            None => round == 0 && self.constraints.len() == 0,
        }
        &&& match self.ext_tree {
            Some(_) => round > 0 && self.commitment_proof is Some && self.merkle_proofs.len()
                == round - 1,
            None => round == 0 && self.merkle_proofs.len() == 0,
        }
    }
}

impl RoundView {
    /// Every commitment has been opened, and every variable has its place for a challenge.
    pub open spec fn complete(self, config: &WhirConfig) -> bool {
        &&& self.commitment_proof is Some
        &&& self.merkle_proofs.len() == config.rounds()
        &&& self.randomness.len() == config.variables()
    }
}

impl WhirConfig {
    /// The number of variables of the polynomial that is committed before the round with the given
    /// index.
    pub open spec fn variables_before(&self, round: nat) -> nat {
        if round == 0 {
            self.variables()
        } else {
            self.variables_after((round - 1) as nat)
        }
    }

    /// The size, as an exponent of two, of the folded domain that is queried in a round.
    pub open spec fn log_folded(&self, round: nat) -> nat {
        (self.log_domain(round) - self.folding_factor.at(round)) as nat
    }

    /// The number of random bytes that the queries of a round are drawn from.
    pub open spec fn query_bytes(&self, round: nat) -> nat {
        self.queries(round) * bytes_per_query(self.log_folded(round))
    }

    /// The numbers of variables before and after a round.
    pub proof fn lemma_variables(&self, round: nat)
        requires
            self.balanced(),
            round <= self.rounds(),
        ensures
            self.folding_factor.total(round) <= self.variables(),
            self.variables_after(round) + self.folding_factor.at(round) == self.variables_before(
                round,
            ),
            round < self.rounds() ==> self.folding_factor.total(round) + self.folding_factor.at(
                round + 1,
            ) <= self.variables(),
    {
        let f = self.folding_factor;
        f.lemma_total_monotone(round, self.rounds());
        if round < self.rounds() {
            f.lemma_total_monotone(round + 1, self.rounds());
        }
        if round > 0 {
            f.lemma_total_monotone((round - 1) as nat, round);
        }
    }
}

// A round.

/// What the transcript sends back in a round.
#[verifier::ext_equal]
pub struct RoundReplies {
    /// Where the polynomial is sampled out of the domain.
    pub ood: Seq<Ext>,
    /// What the queries are drawn from.
    pub bytes: Seq<u8>,
    /// What the constraints are combined by.
    pub gamma: Ext,
    /// The challenges of the sumcheck.
    pub folds: Seq<Ext>,
}

impl RoundReplies {
    /// As many values are sent back as the round asks for.
    pub open spec fn answers(self, config: &WhirConfig, round: nat) -> bool {
        &&& self.ood.len() == config.round_parameters@[round as int].ood_samples
        &&& self.bytes.len() == config.query_bytes(round)
        &&& self.folds.len() == config.folding_factor.at(round + 1)
        &&& all_canonical(self.ood)
        &&& self.gamma.canonical()
        &&& all_canonical(self.folds)
    }

    /// The queries.
    pub open spec fn indices(self, config: &WhirConfig, round: nat) -> Seq<usize> {
        query_indices(self.bytes, config.queries(round), config.log_folded(round))
    }
}

/// Zeros in place of what is sent back in a round.
pub open spec fn blank_round(config: &WhirConfig, round: nat) -> RoundReplies {
    RoundReplies {
        ood: zeros(config.round_parameters@[round as int].ood_samples as nat),
        bytes: Seq::new(config.query_bytes(round), |i: int| 0u8),
        gamma: Ext::zero_spec(),
        folds: zeros(config.folding_factor.at(round + 1)),
    }
}

/// The points of the constraints of a round: the samples come first, then the queries.
pub open spec fn round_points(config: &WhirConfig, round: nat, replies: RoundReplies) -> Seq<
    Seq<Ext>,
> {
    stir_points(
        config.log_folded(round),
        replies.ood,
        replies.indices(config, round),
        config.variables_after(round),
    )
}

/// The values that the folded polynomial is claimed to have at the points of a round: the answers
/// to the samples, then the opened rows at the folding randomness.
pub open spec fn round_values(
    s: RoundView,
    config: &WhirConfig,
    round: nat,
    replies: RoundReplies,
) -> Seq<Ext> {
    ood_answers(s.folded(), replies.ood, config.variables_after(round)) + s.stir_answers(
        replies.indices(config, round),
    )
}

/// The rows that the folded polynomial is committed by in a round.
pub open spec fn round_rows(s: RoundView, config: &WhirConfig, round: nat) -> Seq<Seq<Ext>> {
    encoded_rows(s.folded(), config.log_domain(round + 1), config.folding_factor.at(round + 1))
}

/// The claim of the running sumcheck, if there is one, with more constraints: that the polynomial
/// with coefficients `c` has the given values at the given points, combined by the powers of
/// `gamma`. Where no sumcheck is running, the constraints make up a claim of their own.
pub open spec fn combined_claim(
    running: Option<SumcheckView>,
    c: Seq<Ext>,
    points: Seq<Seq<Ext>>,
    values: Seq<Ext>,
    gamma: Ext,
) -> SumcheckView {
    let r = powers(gamma, points.len());
    match running {
        Some(v) => v.with_equalities(eq_vectors(points), values, r),
        None => SumcheckView {
            p: hypercube(c),
            w: weighted_sum(eq_vectors(points), r, c.len()),
            sum: dot(r, values),
        },
    }
}

/// The sumcheck of a round at its start: the constraints at the samples and at the queries are
/// added to the claim, or make up a new one.
pub open spec fn round_sumcheck(
    s: RoundView,
    config: &WhirConfig,
    round: nat,
    replies: RoundReplies,
) -> SumcheckView {
    combined_claim(
        s.sumcheck,
        s.folded(),
        round_points(config, round, replies),
        round_values(s, config, round, replies),
        replies.gamma,
    )
}

/// The state after a round.
#[verifier::opaque]
pub open spec fn after_round(
    s: RoundView,
    config: &WhirConfig,
    round: nat,
    replies: RoundReplies,
) -> RoundView {
    let rows = round_rows(s, config, round);
    RoundView {
        log_size: config.log_domain(round + 1),
        sumcheck: Some(round_sumcheck(s, config, round, replies).bind_all(replies.folds)),
        folding: replies.folds.reverse(),
        coeffs: s.folded(),
        ext_tree: Some(TreeView { rows, paths: ext_commitment(rows).1 }),
        randomness: write_at(s.randomness, config.folding_factor.total(round), replies.folds),
        ..s.with_openings(replies.indices(config, round))
    }
}

/// The steps of a round up to the commitment.
pub open spec fn commitment_trace(s: RoundView, config: &WhirConfig, round: nat) -> Seq<Entry> {
    seq![Entry::Digest(ext_commitment(round_rows(s, config, round)).0)]
}

/// The steps of a round up to the queries.
pub open spec fn queries_trace(
    s: RoundView,
    config: &WhirConfig,
    round: nat,
    replies: RoundReplies,
) -> Seq<Entry> {
    (commitment_trace(s, config, round) + ood_trace(
        s.folded(),
        replies.ood,
        config.variables_after(round),
    )).push(Entry::Bytes(replies.bytes))
}

/// The steps of a round before the sumcheck.
pub open spec fn combination_trace(
    s: RoundView,
    config: &WhirConfig,
    round: nat,
    replies: RoundReplies,
) -> Seq<Entry> {
    (queries_trace(s, config, round, replies) + pow_trace(
        config.round_parameters@[round as int].pow_bits,
    )).push(Entry::Challenge(seq![replies.gamma]))
}

/// The steps of a round.
#[verifier::opaque]
pub open spec fn round_trace(
    s: RoundView,
    config: &WhirConfig,
    round: nat,
    replies: RoundReplies,
) -> Seq<Entry> {
    combination_trace(s, config, round, replies) + round_sumcheck(
        s,
        config,
        round,
        replies,
    ).trace(replies.folds, config.round_parameters@[round as int].folding_pow_bits)
}

/// The state where a round was ended by a refusal after `steps` of its steps. Up to the queries
/// it is the state before the round; from there on the queried rows were opened; and the running
/// sumcheck is gone when the refusal came in the sumcheck of the round.
pub open spec fn round_stopped(
    s: RoundView,
    config: &WhirConfig,
    round: nat,
    replies: RoundReplies,
    steps: int,
) -> RoundView {
    if steps < queries_trace(s, config, round, replies).len() {
        s
    } else if steps < combination_trace(s, config, round, replies).len() {
        s.with_openings(replies.indices(config, round))
    } else {
        RoundView { sumcheck: None, ..s.with_openings(replies.indices(config, round)) }
    }
}

/// What becomes of the state and of the transcript in a round that is not the final one, and is
/// ended by a refusal with the error `e`.
pub open spec fn round_refused(
    config: &WhirConfig,
    round: nat,
    before: &RoundState,
    after: &RoundState,
    log: Seq<Entry>,
    now: Seq<Entry>,
    e: ProofError,
) -> bool {
    let s = before@;
    &&& after.keeps(before)
    &&& after.randomness_vec == before.randomness_vec
    &&& exists|replies: RoundReplies|
        {
            &&& replies.answers(config, round)
            &&& after@ == round_stopped(s, config, round, replies, taken(now, log))
            &&& stopped(now, log, #[trigger] round_trace(s, config, round, replies), e)
            &&& taken(now, log) < queries_trace(s, config, round, replies).len()
                ==> after.same_openings(before)
            &&& taken(now, log) < combination_trace(s, config, round, replies).len()
                ==> after.sumcheck_prover == before.sumcheck_prover
        }
}

/// What becomes of the state and of the transcript in a round that is not the final one.
pub open spec fn round_outcome(
    config: &WhirConfig,
    round: nat,
    before: &RoundState,
    after: &RoundState,
    log: Seq<Entry>,
    now: Seq<Entry>,
    r: ProofResult<()>,
) -> bool {
    let s = before@;
    match r {
        Ok(_) => {
            &&& after.wf(config, round + 1)
            &&& after.coefficients is Extension
            &&& after.commitment_merkle_prover_data == before.commitment_merkle_prover_data
            &&& after.statement == before.statement
            &&& exists|replies: RoundReplies|
                {
                    &&& replies.answers(config, round)
                    &&& after@ == after_round(s, config, round, replies)
                    &&& now == log + #[trigger] round_trace(s, config, round, replies)
                }
        },
        Err(e) => round_refused(config, round, before, after, log, now, e),
    }
}

// The final round.

/// What the transcript sends back in the final round.
#[verifier::ext_equal]
pub struct FinalReplies {
    /// What the queries are drawn from.
    pub bytes: Seq<u8>,
    /// The challenges of the sumcheck.
    pub folds: Seq<Ext>,
}

impl FinalReplies {
    /// As many values are sent back as the round asks for.
    pub open spec fn answers(self, config: &WhirConfig) -> bool {
        &&& self.bytes.len() == config.query_bytes(config.rounds())
        &&& self.folds.len() == config.final_sumcheck_rounds
        &&& all_canonical(self.folds)
    }

    /// The queries.
    pub open spec fn indices(self, config: &WhirConfig) -> Seq<usize> {
        query_indices(
            self.bytes,
            config.queries(config.rounds()),
            config.log_folded(config.rounds()),
        )
    }
}

/// The sumcheck of the final round at its start: the one that is running, or one for the
/// polynomial with coefficients `c` and without constraints.
pub open spec fn final_sumcheck(s: RoundView, c: Seq<Ext>) -> SumcheckView {
    match s.sumcheck {
        Some(v) => v,
        None => SumcheckView { p: hypercube(c), w: zeros(c.len()), sum: Ext::zero_spec() },
    }
}

/// The state after the final round.
#[verifier::opaque]
pub open spec fn after_final(
    s: RoundView,
    config: &WhirConfig,
    replies: FinalReplies,
) -> RoundView {
    RoundView {
        randomness: write_at(
            s.randomness,
            config.folding_factor.total(config.rounds()),
            replies.folds,
        ),
        ..s.with_openings(replies.indices(config))
    }
}

/// The steps of the final round before the sumcheck, where the coefficients `c` are sent.
pub open spec fn final_queries_trace(
    c: Seq<Ext>,
    config: &WhirConfig,
    replies: FinalReplies,
) -> Seq<Entry> {
    seq![Entry::Scalars(c), Entry::Bytes(replies.bytes)] + pow_trace(config.final_pow_bits)
}

/// The steps of the final round, where the coefficients `c` are sent.
#[verifier::opaque]
pub open spec fn final_trace(
    s: RoundView,
    c: Seq<Ext>,
    config: &WhirConfig,
    replies: FinalReplies,
) -> Seq<Entry> {
    final_queries_trace(c, config, replies) + final_sumcheck(s, c).trace(
        replies.folds,
        config.final_folding_pow_bits,
    )
}

/// The state where the final round was ended by a refusal after `steps` of its steps: the queried
/// rows were opened if the queries had been received.
pub open spec fn final_stopped(
    s: RoundView,
    config: &WhirConfig,
    replies: FinalReplies,
    steps: int,
) -> RoundView {
    if steps < 2 {
        s
    } else {
        s.with_openings(replies.indices(config))
    }
}

/// Zeros in place of what is sent back in the final round.
pub open spec fn blank_final(config: &WhirConfig) -> FinalReplies {
    FinalReplies {
        bytes: Seq::new(config.query_bytes(config.rounds()), |i: int| 0u8),
        folds: zeros(config.final_sumcheck_rounds as nat),
    }
}

/// What becomes of the state and of the transcript in the final round, where the
/// coefficients `c` are sent.
pub open spec fn final_outcome(
    config: &WhirConfig,
    c: Seq<Ext>,
    before: &RoundState,
    after: &RoundState,
    log: Seq<Entry>,
    now: Seq<Entry>,
    r: ProofResult<()>,
) -> bool {
    let s = before@;
    &&& after.keeps(before)
    &&& after.sumcheck_prover == before.sumcheck_prover
    &&& match r {
        Ok(_) => {
            &&& after@.complete(config)
            &&& exists|replies: FinalReplies|
                {
                    &&& replies.answers(config)
                    &&& after@ == after_final(s, config, replies)
                    &&& now == log + #[trigger] final_trace(s, c, config, replies)
                }
        },
        Err(e) => {
            &&& after.randomness_vec == before.randomness_vec
            &&& taken(now, log) < 2 ==> after.same_openings(before)
            &&& exists|replies: FinalReplies|
                {
                    &&& replies.answers(config)
                    &&& after@ == final_stopped(s, config, replies, taken(now, log))
                    &&& stopped(now, log, #[trigger] final_trace(s, c, config, replies), e)
                }
        },
    }
}

// The start.

/// What the transcript sends back before the first round.
#[verifier::ext_equal]
pub struct InitReplies {
    /// What the constraints are combined by; not asked for where no statement is proved.
    pub gamma: Ext,
    /// What the last variables are set to, the last variable first.
    pub folds: Seq<Ext>,
}

impl InitReplies {
    /// As many values are sent back as are asked for.
    pub open spec fn answers(self, config: &WhirConfig) -> bool {
        &&& self.folds.len() == config.folding_factor.at(0)
        &&& self.gamma.canonical()
        &&& all_canonical(self.folds)
    }
}

/// The constraints that the samples of the witness make up.
pub open spec fn ood_constraints(points: Seq<Ext>, answers: Seq<Ext>, n: nat) -> Seq<
    ConstraintView,
> {
    Seq::new(
        points.len(),
        |i: int| (WeightsView::Evaluation(expand(points[i], n)), answers[i]),
    )
}

/// All constraints: those of the samples of the witness come first.
pub open spec fn all_constraints(
    config: &WhirConfig,
    cs: Seq<ConstraintView>,
    witness: &Witness,
) -> Seq<ConstraintView> {
    ood_constraints(witness.ood_points@, witness.ood_answers@, config.variables()) + cs
}

/// The sumcheck for the statement, at its start.
pub open spec fn init_sumcheck(
    config: &WhirConfig,
    cs: Seq<ConstraintView>,
    witness: &Witness,
    replies: InitReplies,
) -> SumcheckView {
    start(
        lift_all(witness.polynomial@),
        all_constraints(config, cs, witness),
        replies.gamma,
        config.variables(),
    )
}

/// The state before the first round.
#[verifier::opaque]
pub open spec fn after_init(
    config: &WhirConfig,
    cs: Seq<ConstraintView>,
    witness: &Witness,
    replies: InitReplies,
) -> RoundView {
    RoundView {
        log_size: config.log_domain(0),
        sumcheck: if config.initial_statement {
            Some(init_sumcheck(config, cs, witness, replies).bind_all(replies.folds))
        } else {
            None
        },
        folding: replies.folds.reverse(),
        coeffs: lift_all(witness.polynomial@),
        base_tree: base_tree_view(witness.prover_data),
        ext_tree: None,
        merkle_proofs: Seq::empty(),
        commitment_proof: None,
        randomness: replies.folds + zeros((config.variables() - replies.folds.len()) as nat),
        constraints: all_constraints(config, cs, witness),
    }
}

/// The steps before the first round.
#[verifier::opaque]
pub open spec fn init_trace(
    config: &WhirConfig,
    cs: Seq<ConstraintView>,
    witness: &Witness,
    replies: InitReplies,
) -> Seq<Entry> {
    if config.initial_statement {
        seq![Entry::Challenge(seq![replies.gamma])] + init_sumcheck(
            config,
            cs,
            witness,
            replies,
        ).trace(replies.folds, config.starting_folding_pow_bits)
    } else {
        seq![Entry::Challenge(replies.folds.reverse())] + pow_trace(
            config.starting_folding_pow_bits,
        )
    }
}

/// The state of the prover between rounds.
pub struct RoundState {
    pub domain: Domain,
    pub sumcheck_prover: Option<SumcheckSingle>,
    pub folding_randomness: MultilinearPoint,
    pub coefficients: CoefficientStorage,
    pub commitment_merkle_prover_data: BaseTree,
    pub merkle_prover_data: Option<ExtTree>,
    pub merkle_proofs: Vec<(Leafs<Ext>, Proof)>,
    pub commitment_merkle_proof: Option<(Leafs<Felt>, Proof)>,
    pub randomness_vec: Vec<Ext>,
    pub statement: Statement,
}

impl View for RoundState {
    type V = RoundView;

    open spec fn view(&self) -> RoundView {
        RoundView {
            log_size: self.domain.log_size as nat,
            sumcheck: match self.sumcheck_prover {
                Some(prover) => Some(prover@),
                None => None,
            },
            folding: self.folding_randomness@,
            coeffs: self.coefficients.lifted(),
            base_tree: base_tree_view(self.commitment_merkle_prover_data),
            ext_tree: match self.merkle_prover_data {
                Some(tree) => Some(ext_tree_view(tree)),
                None => None,
            },
            merkle_proofs: all_openings(self.merkle_proofs@),
            commitment_proof: match self.commitment_merkle_proof {
                Some(opened) => Some(openings_view(opened)),
                None => None,
            },
            randomness: self.randomness_vec@,
            constraints: self.statement@,
        }
    }
}

impl RoundState {
    /// The state is one before the round with the given index.
    pub open spec fn wf(&self, config: &WhirConfig, round: nat) -> bool {
        &&& self@.sized(config, round)
        &&& self.domain.wf()
        &&& self.coefficients.wf()
        &&& self.coefficients.num_variables_spec() == config.variables_before(round)
        &&& self.statement.wf()
        &&& self.statement.num_variables == config.variables()
    }

    /// The fields that are the same after a round that was refused, and after the final round:
    /// the domain, the polynomial and its folding randomness, the commitments and the statement.
    pub open spec fn keeps(&self, before: &RoundState) -> bool {
        &&& self.domain == before.domain
        &&& self.folding_randomness == before.folding_randomness
        &&& self.coefficients == before.coefficients
        &&& self.same_commitments(before)
        &&& self.statement == before.statement
    }

    /// There is no new commitment.
    pub open spec fn same_commitments(&self, before: &RoundState) -> bool {
        &&& self.commitment_merkle_prover_data == before.commitment_merkle_prover_data
        &&& self.merkle_prover_data == before.merkle_prover_data
    }

    /// Nothing more was opened.
    pub open spec fn same_openings(&self, before: &RoundState) -> bool {
        &&& self.merkle_proofs == before.merkle_proofs
        &&& self.commitment_merkle_proof == before.commitment_merkle_proof
    }

    /// Starts a proof: the samples of the witness join the statement, and the first variables are
    /// folded, in a sumcheck for the statement where one is proved.
    pub fn initialize_first_round_state<T: Transcript>(
        config: &WhirConfig,
        prover_state: &mut T,
        statement: Statement,
        witness: Witness,
    ) -> (r: ProofResult<RoundState>)
        requires
            config.supported(),
            config.folding_factor.at(0) <= config.variables(),
            statement.wf(),
            statement.num_variables == config.variables(),
            witness.wf(config),
            witness.polynomial.num_variables == config.variables(),
            config.initial_statement || (statement@.len() == 0 && witness.ood_points@.len() == 0),
        ensures
            match r {
                Ok(state) => {
                    &&& state.wf(config, 0)
                    &&& exists|replies: InitReplies|
                        {
                            &&& replies.answers(config)
                            &&& state@ == after_init(config, statement@, &witness, replies)
                            &&& final(prover_state).log() == old(prover_state).log()
                                + #[trigger] init_trace(config, statement@, &witness, replies)
                        }
                },
                Err(e) => exists|replies: InitReplies|
                    {
                        &&& replies.answers(config)
                        &&& stopped(
                            final(prover_state).log(),
                            old(prover_state).log(),
                            #[trigger] init_trace(config, statement@, &witness, replies),
                            e,
                        )
                    },
            },
    {
        proof {
            reveal(after_init);
            reveal(init_trace);
        }
        let ghost log = prover_state.log();
        let ghost cs = statement@;
        let num_variables: usize = config.mv_parameters.num_variables;
        let factor: usize = config.folding_factor.at_round(0);
        let samples: usize = witness.ood_points.len();
        let mut new_constraints: Vec<(Weights, Ext)> = Vec::new();
        let ghost ood = ood_constraints(
            witness.ood_points@,
            witness.ood_answers@,
            num_variables as nat,
        );
        for i in 0..samples
            invariant
                samples == witness.ood_points@.len(),
                samples == witness.ood_answers@.len(),
                ood == ood_constraints(
                    witness.ood_points@,
                    witness.ood_answers@,
                    num_variables as nat,
                ),
                constraints_view(new_constraints@) == ood.take(i as int),
                new_constraints@.len() == i,
                forall|k: int|
                    0 <= k < i ==> (#[trigger] new_constraints@[k]).0.wf(num_variables),
        {
            let point: MultilinearPoint = MultilinearPoint::expand_from_univariate(
                witness.ood_points[i],
                num_variables,
            );
            proof {
                lemma_expand_len(witness.ood_points@[i as int], num_variables as nat);
            }
            let ghost before = new_constraints@;
            new_constraints.push((Weights::evaluation(point), witness.ood_answers[i]));
            proof {
                assert(constraints_view(new_constraints@) =~= constraints_view(before).push(
                    ood[i as int],
                ));
                assert(ood.take(i + 1) =~= ood.take(i as int).push(ood[i as int]));
            }
        }
        assert(ood.take(samples as int) =~= ood);
        let mut statement: Statement = statement;
        statement.add_constraints_in_front(new_constraints);
        let ghost none = InitReplies { gamma: Ext::zero_spec(), folds: zeros(factor as nat) };
        let ghost blank = init_trace(config, cs, &witness, none);
        assert(log + blank.take(0) =~= log);
        let mut sumcheck_prover: Option<SumcheckSingle> = None;
        let ghost mut replies = none;
        let folding_randomness: MultilinearPoint = if config.initial_statement {
            let gamma: Ext = match challenge_scalar(prover_state) {
                Ok(gamma) => gamma,
                Err(e) => {
                    assert(stopped(prover_state.log(), log, blank, e));
                    return Err(e);
                },
            };
            let mut sumcheck: SumcheckSingle = SumcheckSingle::from_base_coeffs(
                &witness.polynomial,
                &statement,
                gamma,
            );
            let ghost v = sumcheck@;
            let ghost bits = config.starting_folding_pow_bits;
            let ghost asked = seq![Entry::Challenge(seq![gamma])];
            assert(prover_state.log() =~= log + asked);
            match sumcheck.compute_sumcheck_polynomials(
                prover_state,
                factor,
                config.starting_folding_pow_bits,
            ) {
                Ok(point) => {
                    proof {
                        replies = InitReplies { gamma, folds: point@.reverse() };
                        assert(v == init_sumcheck(config, cs, &witness, replies));
                        assert(prover_state.log() =~= log + init_trace(
                            config,
                            cs,
                            &witness,
                            replies,
                        ));
                    }
                    sumcheck_prover = Some(sumcheck);
                    point
                },
                Err(e) => {
                    proof {
                        let (rs, done) = choose|rs: Seq<Ext>, done: int|
                            {
                                &&& rs.len() == factor
                                &&& all_canonical(rs)
                                &&& #[trigger] v.stops(
                                    rs,
                                    bits,
                                    done,
                                    sumcheck@,
                                    prover_state.log(),
                                    log + asked,
                                    e,
                                )
                            };
                        let some = InitReplies { gamma, folds: rs };
                        assert(v == init_sumcheck(config, cs, &witness, some));
                        lemma_stopped_after(prover_state.log(), log, asked, v.trace(rs, bits), e);
                        assert(stopped(
                            prover_state.log(),
                            log,
                            init_trace(config, cs, &witness, some),
                            e,
                        ));
                    }
                    return Err(e);
                },
            }
        } else {
            let folds: Vec<Ext> = match prover_state.challenge_scalars(factor) {
                Ok(folds) => folds,
                Err(e) => {
                    assert(stopped(prover_state.log(), log, blank, e));
                    return Err(e);
                },
            };
            proof {
                replies = InitReplies { gamma: Ext::zero_spec(), folds: folds@.reverse() };
                assert(folds@.reverse().reverse() =~= folds@);
            }
            let ghost whole = init_trace(config, cs, &witness, replies);
            assert(prover_state.log() =~= log + seq![whole[0]]);
            if let Err(e) = challenge_pow_if_positive(
                prover_state,
                config.starting_folding_pow_bits,
            ) {
                proof {
                    let asked = seq![whole[0]];
                    let work = pow_trace(config.starting_folding_pow_bits);
                    lemma_stopped_after(prover_state.log(), log, asked, work, e);
                    assert(asked + work =~= whole);
                }
                return Err(e);
            }
            assert(prover_state.log() =~= log + whole);
            MultilinearPoint(folds)
        };
        let mut randomness_vec: Vec<Ext> = reversed(&folding_randomness.0);
        for i in factor..num_variables
            invariant
                factor == replies.folds.len(),
                factor <= num_variables,
                randomness_vec@ == replies.folds + zeros((i - factor) as nat),
        {
            randomness_vec.push(Ext::zero());
            assert(randomness_vec@ =~= replies.folds + zeros((i + 1 - factor) as nat));
        }
        let state = RoundState {
            domain: config.starting_domain,
            sumcheck_prover,
            folding_randomness,
            coefficients: CoefficientStorage::Base(witness.polynomial),
            commitment_merkle_prover_data: witness.prover_data,
            merkle_prover_data: None,
            merkle_proofs: Vec::new(),
            commitment_merkle_proof: None,
            randomness_vec,
            statement,
        };
        assert(state@ =~= after_init(config, cs, &witness, replies));
        Ok(state)
    }
}

} // verus!
