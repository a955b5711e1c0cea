//! What a proof hands over, and what its rounds claim, entry by entry.
use crate::domain::root_of_unity;
use crate::field::Ext;
use crate::merkle::{
    base_paths, base_rows, base_tree_view, ext_commitment, ext_paths, ext_rows, law_open_entries,
    law_openings_view, openings_view,
};
use crate::poly::coeffs::{evaluate, fold, law_univariate, lift_all, univariate};
use crate::poly::evals::{
    eq_weights, extend, hypercube, lemma_eq_weights_canonical, lemma_eq_weights_len,
};
use crate::poly::multilinear::expand;
use crate::poly::vector::{all_canonical, law_weighted_sum_entry, powers};
use crate::sumcheck::{eq_vectors, law_equalities, SumcheckView};
use crate::whir::committer::Witness;
use crate::whir::parameters::WhirConfig;
use crate::whir::prover::laws::{law_openings, queried};
use crate::whir::prover::model::{final_state, linear_values, proof_of, state_after, Replies};
use crate::whir::prover::openings::Opened;
use crate::whir::prover::round::{
    after_final, after_init, after_round, all_constraints, combined_claim, final_sumcheck,
    init_sumcheck, ood_constraints, round_points, round_sumcheck, round_values, InitReplies,
    RoundReplies, RoundState, RoundView,
};
use crate::whir::prover::whir_proof::WhirProof;
use crate::whir::statement::{law_combined, ConstraintView, WeightsView};
use crate::whir::utils::{big_endian, group, law_draw_is_queried, law_query_was_drawn, ood_answers};
use vstd::arithmetic::power2::pow2;
use vstd::prelude::*;

verus! {

// The openings.

/// The bytes that the queries of a round are drawn from; behind the last round come those of the
/// final queries.
pub open spec fn query_source(replies: Replies, round: nat) -> Seq<u8> {
    if round < replies.rounds.len() {
        replies.rounds[round as int].bytes
    } else {
        replies.last.bytes
    }
}

/// A round opens what its bytes draw: for each query of the round, the number that its group of
/// bytes writes, reduced below the number of rows, is among the opened indices. Behind the last
/// round come the final queries.
pub proof fn law_draw_is_opened(config: &WhirConfig, replies: Replies, round: nat, i: int)
    requires
        replies.answers(config),
        round <= config.round_parameters@.len(),
        0 <= i < if round < config.round_parameters@.len() {
            config.round_parameters@[round as int].num_queries
        } else {
            config.final_queries
        },
    ensures
        ({
            let domain = (config.starting_domain.log_size - round) as nat;
            let bits = (domain - config.folding_factor.at(round)) as nat;
            let bytes = query_source(replies, round);
            queried(config, replies, round).contains(
                (big_endian(group(bytes, (bits + 7) / 8, i)) % pow2(bits)) as usize,
            )
        }),
{
    let bytes = query_source(replies, round);
    law_draw_is_queried(bytes, config.queries(round), config.log_folded(round), i);
}

/// A round opens nothing but what its bytes draw: each opened index is the number that the group
/// of bytes of one of the queries writes, reduced below the number of rows.
pub proof fn law_opened_was_drawn(config: &WhirConfig, replies: Replies, round: nat, j: int)
    requires
        replies.answers(config),
        round <= config.round_parameters@.len(),
        0 <= j < queried(config, replies, round).len(),
    ensures
        ({
            let domain = (config.starting_domain.log_size - round) as nat;
            let bits = (domain - config.folding_factor.at(round)) as nat;
            let bytes = query_source(replies, round);
            let num_queries = if round < config.round_parameters@.len() {
                config.round_parameters@[round as int].num_queries
            } else {
                config.final_queries
            };
            exists|i: int|
                0 <= i < num_queries && queried(config, replies, round)[j] == (big_endian(
                    #[trigger] group(bytes, (bits + 7) / 8, i),
                ) % pow2(bits)) as usize
        }),
{
    let bytes = query_source(replies, round);
    law_query_was_drawn(bytes, config.queries(round), config.log_folded(round), j);
}

/// The first commitment is opened at the queries of the first round: the proof holds one row and
/// one path for each of them, those that the commitment has at the same index.
pub proof fn law_first_opening(
    config: &WhirConfig,
    cs: Seq<ConstraintView>,
    witness: &Witness,
    replies: Replies,
)
    requires
        replies.answers(config),
    ensures
        ({
            let opened = proof_of(config, cs, witness, replies).commitment_merkle_paths;
            let q = queried(config, replies, 0);
            &&& opened.leaves.len() == q.len()
            &&& opened.paths.len() == q.len()
            &&& forall|i: int|
                0 <= i < q.len() ==> #[trigger] opened.leaves[i] == base_rows(
                    witness.prover_data,
                )[q[i] as int]
            &&& forall|i: int|
                0 <= i < q.len() ==> #[trigger] opened.paths[i] == base_paths(
                    witness.prover_data,
                )[q[i] as int]
        }),
{
    law_openings(config, cs, witness, replies);
    law_open_entries(
        base_tree_view(witness.prover_data),
        queried(config, replies, 0),
    );
}

/// The commitment of each round is opened at the queries of the next one: the proof holds one row
/// and one path for each of them, those that the commitment has at the same index. The paths are
/// those of the tree over the committed rows, whose root was sent.
pub proof fn law_round_opening(
    config: &WhirConfig,
    cs: Seq<ConstraintView>,
    witness: &Witness,
    replies: Replies,
    k: int,
)
    requires
        replies.answers(config),
        0 <= k < config.round_parameters@.len(),
    ensures
        ({
            let p = proof_of(config, cs, witness, replies);
            let opened = p.merkle_paths[k];
            let s = state_after(config, cs, witness, replies.init, replies.rounds.take(k + 1));
            let rows = s.ext_tree.unwrap().rows;
            let q = queried(config, replies, (k + 1) as nat);
            &&& p.merkle_paths.len() == config.round_parameters@.len()
            &&& opened.leaves.len() == q.len()
            &&& opened.paths.len() == q.len()
            &&& forall|i: int|
                0 <= i < q.len() ==> #[trigger] opened.leaves[i] == rows[q[i] as int]
            &&& forall|i: int|
                0 <= i < q.len() ==> #[trigger] opened.paths[i] == ext_commitment(
                    rows,
                ).1[q[i] as int]
        }),
{
    reveal(after_round);
    let s = state_after(config, cs, witness, replies.init, replies.rounds.take(k + 1));
    let q = queried(config, replies, (k + 1) as nat);
    law_openings(config, cs, witness, replies);
    assert(proof_of(config, cs, witness, replies).merkle_paths[k] == s.ext_tree.unwrap().open(q));
    law_open_entries(s.ext_tree.unwrap(), q);
}

/// A round adds its opening to the state and changes nothing else of it.
pub proof fn law_with_openings(s: RoundView, indices: Seq<usize>)
    ensures
        ({
            let t = s.with_openings(indices);
            &&& t.log_size == s.log_size
            &&& t.sumcheck == s.sumcheck
            &&& t.folding == s.folding
            &&& t.coeffs == s.coeffs
            &&& t.base_tree == s.base_tree
            &&& t.ext_tree == s.ext_tree
            &&& t.randomness == s.randomness
            &&& t.constraints == s.constraints
            &&& match s.ext_tree {
                None => {
                    &&& t.merkle_proofs == s.merkle_proofs
                    &&& t.commitment_proof is Some
                    &&& t.commitment_proof.unwrap().leaves.len() == indices.len()
                    &&& t.commitment_proof.unwrap().paths.len() == indices.len()
                    &&& forall|i: int|
                        0 <= i < indices.len() ==> {
                            &&& #[trigger] t.commitment_proof.unwrap().leaves[i]
                                == s.base_tree.rows[indices[i] as int]
                            &&& t.commitment_proof.unwrap().paths[i]
                                == s.base_tree.paths[indices[i] as int]
                        }
                },
                Some(tree) => {
                    &&& t.commitment_proof == s.commitment_proof
                    &&& t.merkle_proofs.len() == s.merkle_proofs.len() + 1
                    &&& t.merkle_proofs.drop_last() == s.merkle_proofs
                    &&& t.merkle_proofs.last().leaves.len() == indices.len()
                    &&& t.merkle_proofs.last().paths.len() == indices.len()
                    &&& forall|i: int|
                        0 <= i < indices.len() ==> {
                            &&& #[trigger] t.merkle_proofs.last().leaves[i]
                                == tree.rows[indices[i] as int]
                            &&& t.merkle_proofs.last().paths[i] == tree.paths[indices[i] as int]
                        }
                },
            }
        }),
{
    let t = s.with_openings(indices);
    if s.ext_tree is Some {
        assert(t.merkle_proofs.drop_last() =~= s.merkle_proofs);
    }
}

// The values of the linear weights.

/// How many of the constraints have linear weights.
pub open spec fn linear_count(cs: Seq<ConstraintView>) -> nat {
    cs.filter(|c: ConstraintView| c.0 is Linear).len()
}

/// The values of the linear weights, by their places.
proof fn lemma_linear_values(cs: Seq<ConstraintView>, point: Seq<Ext>)
    ensures
        linear_values(cs, point).len() == linear_count(cs),
        forall|i: int|
            0 <= i < cs.len() && (#[trigger] cs[i]).0 is Linear ==> {
                &&& linear_count(cs.take(i)) < linear_count(cs)
                &&& linear_values(cs, point)[linear_count(cs.take(i)) as int] == extend(
                    cs[i].0->Linear_0,
                    point,
                )
            },
    decreases cs.len(),
{
    reveal(Seq::filter);
    if cs.len() > 0 {
        let rest = cs.drop_last();
        lemma_linear_values(rest, point);
        assert forall|i: int| 0 <= i < cs.len() && (#[trigger] cs[i]).0 is Linear implies {
            &&& linear_count(cs.take(i)) < linear_count(cs)
            &&& linear_values(cs, point)[linear_count(cs.take(i)) as int] == extend(
                cs[i].0->Linear_0,
                point,
            )
        } by {
            if i < rest.len() {
                assert(rest[i].0 is Linear);
                assert(rest.take(i) =~= cs.take(i));
            } else {
                assert(cs.take(i) =~= rest);
            }
        }
    }
}

/// Constraints without linear weights in front have no values.
proof fn lemma_linear_values_behind(
    front: Seq<ConstraintView>,
    cs: Seq<ConstraintView>,
    point: Seq<Ext>,
)
    requires
        forall|i: int| 0 <= i < front.len() ==> (#[trigger] front[i]).0 is Evaluation,
    ensures
        linear_values(front + cs, point) == linear_values(cs, point),
    decreases front.len() + cs.len(),
{
    if cs.len() > 0 {
        lemma_linear_values_behind(front, cs.drop_last(), point);
        assert((front + cs).drop_last() =~= front + cs.drop_last());
        assert((front + cs).last() == cs.last());
    } else if front.len() > 0 {
        lemma_linear_values_behind(front.drop_last(), cs, point);
        assert((front + cs).drop_last() =~= front.drop_last() + cs);
        assert((front + cs).last() == front[front.len() - 1]);
    }
}

/// The constraints that are proved do not change in the rounds.
proof fn lemma_constraints(
    config: &WhirConfig,
    cs: Seq<ConstraintView>,
    witness: &Witness,
    init: InitReplies,
    rounds: Seq<RoundReplies>,
)
    ensures
        state_after(config, cs, witness, init, rounds).constraints == all_constraints(
            config,
            cs,
            witness,
        ),
    decreases rounds.len(),
{
    reveal(after_init);
    reveal(after_round);
    if rounds.len() > 0 {
        lemma_constraints(config, cs, witness, init, rounds.drop_last());
    }
}

/// The proof gives as many values as the statement has linear weights. For each constraint with
/// linear weights, the value at the place that the number of linear weights before it gives is
/// that of the multilinear polynomial with these weights on the hypercube, at the random point.
pub proof fn law_linear_values(
    config: &WhirConfig,
    cs: Seq<ConstraintView>,
    witness: &Witness,
    replies: Replies,
)
    ensures
        ({
            let given = proof_of(config, cs, witness, replies).statement_values_at_random_point;
            let point = final_state(config, cs, witness, replies).randomness.reverse();
            &&& given.len() == linear_count(cs)
            &&& forall|i: int|
                0 <= i < cs.len() && (#[trigger] cs[i]).0 is Linear ==> {
                    &&& linear_count(cs.take(i)) < given.len()
                    &&& given[linear_count(cs.take(i)) as int] == extend(
                        cs[i].0->Linear_0,
                        point,
                    )
                }
        }),
{
    reveal(after_final);
    let point = final_state(config, cs, witness, replies).randomness.reverse();
    let front = ood_constraints(witness.ood_points@, witness.ood_answers@, config.variables());
    lemma_constraints(config, cs, witness, replies.init, replies.rounds);
    lemma_linear_values_behind(front, cs, point);
    lemma_linear_values(cs, point);
}

/// The challenges of the rounds stand in the state in the order in which they were received.
proof fn lemma_randomness(
    config: &WhirConfig,
    cs: Seq<ConstraintView>,
    witness: &Witness,
    init: InitReplies,
    rounds: Seq<RoundReplies>,
)
    requires
        config.balanced(),
        init.answers(config),
        rounds.len() <= config.rounds(),
        forall|k: int| 0 <= k < rounds.len() ==> (#[trigger] rounds[k]).answers(config, k as nat),
    ensures
        ({
            let r = state_after(config, cs, witness, init, rounds).randomness;
            let f = config.folding_factor;
            &&& r.len() == config.variables()
            &&& forall|j: int| 0 <= j < f.at(0) ==> #[trigger] r[j] == init.folds[j]
            &&& forall|k: int, j: int|
                0 <= k < rounds.len() && 0 <= j < f.at((k + 1) as nat)
                    ==> r[f.total(k as nat) + j] == #[trigger] rounds[k].folds[j]
        }),
    decreases rounds.len(),
{
    config.lemma_variables(rounds.len());
    let f = config.folding_factor;
    let r = state_after(config, cs, witness, init, rounds).randomness;
    if rounds.len() == 0 {
        reveal(after_init);
    } else {
        reveal(after_round);
        let before = rounds.drop_last();
        let m = before.len();
        assert forall|k: int| 0 <= k < before.len() implies (#[trigger] before[k]).answers(
            config,
            k as nat,
        ) by {
            assert(before[k] == rounds[k]);
        }
        lemma_randomness(config, cs, witness, init, before);
        config.lemma_variables(m);
        assert(rounds[m as int].answers(config, m));
        f.lemma_total_monotone(0, m);
        assert forall|k: int, j: int|
            0 <= k < rounds.len() && 0 <= j < f.at((k + 1) as nat) implies r[f.total(k as nat) + j]
            == #[trigger] rounds[k].folds[j] by {
            if k < m {
                assert(before[k].folds[j] == rounds[k].folds[j]);
                f.lemma_total_monotone((k + 1) as nat, m);
            }
        }
    }
}

/// The random point of a proof has a coordinate for each variable: backwards, the challenges of
/// the first folding, those of each round, and those of the final sumcheck, each in the order in
/// which they were received.
pub proof fn law_random_point_entries(
    config: &WhirConfig,
    cs: Seq<ConstraintView>,
    witness: &Witness,
    replies: Replies,
)
    requires
        config.balanced(),
        replies.answers(config),
    ensures
        ({
            let r = final_state(config, cs, witness, replies).randomness;
            let f = config.folding_factor;
            let n = config.round_parameters@.len();
            &&& r.len() == config.mv_parameters.num_variables
            &&& r.len() == f.total(n) + config.final_sumcheck_rounds
            &&& forall|j: int| 0 <= j < f.at(0) ==> #[trigger] r[j] == replies.init.folds[j]
            &&& forall|k: int, j: int|
                0 <= k < n && 0 <= j < f.at((k + 1) as nat) ==> r[f.total(k as nat) + j]
                    == #[trigger] replies.rounds[k].folds[j]
            &&& forall|j: int|
                0 <= j < config.final_sumcheck_rounds ==> r[f.total(n) + j]
                    == #[trigger] replies.last.folds[j]
        }),
{
    reveal(after_final);
    let f = config.folding_factor;
    let n = config.rounds();
    let s = state_after(config, cs, witness, replies.init, replies.rounds);
    let r = final_state(config, cs, witness, replies).randomness;
    lemma_randomness(config, cs, witness, replies.init, replies.rounds);
    f.lemma_total_monotone(0, n);
    assert forall|k: int, j: int| 0 <= k < n && 0 <= j < f.at((k + 1) as nat) implies r[f.total(
        k as nat,
    ) + j] == #[trigger] replies.rounds[k].folds[j] by {
        f.lemma_total_monotone((k + 1) as nat, n);
        assert(s.randomness[f.total(k as nat) + j] == replies.rounds[k].folds[j]);
    }
}

// The constraints.

/// The samples of the witness make up the first constraints, each on the value at the point that
/// the sample stands for, and the constraints of the statement follow.
pub proof fn law_all_constraints(config: &WhirConfig, cs: Seq<ConstraintView>, witness: &Witness)
    ensures
        ({
            let all = all_constraints(config, cs, witness);
            let n = config.mv_parameters.num_variables as nat;
            let samples = witness.ood_points@.len();
            &&& all.len() == samples + cs.len()
            &&& forall|i: int|
                0 <= i < samples ==> (#[trigger] all[i]).0 == WeightsView::Evaluation(
                    expand(witness.ood_points@[i], n),
                ) && all[i].1 == witness.ood_answers@[i]
            &&& forall|i: int| 0 <= i < cs.len() ==> all[samples + i] == #[trigger] cs[i]
        }),
{
}

/// The points of a round: first those that the samples stand for, then those that the queried
/// elements of the folded domain stand for, all with as many coordinates as variables are left.
pub proof fn law_round_points(config: &WhirConfig, round: nat, replies: RoundReplies, i: int)
    ensures
        ({
            let points = round_points(config, round, replies);
            let q = replies.indices(config, round);
            let left = config.mv_parameters.num_variables - config.folding_factor.total(round);
            let domain = (config.starting_domain.log_size - round) as nat;
            let bits = (domain - config.folding_factor.at(round)) as nat;
            &&& points.len() == replies.ood.len() + q.len()
            &&& 0 <= i < replies.ood.len() ==> points[i] == expand(replies.ood[i], left as nat)
            &&& 0 <= i < q.len() ==> points[replies.ood.len() + i] == expand(
                root_of_unity(bits).power(q[i] as nat),
                left as nat,
            )
        }),
{
}

/// The values of a round: first the answers to the samples, then for each query the opened row at
/// the folding randomness, a row of the first commitment in the first round and of the last
/// commitment later.
pub proof fn law_round_values(
    s: RoundView,
    config: &WhirConfig,
    round: nat,
    replies: RoundReplies,
    i: int,
)
    ensures
        ({
            let values = round_values(s, config, round, replies);
            let q = replies.indices(config, round);
            let left = config.mv_parameters.num_variables - config.folding_factor.total(round);
            let answers = ood_answers(s.folded(), replies.ood, left as nat);
            &&& values.len() == answers.len() + q.len()
            &&& 0 <= i < answers.len() ==> values[i] == answers[i]
            &&& 0 <= i < q.len() ==> match s.ext_tree {
                None => values[answers.len() + i] == evaluate(
                    lift_all(s.base_tree.rows[q[i] as int]),
                    s.folding,
                ),
                Some(tree) => values[answers.len() + i] == evaluate(
                    tree.rows[q[i] as int],
                    s.folding,
                ),
            }
        }),
{
}

/// The claim of a round. Where a sumcheck is running, its polynomial stays, and the claim and the
/// weights are added to; otherwise they start from zero, for the folded polynomial. What is added
/// to the claim is the polynomial in one variable that has the values for coefficients, at
/// `gamma`, and what is added to a weight is the one that has the weights of the points there.
pub proof fn law_combined_claim(
    running: Option<SumcheckView>,
    c: Seq<Ext>,
    points: Seq<Seq<Ext>>,
    values: Seq<Ext>,
    gamma: Ext,
    j: int,
)
    requires
        points.len() == values.len(),
        all_canonical(values),
        forall|i: int| 0 <= i < points.len() ==> pow2((#[trigger] points[i]).len()) == c.len(),
        running matches Some(v) ==> v.w.len() == c.len(),
        0 <= j < c.len(),
    ensures
        ({
            let u = combined_claim(running, c, points, values, gamma);
            let column = Seq::new(points.len(), |i: int| eq_weights(points[i])[j]);
            &&& u.w.len() == c.len()
            &&& match running {
                Some(v) => {
                    &&& u.p == v.p
                    &&& u.w[j] == v.w[j].plus(univariate(column, gamma))
                    &&& u.sum == v.sum.plus(univariate(values, gamma))
                },
                None => {
                    &&& u.p == hypercube(c)
                    &&& u.w[j] == univariate(column, gamma)
                    &&& u.sum == univariate(values, gamma)
                },
            }
        }),
{
    let ws = eq_vectors(points);
    let column = Seq::new(points.len(), |i: int| eq_weights(points[i])[j]);
    assert forall|i: int| 0 <= i < ws.len() implies (#[trigger] ws[i]).len() == c.len()
        && all_canonical(ws[i]) by {
        lemma_eq_weights_len(points[i]);
        lemma_eq_weights_canonical(points[i]);
        assert(pow2(points[i].len()) == c.len());
    }
    assert(Seq::new(ws.len(), |i: int| ws[i][j]) =~= column);
    match running {
        Some(v) => {
            law_equalities(v, ws, values, gamma, j);
        },
        None => {
            law_weighted_sum_entry(ws, powers(gamma, ws.len()), c.len(), j);
            assert forall|i: int| 0 <= i < column.len() implies (
            #[trigger] column[i]).canonical() by {
                assert(all_canonical(ws[i]) && ws[i].len() == c.len());
            }
            law_univariate(values, gamma);
            law_univariate(column, gamma);
        },
    }
}

/// The claim for the statement: it is about the committed polynomial; the claimed sum is the
/// polynomial in one variable that has the claims of all constraints for coefficients, at `gamma`,
/// and each weight is the one that has the weights of the constraints there.
pub proof fn law_first_claim(
    config: &WhirConfig,
    cs: Seq<ConstraintView>,
    witness: &Witness,
    replies: InitReplies,
    j: int,
)
    requires
        ({
            let all = all_constraints(config, cs, witness);
            forall|i: int|
                0 <= i < all.len() ==> (#[trigger] all[i]).0.fits(config.variables())
                    && all[i].1.canonical() && all_canonical(all[i].0.vector())
        }),
        0 <= j < pow2(config.variables()),
    ensures
        ({
            let v = init_sumcheck(config, cs, witness, replies);
            let all = all_constraints(config, cs, witness);
            let claims = Seq::new(all.len(), |i: int| all[i].1);
            let column = Seq::new(all.len(), |i: int| all[i].0.vector()[j]);
            &&& v.p == hypercube(lift_all(witness.polynomial@))
            &&& v.w.len() == pow2(config.variables())
            &&& v.w[j] == univariate(column, replies.gamma)
            &&& v.sum == univariate(claims, replies.gamma)
        }),
{
    law_combined(all_constraints(config, cs, witness), replies.gamma, config.variables(), j);
}

/// The state before the first round: the committed polynomial is to be folded by the challenges,
/// the last one first, and nothing has been opened. A sumcheck is running if and only if a
/// statement is proved.
pub proof fn law_first_state(
    config: &WhirConfig,
    cs: Seq<ConstraintView>,
    witness: &Witness,
    replies: InitReplies,
)
    ensures
        ({
            let s = after_init(config, cs, witness, replies);
            let k = replies.folds.len();
            &&& s.log_size == config.starting_domain.log_size
            &&& s.sumcheck is Some <==> config.initial_statement
            &&& config.initial_statement ==> s.sumcheck.unwrap() == init_sumcheck(
                config,
                cs,
                witness,
                replies,
            ).bind_all(replies.folds)
            &&& s.folding.len() == k
            &&& forall|i: int| 0 <= i < k ==> #[trigger] s.folding[i] == replies.folds[k - 1 - i]
            &&& s.coeffs == lift_all(witness.polynomial@)
            &&& s.base_tree.rows == base_rows(witness.prover_data)
            &&& s.base_tree.paths == base_paths(witness.prover_data)
            &&& s.ext_tree is None
            &&& s.merkle_proofs.len() == 0
            &&& s.commitment_proof is None
            &&& s.constraints == all_constraints(config, cs, witness)
        }),
{
    reveal(after_init);
}

/// The state after a round: the polynomial that it folded, which is to be folded by its
/// challenges, the last one first, with a sumcheck whose variables were set to them. The first
/// commitment and the constraints stay.
pub proof fn law_next_state(s: RoundView, config: &WhirConfig, round: nat, replies: RoundReplies)
    ensures
        ({
            let t = after_round(s, config, round, replies);
            let k = replies.folds.len();
            &&& t.log_size == (config.starting_domain.log_size - round - 1) as nat
            &&& t.sumcheck is Some
            &&& t.sumcheck.unwrap() == round_sumcheck(s, config, round, replies).bind_all(
                replies.folds,
            )
            &&& t.folding.len() == k
            &&& forall|i: int| 0 <= i < k ==> #[trigger] t.folding[i] == replies.folds[k - 1 - i]
            &&& t.coeffs == fold(s.coeffs, s.folding)
            &&& t.base_tree == s.base_tree
            &&& t.constraints == s.constraints
        }),
{
    reveal(after_round);
}

/// The final sumcheck goes on with the running one; where none is running, all weights are zero
/// and so is the claim.
pub proof fn law_final_claim(s: RoundView, c: Seq<Ext>)
    ensures
        s.sumcheck matches Some(v) ==> final_sumcheck(s, c) == v,
        s.sumcheck is None ==> {
            let v = final_sumcheck(s, c);
            &&& v.p == hypercube(c)
            &&& v.w.len() == c.len()
            &&& forall|j: int| 0 <= j < c.len() ==> #[trigger] v.w[j] == (Ext { c0: 0, c1: 0 })
            &&& v.sum == (Ext { c0: 0, c1: 0 })
        },
{
}

// What the types stand for.

/// A proof stands for the rows, the paths and the values that it holds, in their order.
pub proof fn law_proof_view(p: WhirProof)
    ensures
        p@.statement_values_at_random_point == p.statement_values_at_random_point@,
        p@.commitment_merkle_paths.leaves.len() == p.commitment_merkle_paths.0@.len(),
        p@.commitment_merkle_paths.paths.len() == p.commitment_merkle_paths.1@.len(),
        forall|i: int|
            0 <= i < p.commitment_merkle_paths.0@.len()
                ==> #[trigger] p@.commitment_merkle_paths.leaves[i]
                == p.commitment_merkle_paths.0@[i]@,
        forall|i: int, j: int|
            0 <= i < p.commitment_merkle_paths.1@.len() && 0 <= j
                < p.commitment_merkle_paths.1@[i]@.len()
                ==> #[trigger] p@.commitment_merkle_paths.paths[i][j]
                == p.commitment_merkle_paths.1@[i]@[j]@,
        p@.merkle_paths.len() == p.merkle_paths@.len(),
        forall|k: int|
            0 <= k < p.merkle_paths@.len() ==> {
                &&& (#[trigger] p@.merkle_paths[k]).leaves.len() == p.merkle_paths@[k].0@.len()
                &&& p@.merkle_paths[k].paths.len() == p.merkle_paths@[k].1@.len()
            },
        forall|k: int, i: int|
            0 <= k < p.merkle_paths@.len() && 0 <= i < p.merkle_paths@[k].0@.len()
                ==> #[trigger] p@.merkle_paths[k].leaves[i] == p.merkle_paths@[k].0@[i]@,
        forall|k: int, i: int, j: int|
            0 <= k < p.merkle_paths@.len() && 0 <= i < p.merkle_paths@[k].1@.len() && 0 <= j
                < p.merkle_paths@[k].1@[i]@.len() ==> #[trigger] p@.merkle_paths[k].paths[i][j]
                == p.merkle_paths@[k].1@[i]@[j]@,
{
    law_openings_view(p.commitment_merkle_paths);
}

/// A state stands for what its fields hold.
pub proof fn law_state_view(s: RoundState)
    ensures
        s@.log_size == s.domain.log_size,
        s.sumcheck_prover matches Some(v) ==> s@.sumcheck == Some(
            (SumcheckView { p: v.evaluation_of_p@, w: v.weights@, sum: v.sum }),
        ),
        s.sumcheck_prover is None ==> s@.sumcheck is None,
        s@.folding == s.folding_randomness.0@,
        s@.coeffs == s.coefficients.lifted(),
        s@.base_tree.rows == base_rows(s.commitment_merkle_prover_data),
        s@.base_tree.paths == base_paths(s.commitment_merkle_prover_data),
        s.merkle_prover_data matches Some(tree) ==> s@.ext_tree is Some
            && s@.ext_tree.unwrap().rows == ext_rows(tree) && s@.ext_tree.unwrap().paths
            == ext_paths(tree),
        s.merkle_prover_data is None ==> s@.ext_tree is None,
        s@.merkle_proofs.len() == s.merkle_proofs@.len(),
        forall|k: int|
            0 <= k < s.merkle_proofs@.len() ==> #[trigger] s@.merkle_proofs[k]
                == openings_view(s.merkle_proofs@[k]),
        s.commitment_merkle_proof matches Some(opened) ==> s@.commitment_proof == Some(
            openings_view(opened),
        ),
        s.commitment_merkle_proof is None ==> s@.commitment_proof is None,
        s@.randomness == s.randomness_vec@,
        s@.constraints == s.statement@,
{
}

/// Opened rows are those of the last commitment, each at its index and in the extension field,
/// with the path of the same index.
pub proof fn law_opened(opened: Opened, s: RoundView, indices: Seq<usize>)
    requires
        opened.answers(s, indices),
    ensures
        opened.leaves().len() == indices.len(),
        opened is Commitment <==> s.ext_tree is None,
        opened matches Opened::Commitment((leaves, paths)) ==> {
            &&& leaves@.len() == indices.len()
            &&& paths@.len() == indices.len()
            &&& forall|i: int|
                0 <= i < indices.len() ==> {
                    &&& #[trigger] opened.leaves()[i] == lift_all(leaves@[i]@)
                    &&& leaves@[i]@ == s.base_tree.rows[indices[i] as int]
                    &&& openings_view((leaves, paths)).paths[i]
                        == s.base_tree.paths[indices[i] as int]
                }
        },
        opened matches Opened::Round((leaves, paths)) ==> s.ext_tree is Some && {
            let tree = s.ext_tree.unwrap();
            &&& leaves@.len() == indices.len()
            &&& paths@.len() == indices.len()
            &&& forall|i: int|
                0 <= i < indices.len() ==> {
                    &&& #[trigger] opened.leaves()[i] == leaves@[i]@
                    &&& leaves@[i]@ == tree.rows[indices[i] as int]
                    &&& openings_view((leaves, paths)).paths[i] == tree.paths[indices[i] as int]
                }
        },
{
    match opened {
        Opened::Commitment(o) => {
            law_openings_view(o);
            law_open_entries(s.base_tree, indices);
            assert forall|i: int| 0 <= i < indices.len() implies o.0@[i]@
                == s.base_tree.rows[indices[i] as int] && openings_view(o).paths[i]
                == s.base_tree.paths[indices[i] as int] && #[trigger] opened.leaves()[i]
                == lift_all(o.0@[i]@) by {
                assert(openings_view(o).leaves[i] == s.base_tree.open(indices).leaves[i]);
                assert(openings_view(o).paths[i] == s.base_tree.open(indices).paths[i]);
            }
        },
        Opened::Round(o) => {
            let tree = s.ext_tree.unwrap();
            law_openings_view(o);
            law_open_entries(tree, indices);
            assert forall|i: int| 0 <= i < indices.len() implies o.0@[i]@
                == tree.rows[indices[i] as int] && openings_view(o).paths[i]
                == tree.paths[indices[i] as int] && #[trigger] opened.leaves()[i] == o.0@[i]@ by {
                assert(openings_view(o).leaves[i] == tree.open(indices).leaves[i]);
                assert(openings_view(o).paths[i] == tree.open(indices).paths[i]);
            }
        },
    }
}

} // verus!
